use boop::mixer::accumulate;
use boop::source::{deliver, Guarded, Producer};
use boop::{Mixer, Player, Source};
use std::sync::atomic::{AtomicUsize, Ordering};
use std::sync::Arc;

fn sum(a: f32, b: f32) -> f32 {
    a + b
}

fn player(samples: Vec<f32>, channels: usize) -> Player<f32> {
    Player::new(samples, channels)
}

fn sine(frequency: f32, rate: f32, index: usize) -> f32 {
    (2.0 * std::f32::consts::PI * frequency * index as f32 / rate).sin()
}

/// A source of a constant, which counts its pulls and the samples asked of it.
struct Counted {
    value: f32,
    channels: usize,
    left: usize,
    pulls: Arc<AtomicUsize>,
    asked: Arc<AtomicUsize>,
}

impl Counted {
    fn new(value: f32, channels: usize, left: usize) -> (Self, Arc<AtomicUsize>, Arc<AtomicUsize>) {
        let pulls = Arc::new(AtomicUsize::new(0));
        let asked = Arc::new(AtomicUsize::new(0));
        (Counted { value, channels, left, pulls: pulls.clone(), asked: asked.clone() }, pulls, asked)
    }
}

impl Producer<f32> for Counted {
    fn write_samples(&mut self, buffer: &mut [f32]) -> usize {
        self.pulls.fetch_add(1, Ordering::SeqCst);
        self.asked.store(buffer.len(), Ordering::SeqCst);
        let count = buffer.len().min(self.left);
        for sample in buffer[..count].iter_mut() {
            *sample = self.value;
        }
        self.left -= count;
        count
    }

    fn channel_count(&self) -> usize {
        self.channels
    }
}

#[test]
fn mono_sine_mixes_into_stereo() {
    let samples: Vec<f32> = (0..66150).map(|i| sine(440.0, 44100.0, i)).collect();
    let mut mixer = Mixer::new(2, 0.0f32, sum);
    mixer.add_source(player(samples.clone(), 1));
    assert_eq!(mixer.channel_count(), 2);
    let mut buffer = vec![7.0f32; 8820];
    for pull in 0..15 {
        assert_eq!(mixer.write_samples(&mut buffer), 8820);
        for frame in 0..4410 {
            let expected = 0.0 + samples[pull * 4410 + frame];
            assert_eq!(buffer[2 * frame], expected);
            assert_eq!(buffer[2 * frame + 1], expected);
        }
    }
    for _ in 0..3 {
        assert_eq!(mixer.write_samples(&mut buffer), 8820);
        assert!(buffer.iter().all(|sample| *sample == 0.0));
    }
}

#[test]
fn two_concurrent_sources_mix_additively() {
    let mono: Vec<f32> = (0..1000).map(|i| sine(440.0, 44100.0, i)).collect();
    let stereo: Vec<f32> = (0..2000)
        .map(|i| if i % 2 == 0 { sine(800.0, 44100.0, i / 2) } else { -sine(800.0, 44100.0, i / 2) })
        .collect();
    let mut mixer = Mixer::new(2, 0.0f32, sum);
    mixer.add_source(player(mono.clone(), 1));
    mixer.add_source(player(stereo.clone(), 2));
    let mut buffer = vec![0.0f32; 400];
    for pull in 0..5 {
        assert_eq!(mixer.write_samples(&mut buffer), 400);
        for frame in 0..200 {
            let at = pull * 200 + frame;
            assert_eq!(buffer[2 * frame], (0.0 + mono[at]) + stereo[2 * at]);
            assert_eq!(buffer[2 * frame + 1], (0.0 + mono[at]) + stereo[2 * at + 1]);
        }
    }
}

#[test]
fn two_sources_of_the_same_layout_add_sample_by_sample() {
    let first: Vec<f32> = (0..64).map(|i| i as f32).collect();
    let second: Vec<f32> = (0..64).map(|i| 1000.0 - i as f32 * 0.5).collect();
    let mut mixer = Mixer::new(2, 0.0f32, sum);
    mixer.add_source(player(first.clone(), 2));
    mixer.add_source(player(second.clone(), 2));
    let mut mixed = vec![0.0f32; 32];
    assert_eq!(mixer.write_samples(&mut mixed), 32);
    let mut alone_first = vec![0.0f32; 32];
    let mut alone_second = vec![0.0f32; 32];
    assert_eq!(player(first, 2).write_samples(&mut alone_first), 32);
    assert_eq!(player(second, 2).write_samples(&mut alone_second), 32);
    for at in 0..32 {
        assert_eq!(mixed[at], alone_first[at] + alone_second[at]);
    }
}

#[test]
fn exhaustion_prunes_a_child() {
    let (first, first_pulls, _) = Counted::new(1.0, 1, usize::MAX);
    let (second, second_pulls, _) = Counted::new(10.0, 1, 6);
    let (third, third_pulls, _) = Counted::new(100.0, 1, usize::MAX);
    let mut mixer = Mixer::new(1, 0.0f32, sum);
    mixer.add_source(boxed(first));
    mixer.add_source(boxed(second));
    mixer.add_source(boxed(third));
    let mut buffer = [0.0f32; 4];
    assert_eq!(mixer.write_samples(&mut buffer), 4);
    assert_eq!(buffer, [111.0; 4]);
    // The second child comes back short on its second pull; what it wrote is still mixed.
    assert_eq!(mixer.write_samples(&mut buffer), 4);
    assert_eq!(buffer, [111.0, 111.0, 101.0, 101.0]);
    let (fourth, fourth_pulls, _) = Counted::new(1000.0, 1, usize::MAX);
    mixer.add_source(boxed(fourth));
    for _ in 0..3 {
        assert_eq!(mixer.write_samples(&mut buffer), 4);
        assert_eq!(buffer, [1101.0; 4]);
    }
    assert_eq!(first_pulls.load(Ordering::SeqCst), 5);
    assert_eq!(second_pulls.load(Ordering::SeqCst), 2);
    assert_eq!(third_pulls.load(Ordering::SeqCst), 5);
    assert_eq!(fourth_pulls.load(Ordering::SeqCst), 3);
}

/// A source of any kind as a producer, so that one mixer can hold children
/// of different kinds.
struct Plain<S>(S);

impl<S: Source<f32>> Producer<f32> for Plain<S> {
    fn write_samples(&mut self, buffer: &mut [f32]) -> usize {
        self.0.write_samples(buffer)
    }

    fn channel_count(&self) -> usize {
        self.0.channel_count()
    }
}

type Boxed = Guarded<f32, Box<dyn Producer<f32>>>;

fn boxed(source: Counted) -> Boxed {
    let producer: Box<dyn Producer<f32>> = Box::new(source);
    Guarded::new(producer).unwrap()
}

fn boxed_source<S: Source<f32> + 'static>(source: S) -> Boxed {
    let producer: Box<dyn Producer<f32>> = Box::new(Plain(source));
    Guarded::new(producer).unwrap()
}

#[test]
fn an_underfilled_source_never_comes_back() {
    let (short, pulls, _) = Counted::new(5.0, 2, 3);
    let mut mixer = Mixer::new(2, 0.0f32, sum);
    mixer.add_source(Guarded::new(short).unwrap());
    let mut buffer = [0.0f32; 4];
    assert_eq!(mixer.write_samples(&mut buffer), 4);
    assert_eq!(buffer, [5.0, 5.0, 5.0, 0.0]);
    for _ in 0..5 {
        assert_eq!(mixer.write_samples(&mut buffer), 4);
        assert_eq!(buffer, [0.0; 4]);
    }
    assert_eq!(pulls.load(Ordering::SeqCst), 1);
}

#[test]
fn a_mixer_without_children_plays_silence() {
    let mut mixer = Mixer::<f32, Player<f32>, _>::new(2, 0.0f32, sum);
    let mut buffer = [3.0f32; 6];
    assert_eq!(mixer.write_samples(&mut buffer), 6);
    assert_eq!(buffer, [0.0; 6]);
    let mut none: [f32; 0] = [];
    assert_eq!(mixer.write_samples(&mut none), 0);
}

#[test]
fn each_child_is_asked_for_the_buffers_frames() {
    let (mono, _, mono_asked) = Counted::new(1.0, 1, usize::MAX);
    let (stereo, _, stereo_asked) = Counted::new(1.0, 2, usize::MAX);
    let (wide, _, wide_asked) = Counted::new(1.0, 6, usize::MAX);
    let mut mixer = Mixer::new(2, 0.0f32, sum);
    mixer.add_source(Guarded::new(mono).unwrap());
    mixer.add_source(Guarded::new(stereo).unwrap());
    mixer.add_source(Guarded::new(wide).unwrap());
    let mut buffer = [0.0f32; 20];
    assert_eq!(mixer.write_samples(&mut buffer), 20);
    assert_eq!(mono_asked.load(Ordering::SeqCst), 10);
    assert_eq!(stereo_asked.load(Ordering::SeqCst), 20);
    assert_eq!(wide_asked.load(Ordering::SeqCst), 60);
}

#[test]
fn a_child_of_another_layout_adds_nothing() {
    let (wide, pulls, _) = Counted::new(9.0, 3, 9);
    let mut mixer = Mixer::new(2, 0.0f32, sum);
    mixer.add_source(boxed(wide));
    mixer.add_source(boxed_source(player(vec![1.0, 2.0, 3.0, 4.0, 5.0, 6.0, 7.0, 8.0], 2)));
    let mut buffer = [0.0f32; 4];
    assert_eq!(mixer.write_samples(&mut buffer), 4);
    assert_eq!(buffer, [1.0, 2.0, 3.0, 4.0]);
    // The second pull asks the wide child for six samples; it has three, and leaves.
    assert_eq!(mixer.write_samples(&mut buffer), 4);
    assert_eq!(buffer, [5.0, 6.0, 7.0, 8.0]);
    assert_eq!(mixer.write_samples(&mut buffer), 4);
    assert_eq!(buffer, [0.0; 4]);
    assert_eq!(pulls.load(Ordering::SeqCst), 2);
}

#[test]
fn a_mixer_is_a_source_for_another_mixer() {
    let mut inner = Mixer::new(1, 0.0f32, sum);
    inner.add_source(player(vec![1.0, 2.0, 3.0], 1));
    inner.add_source(player(vec![10.0, 20.0], 1));
    let mut outer = Mixer::new(2, 0.5f32, sum);
    outer.add_source(inner);
    let mut buffer = [0.0f32; 8];
    assert_eq!(outer.write_samples(&mut buffer), 8);
    assert_eq!(buffer, [11.5, 11.5, 22.5, 22.5, 3.5, 3.5, 0.5, 0.5]);
    assert_eq!(outer.write_samples(&mut buffer), 8);
    assert_eq!(buffer, [0.5; 8]);
}

#[test]
fn mixes_with_the_sum_it_is_given() {
    let mut mixer = Mixer::new(1, 0i32, |a: i32, b: i32| a.wrapping_add(b));
    mixer.add_source(Player::new(vec![i32::MAX, 5], 1));
    mixer.add_source(Player::new(vec![1, -7], 1));
    let mut buffer = [0i32; 2];
    assert_eq!(mixer.write_samples(&mut buffer), 2);
    assert_eq!(buffer, [i32::MIN, -2]);
}

#[test]
fn accumulate_adds_the_same_layout_sample_by_sample() {
    let mut output = [1.0f32, 2.0, 3.0, 4.0];
    accumulate(&sum, &mut output, &[10.0, 20.0, 30.0, 40.0], 3, 2, 2);
    assert_eq!(output, [11.0, 22.0, 33.0, 4.0]);
}

#[test]
fn accumulate_spreads_mono_over_the_frame() {
    let mut output = [1.0f32, 2.0, 3.0, 4.0, 5.0, 6.0];
    accumulate(&sum, &mut output, &[10.0, 20.0, 30.0], 2, 1, 3);
    assert_eq!(output, [11.0, 12.0, 13.0, 24.0, 25.0, 26.0]);
}

#[test]
fn accumulate_stops_at_the_end_of_the_output() {
    let mut output = [1.0f32, 2.0, 3.0];
    accumulate(&sum, &mut output, &[10.0, 20.0, 30.0, 40.0], 4, 2, 2);
    assert_eq!(output, [11.0, 22.0, 33.0]);
    let mut output = [1.0f32, 2.0, 3.0];
    accumulate(&sum, &mut output, &[10.0, 20.0, 30.0], 3, 1, 2);
    assert_eq!(output, [11.0, 12.0, 23.0]);
}

#[test]
fn accumulate_leaves_the_output_for_other_layouts() {
    let mut output = [1.0f32, 2.0, 3.0, 4.0];
    accumulate(&sum, &mut output, &[10.0, 20.0, 30.0, 40.0, 50.0, 60.0], 6, 3, 2);
    assert_eq!(output, [1.0, 2.0, 3.0, 4.0]);
}

/// A producer that breaks every rule: it claims more than the buffer holds,
/// and has more to say after it came back short.
struct Unruly {
    pulls: usize,
}

impl Producer<f32> for Unruly {
    fn write_samples(&mut self, buffer: &mut [f32]) -> usize {
        self.pulls += 1;
        for sample in buffer.iter_mut() {
            *sample = self.pulls as f32;
        }
        match self.pulls {
            1 => buffer.len() + 5,
            2 => 1,
            _ => buffer.len(),
        }
    }

    fn channel_count(&self) -> usize {
        1
    }
}

#[test]
fn a_guard_holds_a_producer_to_the_contract() {
    let mut source = Guarded::new(Unruly { pulls: 0 }).unwrap();
    assert_eq!(source.channel_count(), 1);
    let mut buffer = [0.0f32; 3];
    assert_eq!(source.write_samples(&mut buffer), 3);
    assert_eq!(buffer, [1.0, 1.0, 1.0]);
    assert_eq!(source.write_samples(&mut buffer), 1);
    assert_eq!(buffer, [2.0, 1.0, 1.0]);
    for _ in 0..3 {
        assert_eq!(source.write_samples(&mut buffer), 0);
        assert_eq!(buffer, [2.0, 1.0, 1.0]);
    }
}

#[test]
fn a_guard_asks_for_the_channel_count_once() {
    let (source, _, _) = Counted::new(1.0, 4, 8);
    let source = Guarded::new(source).unwrap();
    assert_eq!(source.channel_count(), 4);
}

#[test]
fn a_producer_without_channels_is_not_a_source() {
    let (source, _, _) = Counted::new(1.0, 0, 8);
    assert!(Guarded::new(source).is_none());
}

#[test]
fn deliver_hands_on_no_more_than_fits() {
    let mut buffer = [0.0f32; 4];
    assert_eq!(deliver(&mut buffer, &[1.0, 2.0, 3.0, 4.0], 2), 2);
    assert_eq!(buffer, [1.0, 2.0, 0.0, 0.0]);
    assert_eq!(deliver(&mut buffer, &[5.0, 6.0, 7.0, 8.0], 9), 4);
    assert_eq!(buffer, [5.0, 6.0, 7.0, 8.0]);
    assert_eq!(deliver(&mut buffer, &[9.0], 3), 1);
    assert_eq!(buffer, [9.0, 6.0, 7.0, 8.0]);
    assert_eq!(deliver(&mut buffer, &[1.0, 1.0], 0), 0);
    assert_eq!(buffer, [9.0, 6.0, 7.0, 8.0]);
}

#[test]
fn a_guard_takes_the_channel_count_it_is_given() {
    let source = Guarded::with_channel_count(Unruly { pulls: 0 }, 3).unwrap();
    assert_eq!(source.channel_count(), 3);
    assert!(Guarded::with_channel_count(Unruly { pulls: 0 }, 0).is_none());
}

#[test]
fn a_guard_that_came_back_full_has_not_ended() {
    let (source, pulls, _) = Counted::new(2.0, 1, 4);
    let mut source = Guarded::new(source).unwrap();
    let mut buffer = [0.0f32; 4];
    assert_eq!(source.write_samples(&mut buffer), 4);
    // The producer is asked again: only a short pull ends a guard.
    assert_eq!(source.write_samples(&mut buffer), 0);
    assert_eq!(pulls.load(Ordering::SeqCst), 2);
    assert_eq!(source.write_samples(&mut buffer), 0);
    assert_eq!(pulls.load(Ordering::SeqCst), 2);
}

#[test]
fn three_players_and_a_latecomer() {
    let mut mixer = Mixer::new(1, 0.0f32, sum);
    mixer.add_source(player(vec![1.0; 6], 1));
    mixer.add_source(player(vec![10.0; 3], 1));
    mixer.add_source(player(vec![100.0; 6], 1));
    let mut buffer = [9.0f32; 2];
    assert_eq!(mixer.write_samples(&mut buffer), 2);
    assert_eq!(buffer, [111.0, 111.0]);
    buffer = [9.0; 2];
    assert_eq!(mixer.write_samples(&mut buffer), 2);
    assert_eq!(buffer, [111.0, 101.0]);
    mixer.add_source(player(vec![1000.0; 2], 1));
    buffer = [9.0; 2];
    assert_eq!(mixer.write_samples(&mut buffer), 2);
    assert_eq!(buffer, [1101.0, 1101.0]);
}
