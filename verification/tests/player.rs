use boop::{Player, Source};

fn player(samples: &[f32], channels: usize) -> Player<f32> {
    Player::new(samples.to_vec(), channels)
}

#[test]
fn plays_its_samples_in_order() {
    let mut source = player(&[0.1, 0.2, 0.3, 0.4, 0.5, 0.6], 2);
    assert_eq!(source.channel_count(), 2);
    let mut buffer = [0.0f32; 4];
    assert_eq!(source.write_samples(&mut buffer), 4);
    assert_eq!(buffer, [0.1, 0.2, 0.3, 0.4]);
    assert_eq!(source.write_samples(&mut buffer), 2);
    assert_eq!(buffer, [0.5, 0.6, 0.3, 0.4]);
}

#[test]
fn stays_empty_once_it_came_back_short() {
    let mut source = player(&[1.0, 2.0, 3.0], 1);
    let mut buffer = [9.0f32; 2];
    assert_eq!(source.write_samples(&mut buffer), 2);
    assert_eq!(source.write_samples(&mut buffer), 1);
    assert_eq!(buffer, [3.0, 2.0]);
    for _ in 0..4 {
        assert_eq!(source.write_samples(&mut buffer), 0);
        assert_eq!(buffer, [3.0, 2.0]);
    }
}

#[test]
fn never_writes_more_than_the_buffer_holds() {
    let samples: Vec<f32> = (0..100).map(|i| i as f32).collect();
    let mut source = player(&samples, 1);
    let mut written = 0;
    for len in [0usize, 1, 7, 30, 60, 60] {
        let mut buffer = vec![-1.0f32; len];
        let count = source.write_samples(&mut buffer);
        assert!(count <= len);
        for (at, value) in buffer.iter().enumerate() {
            if at < count {
                assert_eq!(*value, (written + at) as f32);
            } else {
                assert_eq!(*value, -1.0);
            }
        }
        written += count;
    }
    assert_eq!(written, 100);
}

#[test]
fn an_empty_player_is_exhausted() {
    let mut source = player(&[], 2);
    let mut buffer = [5.0f32; 2];
    assert_eq!(source.write_samples(&mut buffer), 0);
    assert_eq!(buffer, [5.0, 5.0]);
}

#[test]
fn plays_any_sample_type() {
    let mut source: Player<i16> = Player::new(vec![1i16, -2, 3], 1);
    let mut buffer = [0i16; 3];
    assert_eq!(source.write_samples(&mut buffer), 3);
    assert_eq!(buffer, [1, -2, 3]);
}
