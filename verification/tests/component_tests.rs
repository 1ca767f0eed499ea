use hyperzen::component::{DeletBool, Life, PhysicBody, PhysicSensor, Proximitor};
use hyperzen::audio::{Sound, SoundBuffer};

#[test]
fn kill_keeps_the_kind() {
    let mut l = Life::DrawAlive;
    l.kill();
    assert_eq!(l, Life::DrawDead);
    l.kill();
    assert_eq!(l, Life::DrawDead);
    let mut e = Life::EraserAlive;
    e.kill();
    assert_eq!(e, Life::EraserDead);
    let mut d = Life::EraserDead;
    d.kill();
    assert_eq!(d, Life::EraserDead);
}

#[test]
fn remove_a_body_once() {
    let mut b = PhysicBody::new(7);
    assert!(!b.removed());
    assert_eq!(b.remove(), 7);
    assert!(b.removed());
    assert_eq!(b.handle(), 7);
    let mut s = PhysicSensor::new(3);
    assert_eq!(s.remove(), 3);
    assert!(s.removed());
}

#[test]
fn new_components() {
    assert!(Proximitor::new().intersections.is_empty());
    assert!(DeletBool::new().0);
}

#[test]
fn sound_buffers_need_44100_hz_stereo() {
    assert_eq!(SoundBuffer::new(22050, 2, vec![]).err(), Some(String::from("invalid samples rate: must be 44100 Hz")));
    assert_eq!(SoundBuffer::new(44100, 1, vec![]).err(), Some(String::from("invalid channels: must be stereo")));
    assert_eq!(SoundBuffer::new(22050, 1, vec![]).err(), Some(String::from("invalid samples rate: must be 44100 Hz")));
    assert!(SoundBuffer::new(44100, 2, vec![1, 2]).is_ok());
}

#[test]
fn a_source_plays_once() {
    let b = SoundBuffer::new(44100, 2, vec![5, 6, 7]).ok().unwrap();
    let mut s = b.source();
    assert_eq!(s.next(), Some(5));
    assert_eq!(s.next(), Some(6));
    assert_eq!(s.next(), Some(7));
    assert_eq!(s.next(), None);
    assert_eq!(s.next(), None);
}

#[test]
fn an_infinite_source_loops() {
    let b = SoundBuffer::new(44100, 2, vec![5, 6, 7]).ok().unwrap();
    let mut s = b.infinite_source();
    let played: Vec<Option<i16>> = (0..7).map(|_| s.next()).collect();
    assert_eq!(played, vec![Some(5), Some(6), Some(7), Some(5), Some(6), Some(7), Some(5)]);
    let mut again = b.source();
    assert_eq!(again.next(), Some(5));
}

#[test]
fn sound_slots() {
    assert_eq!(Sound::Shoot.index(), 0);
    assert_eq!(Sound::Eraser.index(), 8);
    assert_eq!(Sound::Attracted.index(), 9);
}

#[test]
fn the_kth_sample_of_a_loop() {
    let samples = vec![3i16, -4, 9, 11];
    let b = SoundBuffer::new(44100, 2, samples.clone()).ok().unwrap();
    let mut s = b.infinite_source();
    for k in 0..23 {
        assert_eq!(s.next(), Some(samples[k % samples.len()]));
    }
}
