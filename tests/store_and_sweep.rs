use spatial_led::{Data, DataWrapper, Point, SledError, Sweep};

#[test]
fn data_round_trip_and_kinds() {
    let mut data = Data::new();
    assert!(data.empty_at("abc"));
    data.set("abc", 123i64);
    assert!(!data.empty_at("abc"));
    assert_eq!(data.get::<i64>("abc"), Ok(&123));
    assert_eq!(data.get::<bool>("abc").err(), Some(SledError::WrongDataKind));
    assert_eq!(data.get::<i64>("cba").err(), Some(SledError::NoDataAtKey));
    data.set("abc", true);
    assert_eq!(data.get::<bool>("abc"), Ok(&true));
    assert_eq!(data.get::<i64>("abc").err(), Some(SledError::WrongDataKind));
    data.set("pos", Point::new(3, 4));
    data.set("name", String::from("trail"));
    data.set("list", vec![1usize, 2, 3]);
    assert_eq!(data.get::<Point>("pos"), Ok(&Point::new(3, 4)));
    assert_eq!(data.get::<String>("name").unwrap(), "trail");
    assert_eq!(data.get::<Vec<usize>>("list").unwrap(), &vec![1, 2, 3]);
    assert_eq!(data.get::<bool>("abc"), Ok(&true));
}

#[test]
fn data_get_mut_changes_in_place() {
    let mut data = Data::new();
    data.set("count", 1u64);
    data.set("other", 5i64);
    *data.get_mut::<u64>("count").unwrap() += 41;
    assert_eq!(data.get::<u64>("count"), Ok(&42));
    assert_eq!(data.get_mut::<bool>("count").err(), Some(SledError::WrongDataKind));
    assert_eq!(data.get_mut::<u64>("none").err(), Some(SledError::NoDataAtKey));
    assert_eq!(data.get::<u64>("count"), Ok(&42));
    assert_eq!(data.get::<i64>("other"), Ok(&5));
}

#[test]
fn data_store_hands_back_the_value() {
    let mut data = Data::new();
    data.set("keep", 7usize);
    let v = data.store("trail", vec![1usize]);
    v.push(2);
    assert_eq!(data.get::<Vec<usize>>("trail").unwrap(), &vec![1, 2]);
    let b = data.store("trail", false);
    *b = true;
    assert_eq!(data.get::<bool>("trail"), Ok(&true));
    assert_eq!(data.get::<usize>("keep"), Ok(&7));
}

#[test]
fn data_wrapper_holds_its_value() {
    let w = DataWrapper::new(42u64);
    assert_eq!(w.0, 42);
}

#[test]
fn sweep_frames_and_fading() {
    let mut s = Sweep::new();
    assert!(!s.is_stopped());
    assert!(!s.frame_due(2499, 0));
    assert!(s.frame_due(2500, 0));
    assert!(!s.frame_due(100, 200));
    assert_eq!(Sweep::fade_channel(0), 0);
    assert_eq!(Sweep::fade_channel(1), 0);
    assert_eq!(Sweep::fade_channel(255), 254);
    assert_eq!(Sweep::fade((0, 255, 10)), (0, 254, 9));
    // a thousandth darker, rounded down, for every channel value
    for c in 0..=255u8 {
        assert_eq!(Sweep::fade_channel(c), (c as f32 * 0.999) as u8);
    }
    s.stop();
    assert!(s.is_stopped());
    assert!(!s.frame_due(10_000, 0));
}
