use durakv::{Error, Event, MemStream, Stream};

fn ev(ts: u64, data: &[u8]) -> Event<u64> {
    Event::new(ts, data.to_vec())
}

#[test]
fn read_returns_suffix_in_append_order() {
    let mut s = MemStream::<u64>::new();
    s.append_event(ev(1, b"one")).unwrap();
    s.append_event(ev(2, b"two")).unwrap();
    s.append_event(ev(3, b"three")).unwrap();
    let got = s.read_events(2).unwrap();
    assert_eq!(got.len(), 2);
    assert_eq!(got[0].ts, 2);
    assert_eq!(got[0].data, b"two".to_vec());
    assert_eq!(got[1].ts, 3);
    assert_eq!(got[1].data, b"three".to_vec());
}

#[test]
fn read_from_zero_returns_everything() {
    let mut s = MemStream::<u64>::new();
    s.append_event(ev(5, b"a")).unwrap();
    s.append_event(ev(7, b"b")).unwrap();
    let got = s.read_events(0).unwrap();
    assert_eq!(got.len(), 2);
    assert_eq!(got[0].ts, 5);
    assert_eq!(got[1].ts, 7);
}

#[test]
fn release_then_read_below_watermark_fails() {
    let mut s = MemStream::<u64>::new();
    s.append_event(ev(1, b"a")).unwrap();
    s.append_event(ev(2, b"b")).unwrap();
    let only_two = s.read_events(2).unwrap();
    assert_eq!(only_two.len(), 1);
    assert_eq!(only_two[0].ts, 2);
    assert_eq!(only_two[0].data, b"b".to_vec());
    s.release_events(2).unwrap();
    let below = s.read_events(1);
    assert!(matches!(below, Err(Error::NotFound(_))));
}

#[test]
fn release_keeps_events_at_or_after_watermark() {
    let mut s = MemStream::<u64>::new();
    s.append_event(ev(1, b"a")).unwrap();
    s.append_event(ev(2, b"b")).unwrap();
    s.release_events(2).unwrap();
    let got = s.read_events(2).unwrap();
    assert_eq!(got.len(), 1);
    assert_eq!(got[0].ts, 2);
}

#[test]
fn watermark_never_moves_backward() {
    let mut s = MemStream::<u64>::new();
    s.append_event(ev(6, b"x")).unwrap();
    s.release_events(5).unwrap();
    s.release_events(3).unwrap();
    assert!(s.read_events(4).is_err());
    let got = s.read_events(5).unwrap();
    assert_eq!(got.len(), 1);
    assert_eq!(got[0].ts, 6);
}

#[test]
fn equal_timestamps_are_kept_in_order() {
    let mut s = MemStream::<u64>::new();
    s.append_event(ev(4, b"first")).unwrap();
    s.append_event(ev(4, b"second")).unwrap();
    let got = s.read_events(4).unwrap();
    assert_eq!(got.len(), 2);
    assert_eq!(got[0].data, b"first".to_vec());
    assert_eq!(got[1].data, b"second".to_vec());
}
