use sailfish::broker::Broker;
use sailfish::consumer::Consumer;
use sailfish::errors::BrokerError;
use sailfish::producer::Producer;
use sailfish::topic::Topic;

/// Retention: with live consumers committed at segments 2 and 5 of the
/// same topic, cleanup moves the floor to 2 and deletes only segments
/// below it.
#[test]
fn cleanup_uses_minimum_live_cursor() {
    let mut b = Broker::new();
    Topic::new(&mut b, "r".to_string()).unwrap();
    let mut t = Topic::hydrate(&b, "r").unwrap();
    for _ in 0..5 {
        t.bump(&mut b).unwrap();
    }
    assert_eq!(t.curr_log_file, 5);

    let mut c1 = Consumer::new(&mut b, "r".to_string()).unwrap();
    let mut c2 = Consumer::new(&mut b, "r".to_string()).unwrap();
    c1.bump(&mut b, "0-2").unwrap();
    c2.bump(&mut b, "0-5").unwrap();

    let mut t = Topic::hydrate(&b, "r").unwrap();
    t.cleanup(&mut b).unwrap();
    assert_eq!(t.first_log_file, 2);
    assert_eq!(t.curr_log_file, 5);
    let t2 = Topic::hydrate(&b, "r").unwrap();
    assert_eq!(t2.first_log_file, 2);

    // a cursor below the floor now points at a deleted segment file
    let mut c0 = Consumer::hydrate(&b, &c1.assemble_token()).unwrap();
    c0.log_file = 0;
    c0.log_offset = 0;
    assert_eq!(c0.read(&mut b, false).unwrap_err(), BrokerError::IoFailure);
}

/// A tombstoned consumer no longer holds segments back.
#[test]
fn cleanup_ignores_dead_consumers() {
    let mut b = Broker::new();
    Topic::new(&mut b, "r".to_string()).unwrap();
    let mut t = Topic::hydrate(&b, "r").unwrap();
    for _ in 0..3 {
        t.bump(&mut b).unwrap();
    }
    let mut c1 = Consumer::new(&mut b, "r".to_string()).unwrap();
    let mut c2 = Consumer::new(&mut b, "r".to_string()).unwrap();
    c1.bump(&mut b, "0-1").unwrap();
    c2.bump(&mut b, "0-3").unwrap();
    c1.delete(&mut b).unwrap();

    let mut t = Topic::hydrate(&b, "r").unwrap();
    t.cleanup(&mut b).unwrap();
    assert_eq!(t.first_log_file, 3);
}

/// With no live consumer at all the floor stays where it was.
#[test]
fn cleanup_without_consumers_keeps_floor() {
    let mut b = Broker::new();
    Topic::new(&mut b, "r".to_string()).unwrap();
    b.create_consumer_file();
    let mut t = Topic::hydrate(&b, "r").unwrap();
    t.bump(&mut b).unwrap();
    let mut t = Topic::hydrate(&b, "r").unwrap();
    t.cleanup(&mut b).unwrap();
    assert_eq!(t.first_log_file, 0);
    assert_eq!(t.curr_log_file, 1);
}

/// Retention does not disturb the events that remain: a consumer at the
/// floor keeps reading exactly what was written there.
#[test]
fn cleanup_keeps_remaining_events_readable() {
    let mut b = Broker::new();
    Topic::new(&mut b, "keep".to_string()).unwrap();
    let p = Producer::new(&mut b, "keep".to_string()).unwrap();
    let mut t = Topic::hydrate(&b, "keep").unwrap();
    t.bump(&mut b).unwrap();
    p.write(&mut b, &b"alive".to_vec()).unwrap();

    let mut c = Consumer::new(&mut b, "keep".to_string()).unwrap();
    c.bump(&mut b, "0-1").unwrap();

    let mut t = Topic::hydrate(&b, "keep").unwrap();
    t.cleanup(&mut b).unwrap();
    assert_eq!(t.first_log_file, 1);

    let mut c = Consumer::hydrate(&b, &c.assemble_token()).unwrap();
    let ev = c.read(&mut b, false).unwrap();
    assert_eq!(ev.content, b"alive".to_vec());
    assert_eq!(ev.eid, "13-1");
}
