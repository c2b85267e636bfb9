use sailfish::broker::Broker;
use sailfish::consumer::Consumer;
use sailfish::errors::BrokerError;
use sailfish::producer::Producer;
use sailfish::topic::Topic;

/// The full delivery scenario: create topic `orders`, write `hello`,
/// read it durably twice without acknowledging, acknowledge, and see the
/// stream end. The event id is exactly `"{post-read offset}-{segment}"`.
#[test]
fn orders_hello_scenario() {
    let mut b = Broker::new();
    Topic::new(&mut b, "orders".to_string()).unwrap();
    let p = Producer::new(&mut b, "orders".to_string()).unwrap();
    let c = Consumer::new(&mut b, "orders".to_string()).unwrap();
    let ptoken = p.assemble_token();
    let ctoken = c.assemble_token();

    let p = Producer::hydrate(&b, &ptoken).unwrap();
    p.write(&mut b, &b"hello".to_vec()).unwrap();

    // durable read: the cursor is not persisted
    let mut c = Consumer::hydrate(&b, &ctoken).unwrap();
    let ev = c.read(&mut b, false).unwrap();
    assert_eq!(ev.content, b"hello".to_vec());
    assert_eq!(ev.eid, "13-0");

    // reading again without acknowledging redelivers the same event
    let mut c = Consumer::hydrate(&b, &ctoken).unwrap();
    let ev2 = c.read(&mut b, false).unwrap();
    assert_eq!(ev2.content, b"hello".to_vec());
    assert_eq!(ev2.eid, "13-0");

    // acknowledge, then the stream is exhausted
    let mut c = Consumer::hydrate(&b, &ctoken).unwrap();
    c.bump(&mut b, "13-0").unwrap();
    let mut c = Consumer::hydrate(&b, &ctoken).unwrap();
    assert_eq!(c.read(&mut b, false).unwrap_err(), BrokerError::NoMoreEvents);
}

/// A payload is returned byte for byte, including bytes that are not
/// valid UTF-8.
#[test]
fn round_trip_binary_payload() {
    let mut b = Broker::new();
    Topic::new(&mut b, "bin".to_string()).unwrap();
    let p = Producer::new(&mut b, "bin".to_string()).unwrap();
    let c = Consumer::new(&mut b, "bin".to_string()).unwrap();
    let payload: Vec<u8> = vec![0, 159, 146, 150, 255, 0];
    p.write(&mut b, &payload).unwrap();
    let mut c2 = Consumer::hydrate(&b, &c.assemble_token()).unwrap();
    let ev = c2.read(&mut b, false).unwrap();
    assert_eq!(ev.content, payload);
}

/// An empty payload is a legal event: eight header bytes, nothing more.
#[test]
fn round_trip_empty_payload() {
    let mut b = Broker::new();
    Topic::new(&mut b, "e".to_string()).unwrap();
    let p = Producer::new(&mut b, "e".to_string()).unwrap();
    let c = Consumer::new(&mut b, "e".to_string()).unwrap();
    p.write(&mut b, &Vec::new()).unwrap();
    let mut c2 = Consumer::hydrate(&b, &c.assemble_token()).unwrap();
    let ev = c2.read(&mut b, false).unwrap();
    assert_eq!(ev.content, Vec::<u8>::new());
    assert_eq!(ev.eid, "8-0");
}

/// Lossy mode commits the cursor on every read: the same event is never
/// delivered twice.
#[test]
fn lossy_mode_advances_immediately() {
    let mut b = Broker::new();
    Topic::new(&mut b, "lossy".to_string()).unwrap();
    let p = Producer::new(&mut b, "lossy".to_string()).unwrap();
    let c = Consumer::new(&mut b, "lossy".to_string()).unwrap();
    let ctoken = c.assemble_token();
    p.write(&mut b, &b"one".to_vec()).unwrap();
    p.write(&mut b, &b"two".to_vec()).unwrap();

    let mut c1 = Consumer::hydrate(&b, &ctoken).unwrap();
    assert_eq!(c1.read(&mut b, true).unwrap().content, b"one".to_vec());
    let mut c2 = Consumer::hydrate(&b, &ctoken).unwrap();
    assert_eq!(c2.read(&mut b, true).unwrap().content, b"two".to_vec());
    let mut c3 = Consumer::hydrate(&b, &ctoken).unwrap();
    assert_eq!(c3.read(&mut b, true).unwrap_err(), BrokerError::NoMoreEvents);
}

/// Events written before and after a segment rotation are read back in
/// order across the boundary, with no gap and no duplicate.
#[test]
fn rotation_preserves_order_across_boundary() {
    let mut b = Broker::new();
    Topic::new(&mut b, "rot".to_string()).unwrap();
    let p = Producer::new(&mut b, "rot".to_string()).unwrap();
    let c = Consumer::new(&mut b, "rot".to_string()).unwrap();
    let ctoken = c.assemble_token();
    p.write(&mut b, &b"a".to_vec()).unwrap();

    // force the active segment forward, as a threshold crossing would
    let mut t = Topic::hydrate(&b, "rot").unwrap();
    t.bump(&mut b).unwrap();
    assert_eq!(t.curr_log_file, 1);
    p.write(&mut b, &b"c".to_vec()).unwrap();

    let mut c1 = Consumer::hydrate(&b, &ctoken).unwrap();
    assert_eq!(c1.read(&mut b, true).unwrap().content, b"a".to_vec());
    let mut c2 = Consumer::hydrate(&b, &ctoken).unwrap();
    let ev = c2.read(&mut b, true).unwrap();
    assert_eq!(ev.content, b"c".to_vec());
    assert_eq!(ev.eid, "9-1");
    let mut c3 = Consumer::hydrate(&b, &ctoken).unwrap();
    assert_eq!(c3.read(&mut b, true).unwrap_err(), BrokerError::NoMoreEvents);
}

/// Registry offsets are byte addresses: the second consumer record of a
/// six-byte topic name starts at 36 + 8 + 6 + 16 = 66.
#[test]
fn registry_offsets_are_byte_addresses() {
    let mut b = Broker::new();
    Topic::new(&mut b, "orders".to_string()).unwrap();
    let c1 = Consumer::new(&mut b, "orders".to_string()).unwrap();
    let c2 = Consumer::new(&mut b, "orders".to_string()).unwrap();
    assert_eq!(c1.offset, 0);
    assert_eq!(c2.offset, 66);
    let token = c2.assemble_token();
    assert!(token.starts_with("66-"));
    assert_eq!(token.len(), 3 + 36);
}
