use sailfish::broker::Broker;
use sailfish::consumer::{Consumer, list_consumers};
use sailfish::errors::BrokerError;
use sailfish::keys::generate_key;
use sailfish::producer::{Producer, list_producers};
use sailfish::topic::{Topic, list_topics};

#[test]
fn generated_keys_are_36_chars_without_nul() {
    let k = generate_key();
    assert_eq!(k.len(), 36);
    assert!(k.chars().all(|c| c != '\u{0}'));
    assert!(k.is_ascii());
}

#[test]
fn topic_names_are_case_folded() {
    let mut b = Broker::new();
    let t = Topic::new(&mut b, "OrDeRs".to_string()).unwrap();
    assert_eq!(t.name, "orders");
    assert!(b.topic_exists("orders"));
    assert!(!b.topic_exists("OrDeRs"));
}

#[test]
fn topic_name_with_space_is_rejected() {
    let mut b = Broker::new();
    let r = Topic::new(&mut b, "bad name".to_string());
    assert_eq!(r.unwrap_err(), BrokerError::InvalidName);
}

#[test]
fn duplicate_topic_is_rejected() {
    let mut b = Broker::new();
    Topic::new(&mut b, "twice".to_string()).unwrap();
    let r = Topic::new(&mut b, "TWICE".to_string());
    assert_eq!(r.unwrap_err(), BrokerError::TopicExists);
}

#[test]
fn producer_needs_existing_topic() {
    let mut b = Broker::new();
    let r = Producer::new(&mut b, "ghost".to_string());
    assert_eq!(r.unwrap_err(), BrokerError::UnknownTopic);
}

#[test]
fn consumer_needs_existing_topic() {
    let mut b = Broker::new();
    let r = Consumer::new(&mut b, "ghost".to_string());
    assert_eq!(r.unwrap_err(), BrokerError::UnknownTopic);
}

#[test]
fn malformed_tokens_are_invalid() {
    let mut b = Broker::new();
    Topic::new(&mut b, "t".to_string()).unwrap();
    Producer::new(&mut b, "t".to_string()).unwrap();
    assert_eq!(Producer::hydrate(&b, "garbage").unwrap_err(), BrokerError::InvalidToken);
    assert_eq!(Producer::hydrate(&b, "-abc").unwrap_err(), BrokerError::InvalidToken);
    assert_eq!(Producer::hydrate(&b, "12-").unwrap_err(), BrokerError::InvalidToken);
}

#[test]
fn wrong_key_is_unauthorized() {
    let mut b = Broker::new();
    Topic::new(&mut b, "t".to_string()).unwrap();
    let p = Producer::new(&mut b, "t".to_string()).unwrap();
    let forged = format!("{}-{}", p.offset, "000000000000000000000000000000000000");
    assert_eq!(Producer::hydrate(&b, &forged).unwrap_err(), BrokerError::Unauthorized);
}

#[test]
fn offset_past_registry_is_corrupt() {
    let mut b = Broker::new();
    Topic::new(&mut b, "t".to_string()).unwrap();
    Producer::new(&mut b, "t".to_string()).unwrap();
    let r = Producer::hydrate(&b, "999999-000000000000000000000000000000000000");
    assert_eq!(r.unwrap_err(), BrokerError::CorruptRecord);
}

#[test]
fn hydrate_without_registry_file_fails() {
    let b = Broker::new();
    let r = Consumer::hydrate(&b, "0-000000000000000000000000000000000000");
    assert_eq!(r.unwrap_err(), BrokerError::IoFailure);
}

#[test]
fn deleted_producer_token_stays_unauthorized() {
    let mut b = Broker::new();
    Topic::new(&mut b, "t".to_string()).unwrap();
    let p = Producer::new(&mut b, "t".to_string()).unwrap();
    let token = p.assemble_token();
    p.delete(&mut b).unwrap();
    assert_eq!(Producer::hydrate(&b, &token).unwrap_err(), BrokerError::Unauthorized);
    // resubmitting changes nothing: the record's key is zeroed for good
    assert_eq!(Producer::hydrate(&b, &token).unwrap_err(), BrokerError::Unauthorized);
}

#[test]
fn deleted_consumer_token_stays_unauthorized() {
    let mut b = Broker::new();
    Topic::new(&mut b, "t".to_string()).unwrap();
    let c = Consumer::new(&mut b, "t".to_string()).unwrap();
    let token = c.assemble_token();
    c.delete(&mut b).unwrap();
    assert_eq!(Consumer::hydrate(&b, &token).unwrap_err(), BrokerError::Unauthorized);
}

#[test]
fn reroll_replaces_the_key() {
    let mut b = Broker::new();
    Topic::new(&mut b, "t".to_string()).unwrap();
    let mut p = Producer::new(&mut b, "t".to_string()).unwrap();
    let old_token = p.assemble_token();
    p.reroll(&mut b).unwrap();
    let new_token = p.assemble_token();
    assert_ne!(old_token, new_token);
    assert_eq!(Producer::hydrate(&b, &old_token).unwrap_err(), BrokerError::Unauthorized);
    assert!(Producer::hydrate(&b, &new_token).is_ok());
}

#[test]
fn consumer_reroll_keeps_cursor() {
    let mut b = Broker::new();
    Topic::new(&mut b, "t".to_string()).unwrap();
    let p = Producer::new(&mut b, "t".to_string()).unwrap();
    p.write(&mut b, &b"x".to_vec()).unwrap();
    let mut c = Consumer::new(&mut b, "t".to_string()).unwrap();
    c.bump(&mut b, "9-0").unwrap();
    c.reroll(&mut b).unwrap();
    let c2 = Consumer::hydrate(&b, &c.assemble_token()).unwrap();
    assert_eq!(c2.log_offset, 9);
    assert_eq!(c2.log_file, 0);
}

#[test]
fn topic_delete_removes_it() {
    let mut b = Broker::new();
    Topic::new(&mut b, "gone".to_string()).unwrap();
    let p = Producer::new(&mut b, "gone".to_string()).unwrap();
    let t = Topic::hydrate(&b, "gone").unwrap();
    t.delete(&mut b).unwrap();
    assert!(!b.topic_exists("gone"));
    assert!(Topic::hydrate(&b, "gone").is_err());
    assert_eq!(p.write(&mut b, &b"x".to_vec()).unwrap_err(), BrokerError::UnknownTopic);
}

#[test]
fn listing_shows_live_entities_only() {
    let mut b = Broker::new();
    Topic::new(&mut b, "a".to_string()).unwrap();
    Topic::new(&mut b, "b".to_string()).unwrap();
    let ts = list_topics(&b).unwrap();
    assert_eq!(ts.len(), 2);
    assert_eq!(ts[0].name, "a");
    assert_eq!(ts[1].name, "b");

    let p1 = Producer::new(&mut b, "a".to_string()).unwrap();
    let p2 = Producer::new(&mut b, "b".to_string()).unwrap();
    p1.delete(&mut b).unwrap();
    let ps = list_producers(&b).unwrap();
    assert_eq!(ps.len(), 1);
    assert_eq!(ps[0].offset, p2.offset);
    assert_eq!(ps[0].topic, "b");

    let c1 = Consumer::new(&mut b, "a".to_string()).unwrap();
    let cs = list_consumers(&b).unwrap();
    assert_eq!(cs.len(), 1);
    assert_eq!(cs[0].offset, c1.offset);
    assert_eq!(cs[0].topic, "a");
    assert_eq!(cs[0].log_file, 0);
    assert_eq!(cs[0].log_offset, 0);
}

#[test]
fn registry_file_flags() {
    let mut b = Broker::new();
    assert!(!b.consumers_exists());
    assert!(!b.producers_exists());
    b.create_consumer_file();
    assert!(b.consumers_exists());
    b.create_producers_file();
    assert!(b.producers_exists());
}
