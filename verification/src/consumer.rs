//! Consumers: read capabilities bound to one topic, carrying a persisted
//! cursor (segment id, byte offset) through the consumers registry.

use vstd::prelude::*;
use vstd::string::StrSliceExecFns;
use vstd::utf8::{encode_utf8, valid_utf8};
use crate::broker::{Broker, consumer_shape, mk_topic_shape, mk_consumer_shape,
    spec_log_index, lemma_log_index_props, lemma_lookup_align, topic_entry_wf};
use crate::errors::BrokerError;
use crate::event::Event;
use crate::keys::{generate_key, key_valid, lemma_key_bytes};
use crate::names::{lowercase, lower_of, bytes_to_string};
use crate::registry::{Record, RecView, records_opt, recs, rec_index, zero_key, rec_wf,
    read_record_at, write_record_at, append_record, tombstone_record, find_by_name, bytes_eq,
    live_entries, is_live, parse_from, dec_at, lemma_dec_at_wf,
    decode_here, rec_size, start_of, make_zero_key, lemma_parse_from_wf};
use crate::segment::{spec_read_event, read_event_at};
use crate::token::{spec_parse_token, spec_token, spec_event_id, spec_parse_event_id, parse_token,
    assemble_token, assemble_event_id, parse_event_id};
use crate::topic::Topic;

verus! {

/// What one read attempt does, decided by the broker state and the
/// consumer's cursor alone: it mirrors the positioned read with a single
/// segment-rollover step.
pub enum ReadStep {
    /// The topic's log directory is gone.
    UnknownTopic,
    /// The cursor's segment file (after any rollover) does not exist.
    MissingSeg { f2: u64, off2: u64 },
    /// The cursor sits at the end of the active segment: end of stream.
    NoMore,
    /// The cursor cannot advance past the last segment id.
    Overflow,
    /// The bytes at the cursor do not decode as an event record.
    Corrupt { f2: u64, off2: u64 },
    /// An event is delivered; `(f2, off2)` is the post-read cursor.
    Event { payload: Seq<u8>, f2: u64, off2: u64 },
}

/// The outcome of reading at cursor `(f, off)` of `topic`, before any
/// cursor persistence.
pub open spec fn spec_read_step(b: Broker, topic: Seq<char>, f: u64, off: u64) -> ReadStep {
    let li = spec_log_index(b.logs@, topic);
    if li < 0 {
        ReadStep::UnknownTopic
    } else {
        let lg = b.logs@[li];
        if f < lg.base || f - lg.base >= lg.segs@.len() {
            ReadStep::MissingSeg { f2: f, off2: off }
        } else {
            let seg = lg.segs@[f - lg.base]@;
            if off == seg.len() {
                let curr = b.topic_recs()[li].trailing[1];
                if curr != f {
                    if f == u64::MAX {
                        ReadStep::Overflow
                    } else if f + 1 < lg.base || f + 1 - lg.base >= lg.segs@.len() {
                        ReadStep::MissingSeg { f2: (f + 1) as u64, off2: 0 }
                    } else {
                        let seg2 = lg.segs@[f + 1 - lg.base]@;
                        match spec_read_event(seg2, 0) {
                            None => ReadStep::Corrupt { f2: (f + 1) as u64, off2: 0 },
                            Some((p, c)) => ReadStep::Event {
                                payload: p,
                                f2: (f + 1) as u64,
                                off2: c as u64,
                            },
                        }
                    }
                } else {
                    ReadStep::NoMore
                }
            } else {
                match spec_read_event(seg, off as int) {
                    None => ReadStep::Corrupt { f2: f, off2: off },
                    Some((p, c)) => ReadStep::Event { payload: p, f2: f, off2: (off + c) as u64 },
                }
            }
        }
    }
}

/// A consumer handle: the fields of one consumers-registry record.
#[derive(Debug)]
pub struct Consumer {
    pub topic: String,
    pub log_file: u64,
    pub log_offset: u64,
    pub offset: u64,
    pub key: String,
}

impl Consumer {
    /// The bearer token for this consumer: `"{offset}-{key}"`.
    pub fn assemble_token(&self) -> (r: String)
        ensures
            r@ == spec_token(self.offset, self.key@),
    {
        assemble_token(self.offset, self.key.as_str())
    }

    /// Creates a consumer on an existing topic: case-folds the topic
    /// name, initializes the cursor to `{topic.first_log_file, 0}`, and
    /// appends the record, creating the registry file if absent.
    pub fn new(b: &mut Broker, topic: String) -> (r: Result<Consumer, BrokerError>)
        requires
            old(b).wf(),
        ensures
            final(b).wf(),
            ({
                let folded = lower_of(topic@);
                let li = spec_log_index(old(b).logs@, folded);
                match r {
                    Err(e) => {
                        &&& e == BrokerError::UnknownTopic
                        &&& li < 0
                        &&& *final(b) == *old(b)
                    },
                    Ok(c) => {
                        &&& li >= 0
                        &&& c.topic@ == folded
                        &&& key_valid(c.key@)
                        &&& c.log_file == old(b).topic_recs()[li].trailing[0]
                        &&& c.log_offset == 0
                        &&& c.offset as int == (if old(b).consumers is Some {
                            old(b).consumers->Some_0@.len() as int
                        } else {
                            0
                        })
                        &&& final(b).consumers is Some
                        &&& final(b).consumer_recs() == (if old(b).consumers is Some {
                            old(b).consumer_recs()
                        } else {
                            Seq::<RecView>::empty()
                        }).push(
                            RecView {
                                key: encode_utf8(c.key@),
                                name: encode_utf8(folded),
                                trailing: seq![c.log_file, 0u64],
                            },
                        )
                        &&& final(b).topics == old(b).topics
                        &&& final(b).producers == old(b).producers
                        &&& final(b).logs == old(b).logs
                    },
                }
            }),
    {
        let folded = lowercase(topic.as_str());
        let t = match Topic::hydrate(b, folded.as_str()) {
            Err(_) => {
                return Err(BrokerError::UnknownTopic);
            },
            Ok(t) => t,
        };
        if b.consumers.is_none() {
            b.consumers = Some(Vec::new());
            proof {
                assert(records_opt(consumer_shape(), b.consumers->Some_0@) == Some(
                    Seq::<RecView>::empty(),
                ));
                assert(recs(consumer_shape(), b.consumers->Some_0@) =~= Seq::<RecView>::empty());
            }
        }
        let key = generate_key();
        let mut trailing: Vec<u64> = Vec::new();
        trailing.push(t.first_log_file);
        trailing.push(0);
        let rec = Record {
            key: key.as_str().as_bytes_vec(),
            name: folded.as_str().as_bytes_vec(),
            trailing,
        };
        let name_len = rec.name.len();
        proof {
            lemma_key_bytes(key@);
            assert(rec.name@.len() == name_len);
            assert(rec_wf(consumer_shape(), rec@));
            assert(rec@.trailing =~= seq![t.first_log_file, 0u64]);
        }
        let off: u64;
        match &mut b.consumers {
            Some(f) => {
                off = append_record(f, mk_consumer_shape(), &rec);
            },
            None => {
                proof {
                    assert(false);
                }
                return Err(BrokerError::UnknownTopic);
            },
        }
        Ok(
            Consumer {
                topic: folded,
                log_file: t.first_log_file,
                log_offset: 0,
                offset: off,
                key,
            },
        )
    }

    /// Authenticates a token against the consumers registry; a
    /// tombstoned record's zeroed key matches no generated key.
    pub fn hydrate(b: &Broker, token: &str) -> (r: Result<Consumer, BrokerError>)
        requires
            b.wf(),
        ensures
            ({
                match spec_parse_token(token@) {
                    None => r == Err::<Consumer, BrokerError>(BrokerError::InvalidToken),
                    Some((off, key)) => {
                        if b.consumers is None {
                            r == Err::<Consumer, BrokerError>(BrokerError::IoFailure)
                        } else {
                            let rs = b.consumer_recs();
                            let i = rec_index(consumer_shape(), rs, off as int);
                            if i < 0 {
                                r == Err::<Consumer, BrokerError>(BrokerError::CorruptRecord)
                            } else if rs[i].key != encode_utf8(key) {
                                r == Err::<Consumer, BrokerError>(BrokerError::Unauthorized)
                            } else if !valid_utf8(rs[i].name) {
                                r == Err::<Consumer, BrokerError>(BrokerError::CorruptRecord)
                            } else {
                                match r {
                                    Ok(c) => {
                                        &&& c.offset == off
                                        &&& c.key@ == key
                                        &&& encode_utf8(c.topic@) == rs[i].name
                                        &&& c.log_file == rs[i].trailing[0]
                                        &&& c.log_offset == rs[i].trailing[1]
                                    },
                                    Err(_) => false,
                                }
                            }
                        }
                    },
                }
            }),
    {
        let parsed = parse_token(token);
        let (off, key) = match parsed {
            None => {
                return Err(BrokerError::InvalidToken);
            },
            Some(p) => p,
        };
        match &b.consumers {
            None => Err(BrokerError::IoFailure),
            Some(f) => {
                let rec = match read_record_at(f, mk_consumer_shape(), off) {
                    Err(_) => {
                        return Err(BrokerError::CorruptRecord);
                    },
                    Ok(rec) => rec,
                };
                let kb = key.as_str().as_bytes_vec();
                if !bytes_eq(&rec.key, &kb) {
                    return Err(BrokerError::Unauthorized);
                }
                let log_file = rec.trailing[0];
                let log_offset = rec.trailing[1];
                match bytes_to_string(rec.name) {
                    None => Err(BrokerError::CorruptRecord),
                    Some(topic) => {
                        proof {
                            vstd::utf8::encode_utf8_valid_utf8(topic@);
                        }
                        Ok(Consumer { topic, log_file, log_offset, offset: off, key })
                    },
                }
            },
        }
    }

    /// Tombstones this consumer's record: its key field is zeroed in
    /// place, so its token can never authenticate again.
    pub fn delete(&self, b: &mut Broker) -> (r: Result<(), BrokerError>)
        requires
            old(b).wf(),
        ensures
            final(b).wf(),
            ({
                if old(b).consumers is None {
                    r == Err::<(), BrokerError>(BrokerError::IoFailure) && *final(b) == *old(b)
                } else {
                    let rs = old(b).consumer_recs();
                    let i = rec_index(consumer_shape(), rs, self.offset as int);
                    if i < 0 {
                        r == Err::<(), BrokerError>(BrokerError::CorruptRecord) && *final(b)
                            == *old(b)
                    } else {
                        &&& r is Ok
                        &&& final(b).consumers is Some
                        &&& final(b).consumer_recs() == rs.update(
                            i,
                            RecView { key: zero_key(), name: rs[i].name, trailing: rs[i].trailing },
                        )
                        &&& final(b).topics == old(b).topics
                        &&& final(b).producers == old(b).producers
                        &&& final(b).logs == old(b).logs
                    }
                }
            }),
    {
        match &mut b.consumers {
            None => Err(BrokerError::IoFailure),
            Some(f) => {
                match tombstone_record(f, mk_consumer_shape(), self.offset) {
                    Err(e) => Err(e),
                    Ok(_) => Ok(()),
                }
            },
        }
    }

    /// Rotates this consumer's key in place; the old token stops
    /// matching. Cursor and topic binding stay as stored.
    pub fn reroll(&mut self, b: &mut Broker) -> (r: Result<(), BrokerError>)
        requires
            old(b).wf(),
        ensures
            final(b).wf(),
            ({
                if old(b).consumers is None {
                    r == Err::<(), BrokerError>(BrokerError::IoFailure) && *final(b) == *old(b)
                        && *final(self) == *old(self)
                } else {
                    let rs = old(b).consumer_recs();
                    let i = rec_index(consumer_shape(), rs, old(self).offset as int);
                    if i < 0 {
                        r == Err::<(), BrokerError>(BrokerError::CorruptRecord) && *final(b)
                            == *old(b) && *final(self) == *old(self)
                    } else {
                        &&& r is Ok
                        &&& key_valid(final(self).key@)
                        &&& final(self).topic == old(self).topic
                        &&& final(self).offset == old(self).offset
                        &&& final(self).log_file == old(self).log_file
                        &&& final(self).log_offset == old(self).log_offset
                        &&& final(b).consumers is Some
                        &&& final(b).consumer_recs() == rs.update(
                            i,
                            RecView {
                                key: encode_utf8(final(self).key@),
                                name: rs[i].name,
                                trailing: rs[i].trailing,
                            },
                        )
                        &&& final(b).topics == old(b).topics
                        &&& final(b).producers == old(b).producers
                        &&& final(b).logs == old(b).logs
                    }
                }
            }),
    {
        match &mut b.consumers {
            None => Err(BrokerError::IoFailure),
            Some(f) => {
                let rec = match read_record_at(f, mk_consumer_shape(), self.offset) {
                    Err(_) => {
                        return Err(BrokerError::CorruptRecord);
                    },
                    Ok(rec) => rec,
                };
                let new_key = generate_key();
                let rec2 = Record {
                    key: new_key.as_str().as_bytes_vec(),
                    name: rec.name,
                    trailing: rec.trailing,
                };
                proof {
                    lemma_key_bytes(new_key@);
                }
                let wr = write_record_at(f, mk_consumer_shape(), self.offset, &rec2);
                proof {
                    assert(wr is Ok);
                }
                self.key = new_key;
                Ok(())
            },
        }
    }

    /// Reads the next event at this consumer's cursor, advancing across
    /// one exhausted segment when the topic has moved past it. With
    /// `bump` (lossy mode) the advanced cursor is persisted immediately;
    /// without it, only the returned event id can commit it, via `bump`.
    pub fn read(&mut self, b: &mut Broker, bump: bool) -> (r: Result<Event, BrokerError>)
        requires
            old(b).wf(),
        ensures
            final(b).wf(),
            final(self).topic == old(self).topic,
            final(self).key == old(self).key,
            final(self).offset == old(self).offset,
            ({
                let step = spec_read_step(
                    *old(b),
                    old(self).topic@,
                    old(self).log_file,
                    old(self).log_offset,
                );
                match step {
                    ReadStep::UnknownTopic => {
                        &&& r == Err::<Event, BrokerError>(BrokerError::UnknownTopic)
                        &&& *final(b) == *old(b)
                        &&& *final(self) == *old(self)
                    },
                    ReadStep::MissingSeg { f2, off2 } => {
                        &&& r == Err::<Event, BrokerError>(BrokerError::IoFailure)
                        &&& *final(b) == *old(b)
                        &&& final(self).log_file == f2
                        &&& final(self).log_offset == off2
                    },
                    ReadStep::Overflow => {
                        &&& r == Err::<Event, BrokerError>(BrokerError::IoFailure)
                        &&& *final(b) == *old(b)
                        &&& *final(self) == *old(self)
                    },
                    ReadStep::NoMore => {
                        &&& r == Err::<Event, BrokerError>(BrokerError::NoMoreEvents)
                        &&& *final(b) == *old(b)
                        &&& *final(self) == *old(self)
                    },
                    ReadStep::Corrupt { f2, off2 } => {
                        &&& r == Err::<Event, BrokerError>(BrokerError::CorruptRecord)
                        &&& *final(b) == *old(b)
                        &&& final(self).log_file == f2
                        &&& final(self).log_offset == off2
                    },
                    ReadStep::Event { payload, f2, off2 } => {
                        &&& final(self).log_file == f2
                        &&& final(self).log_offset == off2
                        &&& if !bump {
                            &&& *final(b) == *old(b)
                            &&& (match r {
                                Ok(ev) => ev.content@ == payload && ev.eid@ == spec_event_id(
                                    off2,
                                    f2,
                                ),
                                Err(_) => false,
                            })
                        } else if old(b).consumers is None {
                            &&& r == Err::<Event, BrokerError>(BrokerError::IoFailure)
                            &&& *final(b) == *old(b)
                        } else {
                            let crs = old(b).consumer_recs();
                            let i = rec_index(consumer_shape(), crs, old(self).offset as int);
                            if i < 0 {
                                &&& r == Err::<Event, BrokerError>(BrokerError::CorruptRecord)
                                &&& *final(b) == *old(b)
                            } else {
                                &&& (match r {
                                    Ok(ev) => ev.content@ == payload && ev.eid@ == spec_event_id(
                                        off2,
                                        f2,
                                    ),
                                    Err(_) => false,
                                })
                                &&& final(b).consumers is Some
                                &&& final(b).consumer_recs() == crs.update(
                                    i,
                                    RecView {
                                        key: crs[i].key,
                                        name: crs[i].name,
                                        trailing: seq![f2, off2],
                                    },
                                )
                                &&& final(b).topics == old(b).topics
                                &&& final(b).producers == old(b).producers
                                &&& final(b).logs == old(b).logs
                            }
                        }
                    },
                }
            }),
    {
        let li = match b.find_log(self.topic.as_str()) {
            None => {
                return Err(BrokerError::UnknownTopic);
            },
            Some(i) => i,
        };
        proof {
            lemma_log_index_props(b.logs@, self.topic@);
            lemma_lookup_align(b.logs@, b.topic_recs(), self.topic@);
            assert(topic_entry_wf(b.logs@[li as int], b.topic_recs()[li as int]));
        }
        let base = b.logs[li].base;
        let nsegs = b.logs[li].segs.len();
        let f = self.log_file;
        if f < base || f - base >= nsegs as u64 {
            return Err(BrokerError::IoFailure);
        }
        let sidx = (f - base) as usize;
        let seg_len = b.logs[li].segs[sidx].len();
        let f2: u64;
        let off2: u64;
        if self.log_offset == seg_len as u64 {
            let nb = self.topic.as_str().as_bytes_vec();
            let curr: u64;
            match &b.topics {
                Some(file) => {
                    match find_by_name(file, mk_topic_shape(), &nb) {
                        Some(pair) => {
                            curr = pair.1.trailing[1];
                        },
                        None => {
                            proof {
                                assert(false);
                            }
                            return Err(BrokerError::UnknownTopic);
                        },
                    }
                },
                None => {
                    proof {
                        assert(false);
                    }
                    return Err(BrokerError::UnknownTopic);
                },
            }
            if curr != f {
                if f == u64::MAX {
                    return Err(BrokerError::IoFailure);
                }
                f2 = f + 1;
                off2 = 0;
                self.log_file = f2;
                self.log_offset = 0;
                if f2 < base || f2 - base >= nsegs as u64 {
                    return Err(BrokerError::IoFailure);
                }
            } else {
                return Err(BrokerError::NoMoreEvents);
            }
        } else {
            f2 = f;
            off2 = self.log_offset;
        }
        let sidx2 = (f2 - base) as usize;
        let rd = read_event_at(&b.logs[li].segs[sidx2], off2);
        match rd {
            Err(_) => {
                self.log_file = f2;
                self.log_offset = off2;
                Err(BrokerError::CorruptRecord)
            },
            Ok((payload, consumed)) => {
                let new_off = off2 + consumed;
                self.log_file = f2;
                self.log_offset = new_off;
                let eid = assemble_event_id(new_off, f2);
                if bump {
                    match &mut b.consumers {
                        None => {
                            return Err(BrokerError::IoFailure);
                        },
                        Some(cf) => {
                            let rec = match read_record_at(cf, mk_consumer_shape(), self.offset) {
                                Err(_) => {
                                    return Err(BrokerError::CorruptRecord);
                                },
                                Ok(rec) => rec,
                            };
                            let mut trailing: Vec<u64> = Vec::new();
                            trailing.push(f2);
                            trailing.push(new_off);
                            let rec2 = Record { key: rec.key, name: rec.name, trailing };
                            proof {
                                assert(rec2@.trailing =~= seq![f2, new_off]);
                            }
                            let wr = write_record_at(cf, mk_consumer_shape(), self.offset, &rec2);
                            proof {
                                assert(wr is Ok);
                            }
                        },
                    }
                }
                Ok(Event { eid, content: payload })
            },
        }
    }

    /// Acknowledges an event: parses its id into `(byte offset, segment
    /// id)`, sets the cursor there, and persists it. This is the only
    /// way a durable-mode consumer's committed position advances.
    pub fn bump(&mut self, b: &mut Broker, event_id: &str) -> (r: Result<(), BrokerError>)
        requires
            old(b).wf(),
        ensures
            final(b).wf(),
            final(self).topic == old(self).topic,
            final(self).key == old(self).key,
            final(self).offset == old(self).offset,
            ({
                match spec_parse_event_id(event_id@) {
                    None => {
                        &&& r == Err::<(), BrokerError>(BrokerError::InvalidToken)
                        &&& *final(b) == *old(b)
                        &&& *final(self) == *old(self)
                    },
                    Some((off2, f2)) => {
                        &&& final(self).log_offset == off2
                        &&& final(self).log_file == f2
                        &&& if old(b).consumers is None {
                            r == Err::<(), BrokerError>(BrokerError::IoFailure) && *final(b)
                                == *old(b)
                        } else {
                            let crs = old(b).consumer_recs();
                            let i = rec_index(consumer_shape(), crs, old(self).offset as int);
                            if i < 0 {
                                r == Err::<(), BrokerError>(BrokerError::CorruptRecord)
                                    && *final(b) == *old(b)
                            } else {
                                &&& r is Ok
                                &&& final(b).consumers is Some
                                &&& final(b).consumer_recs() == crs.update(
                                    i,
                                    RecView {
                                        key: crs[i].key,
                                        name: crs[i].name,
                                        trailing: seq![f2, off2],
                                    },
                                )
                                &&& final(b).topics == old(b).topics
                                &&& final(b).producers == old(b).producers
                                &&& final(b).logs == old(b).logs
                            }
                        }
                    },
                }
            }),
    {
        let parsed = parse_event_id(event_id);
        let (off2, f2) = match parsed {
            None => {
                return Err(BrokerError::InvalidToken);
            },
            Some(p) => p,
        };
        self.log_offset = off2;
        self.log_file = f2;
        match &mut b.consumers {
            None => Err(BrokerError::IoFailure),
            Some(cf) => {
                let rec = match read_record_at(cf, mk_consumer_shape(), self.offset) {
                    Err(_) => {
                        return Err(BrokerError::CorruptRecord);
                    },
                    Ok(rec) => rec,
                };
                let mut trailing: Vec<u64> = Vec::new();
                trailing.push(f2);
                trailing.push(off2);
                let rec2 = Record { key: rec.key, name: rec.name, trailing };
                proof {
                    assert(rec2@.trailing =~= seq![f2, off2]);
                }
                let wr = write_record_at(cf, mk_consumer_shape(), self.offset, &rec2);
                proof {
                    assert(wr is Ok);
                }
                Ok(())
            },
        }
    }
}


/// The registry view of one listed consumer.
pub open spec fn consumer_entry(c: Consumer) -> (u64, RecView) {
    (
        c.offset,
        RecView {
            key: encode_utf8(c.key@),
            name: encode_utf8(c.topic@),
            trailing: seq![c.log_file, c.log_offset],
        },
    )
}

/// Lists every live consumer with its registry address, in file order;
/// tombstoned records are skipped.
#[verifier::rlimit(80)]
#[verifier::spinoff_prover]
pub fn list_consumers(b: &Broker) -> (r: Result<Vec<Consumer>, BrokerError>)
    requires
        b.wf(),
    ensures
        ({
            if b.consumers is None {
                r == Err::<Vec<Consumer>, BrokerError>(BrokerError::IoFailure)
            } else {
                let rs = b.consumer_recs();
                let le = live_entries(consumer_shape(), rs, 0);
                match r {
                    Ok(v) => {
                        &&& v@.map_values(|c: Consumer| consumer_entry(c)) == le
                        &&& forall|i: int|
                            0 <= i < rs.len() && is_live(consumer_shape(), #[trigger] rs[i])
                                ==> valid_utf8(rs[i].key) && valid_utf8(rs[i].name)
                    },
                    Err(e) => {
                        &&& e == BrokerError::CorruptRecord
                        &&& exists|i: int|
                            0 <= i < rs.len() && is_live(consumer_shape(), #[trigger] rs[i]) && (
                            !valid_utf8(rs[i].key) || !valid_utf8(rs[i].name))
                    },
                }
            }
        }),
{
    let file = match &b.consumers {
        None => {
            return Err(BrokerError::IoFailure);
        },
        Some(f) => f,
    };
    let sh = mk_consumer_shape();
    proof {
        lemma_parse_from_wf(consumer_shape(), file@, 0);
    }
    let ghost rs = recs(consumer_shape(), file@);
    let n = file.len();
    let mut out: Vec<Consumer> = Vec::new();
    let mut p: usize = 0;
    let ghost mut k: int = 0int;
    proof {
        assert(rs.skip(0) =~= rs);
        assert(out@.map_values(|c: Consumer| consumer_entry(c)) + live_entries(
            consumer_shape(),
            rs,
            0,
        ) =~= live_entries(consumer_shape(), rs, 0));
    }
    while p < n
        invariant
            b.consumers is Some,
            file == b.consumers->Some_0,
            records_opt(consumer_shape(), file@) is Some,
            rs == recs(consumer_shape(), file@),
            sh == consumer_shape(),
            n == file.len(),
            0 <= k <= rs.len(),
            p as int == start_of(consumer_shape(), rs, k),
            p <= n,
            parse_from(consumer_shape(), file@, p as int) == Some(rs.skip(k)),
            forall|i: int|
                0 <= i < k && is_live(consumer_shape(), #[trigger] rs[i]) ==> valid_utf8(
                    rs[i].key,
                ) && valid_utf8(rs[i].name),
            out@.map_values(|c: Consumer| consumer_entry(c)) + live_entries(
                consumer_shape(),
                rs.skip(k),
                p as int,
            ) == live_entries(consumer_shape(), rs, 0),
        decreases n - p,
    {
        proof {
            assert(rs.skip(k).len() > 0);
            assert(dec_at(consumer_shape(), file@, p as int) == Some(rs.skip(k)[0]));
            assert(rs.skip(k)[0] == rs[k]);
            lemma_dec_at_wf(consumer_shape(), file@, p as int);
        }
        let out_here = decode_here(file, sh, p);
        let rec = out_here.0;
        let sz = out_here.1;
        let zeros = make_zero_key();
        let live = !bytes_eq(&rec.key, &zeros);
        let ghost prev = out@;
        if live {
            proof {
                assert(0 <= k < rs.len());
                assert(is_live(consumer_shape(), rs[k]));
            }
            let key = match bytes_to_string(rec.key) {
                None => {
                    proof {
                        assert(rs == b.consumer_recs());
                        assert(0 <= k < b.consumer_recs().len() && is_live(
                            consumer_shape(),
                            #[trigger] b.consumer_recs()[k],
                        ) && !valid_utf8(b.consumer_recs()[k].key));
                    }
                    return Err(BrokerError::CorruptRecord);
                },
                Some(s) => s,
            };
            let log_file = rec.trailing[0];
            let log_offset = rec.trailing[1];
            let topic = match bytes_to_string(rec.name) {
                None => {
                    proof {
                        assert(rs == b.consumer_recs());
                        assert(0 <= k < b.consumer_recs().len() && is_live(
                            consumer_shape(),
                            #[trigger] b.consumer_recs()[k],
                        ) && !valid_utf8(b.consumer_recs()[k].name));
                    }
                    return Err(BrokerError::CorruptRecord);
                },
                Some(s) => s,
            };
            proof {
                vstd::utf8::encode_utf8_valid_utf8(key@);
                vstd::utf8::encode_utf8_valid_utf8(topic@);
            }
            out.push(Consumer { topic, log_file, log_offset, offset: p as u64, key });
        }
        proof {
            assert(sz as int == rec_size(consumer_shape(), rs[k]));
            assert(parse_from(consumer_shape(), file@, p as int + sz as int) == Some(
                rs.skip(k + 1),
            )) by {
                assert(rs.skip(k).drop_first() =~= rs.skip(k + 1));
            }
            assert(start_of(consumer_shape(), rs, k + 1) == p as int + sz as int);
            assert(live == is_live(consumer_shape(), rs[k]));
            assert(live_entries(consumer_shape(), rs.skip(k), p as int) == if is_live(
                consumer_shape(),
                rs[k],
            ) {
                seq![((p as u64), rs[k])] + live_entries(
                    consumer_shape(),
                    rs.skip(k + 1),
                    p as int + sz as int,
                )
            } else {
                live_entries(consumer_shape(), rs.skip(k + 1), p as int + sz as int)
            }) by {
                assert(rs.skip(k).drop_first() =~= rs.skip(k + 1));
            }
            if live {
                assert(consumer_entry(out@.last()) == ((p as u64), rs[k])) by {
                    assert(rs[k].trailing =~= seq![rs[k].trailing[0], rs[k].trailing[1]]);
                }
                assert(out@.map_values(|c: Consumer| consumer_entry(c)) =~= prev.map_values(
                    |c: Consumer| consumer_entry(c),
                ).push(((p as u64), rs[k])));
            }
            assert(out@.map_values(|c: Consumer| consumer_entry(c)) + live_entries(
                consumer_shape(),
                rs.skip(k + 1),
                p as int + sz as int,
            ) =~= live_entries(consumer_shape(), rs, 0));
            k = k + 1;
        }
        p = p + sz;
    }
    proof {
        assert(parse_from(consumer_shape(), file@, n as int) == Some(Seq::<RecView>::empty()));
        assert(k == rs.len());
        assert(live_entries(consumer_shape(), rs.skip(k), p as int) == Seq::<(
            u64,
            RecView,
        )>::empty());
        assert(out@.map_values(|c: Consumer| consumer_entry(c)) =~= live_entries(
            consumer_shape(),
            rs,
            0,
        ));
    }
    Ok(out)
}

} // verus!
