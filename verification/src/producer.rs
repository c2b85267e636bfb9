//! Producers: write capabilities bound to one topic, identified by a
//! registry offset and a random key carried in a bearer token.

use vstd::prelude::*;
use vstd::string::StrSliceExecFns;
use vstd::utf8::{encode_utf8, valid_utf8};
use crate::broker::{Broker, topic_shape, producer_shape, mk_topic_shape, mk_producer_shape,
    spec_log_index, lemma_log_index_props, lemma_lookup_align,
    topic_entry_wf, ROTATE_THRESHOLD};
use crate::errors::BrokerError;
use crate::keys::{generate_key, key_valid, lemma_key_bytes};
use crate::names::bytes_to_string;
use crate::registry::{Record, RecView, records_opt, recs, rec_index, zero_key, rec_wf,
    read_record_at, write_record_at, append_record, tombstone_record, find_by_name, bytes_eq,
    lemma_rec_index_some, live_entries, is_live, parse_from, dec_at, lemma_dec_at_wf,
    decode_here, rec_size, start_of, make_zero_key, lemma_parse_from_wf};
use crate::segment::{events_opt, events, append_event};
use crate::token::{spec_parse_token, spec_token, parse_token, assemble_token};

verus! {

/// A producer handle: the fields of one producers-registry record.
#[derive(Debug)]
pub struct Producer {
    pub topic: String,
    pub offset: u64,
    pub key: String,
}

impl Producer {
    /// The bearer token for this producer: `"{offset}-{key}"`.
    pub fn assemble_token(&self) -> (r: String)
        ensures
            r@ == spec_token(self.offset, self.key@),
    {
        assemble_token(self.offset, self.key.as_str())
    }

    /// Creates a producer bound to an existing topic: generates a key and
    /// appends `{key, topic}` to the producers registry, creating that
    /// registry file first if it is absent.
    pub fn new(b: &mut Broker, topic: String) -> (r: Result<Producer, BrokerError>)
        requires
            old(b).wf(),
        ensures
            final(b).wf(),
            ({
                let li = spec_log_index(old(b).logs@, topic@);
                match r {
                    Err(e) => {
                        &&& e == BrokerError::UnknownTopic
                        &&& li < 0
                        &&& *final(b) == *old(b)
                    },
                    Ok(p) => {
                        &&& li >= 0
                        &&& p.topic@ == topic@
                        &&& key_valid(p.key@)
                        &&& p.offset as int == (if old(b).producers is Some {
                            old(b).producers->Some_0@.len() as int
                        } else {
                            0
                        })
                        &&& final(b).producers is Some
                        &&& final(b).producer_recs() == (if old(b).producers is Some {
                            old(b).producer_recs()
                        } else {
                            Seq::<RecView>::empty()
                        }).push(
                            RecView {
                                key: encode_utf8(p.key@),
                                name: encode_utf8(topic@),
                                trailing: Seq::empty(),
                            },
                        )
                        &&& final(b).topics == old(b).topics
                        &&& final(b).consumers == old(b).consumers
                        &&& final(b).logs == old(b).logs
                    },
                }
            }),
    {
        if !b.topic_exists(topic.as_str()) {
            return Err(BrokerError::UnknownTopic);
        }
        if b.producers.is_none() {
            b.producers = Some(Vec::new());
            proof {
                assert(records_opt(producer_shape(), b.producers->Some_0@) == Some(
                    Seq::<RecView>::empty(),
                ));
                assert(recs(producer_shape(), b.producers->Some_0@) =~= Seq::<RecView>::empty());
            }
        }
        let key = generate_key();
        let rec = Record {
            key: key.as_str().as_bytes_vec(),
            name: topic.as_str().as_bytes_vec(),
            trailing: Vec::new(),
        };
        let name_len = rec.name.len();
        proof {
            lemma_key_bytes(key@);
            assert(rec.name@.len() == name_len);
            assert(rec_wf(producer_shape(), rec@));
        }
        let off: u64;
        match &mut b.producers {
            Some(f) => {
                off = append_record(f, mk_producer_shape(), &rec);
            },
            None => {
                proof {
                    assert(false);
                }
                return Err(BrokerError::UnknownTopic);
            },
        }
        Ok(Producer { topic, offset: off, key })
    }

    /// Authenticates a token: splits it, reads the record at its offset,
    /// and compares the stored key with the presented one. A tombstoned
    /// record's zeroed key matches no generated key, so deleted producers
    /// stay unauthorized.
    pub fn hydrate(b: &Broker, token: &str) -> (r: Result<Producer, BrokerError>)
        requires
            b.wf(),
        ensures
            ({
                match spec_parse_token(token@) {
                    None => r == Err::<Producer, BrokerError>(BrokerError::InvalidToken),
                    Some((off, key)) => {
                        if b.producers is None {
                            r == Err::<Producer, BrokerError>(BrokerError::IoFailure)
                        } else {
                            let rs = b.producer_recs();
                            let i = rec_index(producer_shape(), rs, off as int);
                            if i < 0 {
                                r == Err::<Producer, BrokerError>(BrokerError::CorruptRecord)
                            } else if rs[i].key != encode_utf8(key) {
                                r == Err::<Producer, BrokerError>(BrokerError::Unauthorized)
                            } else if !valid_utf8(rs[i].name) {
                                r == Err::<Producer, BrokerError>(BrokerError::CorruptRecord)
                            } else {
                                match r {
                                    Ok(p) => {
                                        &&& p.offset == off
                                        &&& p.key@ == key
                                        &&& encode_utf8(p.topic@) == rs[i].name
                                    },
                                    Err(_) => false,
                                }
                            }
                        }
                    },
                }
            }),
    {
        let parsed = parse_token(token);
        let (off, key) = match parsed {
            None => {
                return Err(BrokerError::InvalidToken);
            },
            Some(p) => p,
        };
        match &b.producers {
            None => Err(BrokerError::IoFailure),
            Some(f) => {
                let rec = match read_record_at(f, mk_producer_shape(), off) {
                    Err(_) => {
                        return Err(BrokerError::CorruptRecord);
                    },
                    Ok(rec) => rec,
                };
                let kb = key.as_str().as_bytes_vec();
                if !bytes_eq(&rec.key, &kb) {
                    return Err(BrokerError::Unauthorized);
                }
                match bytes_to_string(rec.name) {
                    None => Err(BrokerError::CorruptRecord),
                    Some(topic) => {
                        proof {
                            vstd::utf8::encode_utf8_valid_utf8(topic@);
                        }
                        Ok(Producer { topic, offset: off, key })
                    },
                }
            },
        }
    }

    /// Tombstones this producer's record: the key field is zeroed in
    /// place, so its token can never authenticate again.
    pub fn delete(&self, b: &mut Broker) -> (r: Result<(), BrokerError>)
        requires
            old(b).wf(),
        ensures
            final(b).wf(),
            ({
                if old(b).producers is None {
                    r == Err::<(), BrokerError>(BrokerError::IoFailure) && *final(b) == *old(b)
                } else {
                    let rs = old(b).producer_recs();
                    let i = rec_index(producer_shape(), rs, self.offset as int);
                    if i < 0 {
                        r == Err::<(), BrokerError>(BrokerError::CorruptRecord) && *final(b)
                            == *old(b)
                    } else {
                        &&& r is Ok
                        &&& final(b).producers is Some
                        &&& final(b).producer_recs() == rs.update(
                            i,
                            RecView { key: zero_key(), name: rs[i].name, trailing: rs[i].trailing },
                        )
                        &&& final(b).topics == old(b).topics
                        &&& final(b).consumers == old(b).consumers
                        &&& final(b).logs == old(b).logs
                    }
                }
            }),
    {
        match &mut b.producers {
            None => Err(BrokerError::IoFailure),
            Some(f) => {
                match tombstone_record(f, mk_producer_shape(), self.offset) {
                    Err(e) => Err(e),
                    Ok(_) => Ok(()),
                }
            },
        }
    }

    /// Rotates this producer's key in place and returns the new identity
    /// through the handle; the old token stops matching.
    pub fn reroll(&mut self, b: &mut Broker) -> (r: Result<(), BrokerError>)
        requires
            old(b).wf(),
        ensures
            final(b).wf(),
            ({
                if old(b).producers is None {
                    r == Err::<(), BrokerError>(BrokerError::IoFailure) && *final(b) == *old(b)
                        && *final(self) == *old(self)
                } else {
                    let rs = old(b).producer_recs();
                    let i = rec_index(producer_shape(), rs, old(self).offset as int);
                    if i < 0 {
                        r == Err::<(), BrokerError>(BrokerError::CorruptRecord) && *final(b)
                            == *old(b) && *final(self) == *old(self)
                    } else {
                        &&& r is Ok
                        &&& key_valid(final(self).key@)
                        &&& final(self).topic == old(self).topic
                        &&& final(self).offset == old(self).offset
                        &&& final(b).producers is Some
                        &&& final(b).producer_recs() == rs.update(
                            i,
                            RecView {
                                key: encode_utf8(final(self).key@),
                                name: rs[i].name,
                                trailing: rs[i].trailing,
                            },
                        )
                        &&& final(b).topics == old(b).topics
                        &&& final(b).consumers == old(b).consumers
                        &&& final(b).logs == old(b).logs
                    }
                }
            }),
    {
        match &mut b.producers {
            None => Err(BrokerError::IoFailure),
            Some(f) => {
                let rec = match read_record_at(f, mk_producer_shape(), self.offset) {
                    Err(_) => {
                        return Err(BrokerError::CorruptRecord);
                    },
                    Ok(rec) => rec,
                };
                let new_key = generate_key();
                let rec2 = Record {
                    key: new_key.as_str().as_bytes_vec(),
                    name: rec.name,
                    trailing: rec.trailing,
                };
                proof {
                    lemma_key_bytes(new_key@);
                }
                let wr = write_record_at(f, mk_producer_shape(), self.offset, &rec2);
                proof {
                    assert(wr is Ok);
                }
                self.key = new_key;
                Ok(())
            },
        }
    }

    /// Appends an event to this producer's topic log: rotates the active
    /// segment first when it has reached the rotation threshold, then
    /// writes `[8-byte length][payload]` to the active segment.
    pub fn write(&self, b: &mut Broker, content: &Vec<u8>) -> (r: Result<(), BrokerError>)
        requires
            old(b).wf(),
        ensures
            final(b).wf(),
            ({
                let li = spec_log_index(old(b).logs@, self.topic@);
                if li < 0 {
                    r == Err::<(), BrokerError>(BrokerError::UnknownTopic) && *final(b) == *old(b)
                } else {
                    let rs = old(b).topic_recs();
                    let lg = old(b).logs@[li];
                    let curr = rs[li].trailing[1];
                    let cidx = curr - lg.base;
                    let rotate = lg.segs@[cidx as int]@.len() >= ROTATE_THRESHOLD;
                    if rotate && curr == u64::MAX {
                        r == Err::<(), BrokerError>(BrokerError::IoFailure) && *final(b) == *old(b)
                    } else {
                        let curr2 = if rotate {
                            (curr + 1) as u64
                        } else {
                            curr
                        };
                        let widx = curr2 - lg.base;
                        &&& r is Ok
                        &&& final(b).topic_recs() == (if rotate {
                            rs.update(
                                li,
                                RecView {
                                    key: rs[li].key,
                                    name: rs[li].name,
                                    trailing: seq![rs[li].trailing[0], curr2],
                                },
                            )
                        } else {
                            rs
                        })
                        &&& final(b).topics is Some
                        &&& final(b).logs@.len() == old(b).logs@.len()
                        &&& (forall|j: int|
                            0 <= j < old(b).logs@.len() && j != li ==> final(b).logs@[j] == old(
                                b,
                            ).logs@[j])
                        &&& final(b).logs@[li].name == lg.name
                        &&& final(b).logs@[li].base == lg.base
                        &&& final(b).logs@[li].segs@.len() == lg.segs@.len() + (if rotate {
                            1int
                        } else {
                            0int
                        })
                        &&& (forall|s: int|
                            0 <= s < lg.segs@.len() && s != widx ==> final(b).logs@[li].segs@[s]
                                == lg.segs@[s])
                        &&& final(b).logs@[li].segs@[widx as int]@ == lg.segs@[widx as int]@
                            + crate::be64::spec_u64_to_be_bytes(content@.len() as u64) + content@
                        &&& events_opt(final(b).logs@[li].segs@[widx as int]@) == Some(
                            events(lg.segs@[widx as int]@).push(content@),
                        )
                        &&& (rotate ==> final(b).logs@[li].segs@.last()@ == Seq::<u8>::empty())
                        &&& final(b).producers == old(b).producers
                        &&& final(b).consumers == old(b).consumers
                        &&& crate::props::write_post(*old(b), *final(b), li, content@)
                    }
                }
            }),
    {
        let li = match b.find_log(self.topic.as_str()) {
            None => {
                return Err(BrokerError::UnknownTopic);
            },
            Some(i) => i,
        };
        proof {
            lemma_log_index_props(b.logs@, self.topic@);
            lemma_lookup_align(b.logs@, b.topic_recs(), self.topic@);
            assert(topic_entry_wf(b.logs@[li as int], b.topic_recs()[li as int]));
        }
        let ghost rs = b.topic_recs();
        let ghost logs_before = b.logs@;
        let nb = self.topic.as_str().as_bytes_vec();
        let first: u64;
        let curr: u64;
        let toff: u64;
        match &b.topics {
            Some(f) => {
                match find_by_name(f, mk_topic_shape(), &nb) {
                    Some(pair) => {
                        toff = pair.0;
                        first = pair.1.trailing[0];
                        curr = pair.1.trailing[1];
                    },
                    None => {
                        proof {
                            assert(false);
                        }
                        return Err(BrokerError::UnknownTopic);
                    },
                }
            },
            None => {
                proof {
                    assert(false);
                }
                return Err(BrokerError::UnknownTopic);
            },
        }
        let base = b.logs[li].base;
        let nsegs = b.logs[li].segs.len();
        proof {
            assert(topic_entry_wf(logs_before[li as int], rs[li as int]));
            assert(curr == rs[li as int].trailing[1]);
            assert(base + nsegs as int == curr + 2);
            assert(curr - base < nsegs);
        }
        let cidx = (curr - base) as usize;
        proof {
            assert(cidx as int == curr - base < logs_before[li as int].segs@.len());
        }
        let seg_len = b.logs[li].segs[cidx].len();
        if seg_len as u64 >= ROTATE_THRESHOLD {
            if curr == u64::MAX {
                return Err(BrokerError::IoFailure);
            }
            match &mut b.topics {
                Some(f) => {
                    let mut trailing: Vec<u64> = Vec::new();
                    trailing.push(first);
                    trailing.push(curr + 1);
                    let rec2 = Record { key: Vec::new(), name: nb, trailing };
                    proof {
                        lemma_rec_index_some(topic_shape(), rs, toff as int);
                        assert(rec2@.trailing =~= seq![first, (curr + 1) as u64]);
                        assert(rec2@.key =~= rs[li as int].key);
                    }
                    let wr = write_record_at(f, mk_topic_shape(), toff, &rec2);
                    proof {
                        assert(wr is Ok);
                    }
                },
                None => {
                    proof {
                        assert(false);
                    }
                    return Err(BrokerError::UnknownTopic);
                },
            }
            b.logs[li].segs.push(Vec::new());
            proof {
                assert(b.logs@[li as int].segs@.len() == nsegs + 1);
                assert(curr + 1 - base < nsegs + 1);
            }
            let widx = (curr + 1 - base) as usize;
            proof {
                assert(widx as int == curr + 1 - base < b.logs@[li as int].segs@.len());
            }
            append_event(&mut b.logs[li].segs[widx], content);
            proof {
                write_wf_proof(
                    *old(b),
                    *b,
                    li as int,
                    rs,
                    logs_before,
                    true,
                    widx as int,
                );
            }
            Ok(())
        } else {
            append_event(&mut b.logs[li].segs[cidx], content);
            proof {
                write_wf_proof(
                    *old(b),
                    *b,
                    li as int,
                    rs,
                    logs_before,
                    false,
                    cidx as int,
                );
            }
            Ok(())
        }
    }
}

/// Closes the well-formedness argument for `Producer::write`: only one
/// segment of one topic changed (by a well-formed append), possibly with
/// a rotation that bumped the record and added an empty next segment.
proof fn write_wf_proof(
    b0: Broker,
    b1: Broker,
    li: int,
    rs: Seq<RecView>,
    logs_before: Seq<crate::broker::TopicLog>,
    rotate: bool,
    widx: int,
)
    requires
        b0.wf(),
        b0.topics is Some,
        rs == b0.topic_recs(),
        logs_before == b0.logs@,
        0 <= li < logs_before.len(),
        b1.topics is Some,
        records_opt(topic_shape(), b1.topics->Some_0@) is Some,
        b1.topic_recs() == if rotate {
            rs.update(
                li,
                RecView {
                    key: rs[li].key,
                    name: rs[li].name,
                    trailing: seq![
                        rs[li].trailing[0],
                        (rs[li].trailing[1] + 1) as u64,
                    ],
                },
            )
        } else {
            rs
        },
        rotate ==> rs[li].trailing[1] < u64::MAX,
        b1.logs@.len() == logs_before.len(),
        forall|j: int| 0 <= j < logs_before.len() && j != li ==> b1.logs@[j] == logs_before[j],
        b1.logs@[li].name == logs_before[li].name,
        b1.logs@[li].base == logs_before[li].base,
        b1.logs@[li].segs@.len() == logs_before[li].segs@.len() + (if rotate {
            1int
        } else {
            0int
        }),
        forall|s: int|
            0 <= s < logs_before[li].segs@.len() && s != widx ==> b1.logs@[li].segs@[s]
                == logs_before[li].segs@[s],
        0 <= widx < logs_before[li].segs@.len(),
        events_opt(b1.logs@[li].segs@[widx]@) is Some,
        rotate ==> b1.logs@[li].segs@.last()@ == Seq::<u8>::empty(),
        b1.producers == b0.producers,
        b1.consumers == b0.consumers,
    ensures
        b1.wf(),
{
    let rs2 = b1.topic_recs();
    assert(topic_entry_wf(logs_before[li], rs[li]));
    assert forall|j: int| 0 <= j < b1.logs@.len() implies topic_entry_wf(
        #[trigger] b1.logs@[j],
        rs2[j],
    ) by {
        if j != li {
            assert(b1.logs@[j] == logs_before[j]);
            assert(rs2[j] == rs[j]);
            assert(topic_entry_wf(logs_before[j], rs[j]));
        } else {
            assert forall|s: int|
                0 <= s < b1.logs@[j].segs@.len() implies events_opt(
                (#[trigger] b1.logs@[j].segs@[s])@) is Some by {
                if s != widx && s < logs_before[li].segs@.len() {
                    assert(b1.logs@[li].segs@[s] == logs_before[li].segs@[s]);
                } else if s == widx {
                } else {
                    assert(rotate && s == b1.logs@[li].segs@.len() - 1);
                    assert(b1.logs@[li].segs@[s]@ == Seq::<u8>::empty());
                    assert(events_opt(Seq::<u8>::empty()) is Some);
                }
            }
        }
    }
    assert forall|x: int, y: int| 0 <= x < y < b1.logs@.len() implies (#[trigger] rs2[x]).name != (
    #[trigger] rs2[y]).name by {
        assert(rs2[x].name == rs[x].name);
        assert(rs2[y].name == rs[y].name);
    }
}


/// The registry view of one listed producer.
pub open spec fn producer_entry(p: Producer) -> (u64, RecView) {
    (p.offset, RecView { key: encode_utf8(p.key@), name: encode_utf8(p.topic@), trailing: Seq::empty() })
}

/// Lists every live producer with its registry address, in file order;
/// tombstoned records are skipped.
#[verifier::rlimit(80)]
#[verifier::spinoff_prover]
pub fn list_producers(b: &Broker) -> (r: Result<Vec<Producer>, BrokerError>)
    requires
        b.wf(),
    ensures
        ({
            if b.producers is None {
                r == Err::<Vec<Producer>, BrokerError>(BrokerError::IoFailure)
            } else {
                let rs = b.producer_recs();
                let le = live_entries(producer_shape(), rs, 0);
                match r {
                    Ok(v) => {
                        &&& v@.map_values(|p: Producer| producer_entry(p)) == le
                        &&& forall|i: int|
                            0 <= i < rs.len() && is_live(producer_shape(), #[trigger] rs[i])
                                ==> valid_utf8(rs[i].key) && valid_utf8(rs[i].name)
                    },
                    Err(e) => {
                        &&& e == BrokerError::CorruptRecord
                        &&& exists|i: int|
                            0 <= i < rs.len() && is_live(producer_shape(), #[trigger] rs[i]) && (
                            !valid_utf8(rs[i].key) || !valid_utf8(rs[i].name))
                    },
                }
            }
        }),
{
    let file = match &b.producers {
        None => {
            return Err(BrokerError::IoFailure);
        },
        Some(f) => f,
    };
    let sh = mk_producer_shape();
    proof {
        lemma_parse_from_wf(producer_shape(), file@, 0);
    }
    let ghost rs = recs(producer_shape(), file@);
    let n = file.len();
    let mut out: Vec<Producer> = Vec::new();
    let mut p: usize = 0;
    let ghost mut k: int = 0int;
    proof {
        assert(rs.skip(0) =~= rs);
        assert(out@.map_values(|c: Producer| producer_entry(c)) + live_entries(
            producer_shape(),
            rs,
            0,
        ) =~= live_entries(producer_shape(), rs, 0));
    }
    while p < n
        invariant
            b.producers is Some,
            file == b.producers->Some_0,
            records_opt(producer_shape(), file@) is Some,
            rs == recs(producer_shape(), file@),
            sh == producer_shape(),
            n == file.len(),
            0 <= k <= rs.len(),
            p as int == start_of(producer_shape(), rs, k),
            p <= n,
            parse_from(producer_shape(), file@, p as int) == Some(rs.skip(k)),
            forall|i: int|
                0 <= i < k && is_live(producer_shape(), #[trigger] rs[i]) ==> valid_utf8(
                    rs[i].key,
                ) && valid_utf8(rs[i].name),
            out@.map_values(|c: Producer| producer_entry(c)) + live_entries(
                producer_shape(),
                rs.skip(k),
                p as int,
            ) == live_entries(producer_shape(), rs, 0),
        decreases n - p,
    {
        proof {
            assert(rs.skip(k).len() > 0);
            assert(dec_at(producer_shape(), file@, p as int) == Some(rs.skip(k)[0]));
            assert(rs.skip(k)[0] == rs[k]);
            lemma_dec_at_wf(producer_shape(), file@, p as int);
        }
        let out_here = decode_here(file, sh, p);
        let rec = out_here.0;
        let sz = out_here.1;
        let zeros = make_zero_key();
        let live = !bytes_eq(&rec.key, &zeros);
        let ghost prev = out@;
        if live {
            proof {
                assert(0 <= k < rs.len());
                assert(is_live(producer_shape(), rs[k]));
            }
            let key = match bytes_to_string(rec.key) {
                None => {
                    proof {
                        assert(rs == b.producer_recs());
                        assert(0 <= k < b.producer_recs().len() && is_live(
                            producer_shape(),
                            #[trigger] b.producer_recs()[k],
                        ) && !valid_utf8(b.producer_recs()[k].key));
                    }
                    return Err(BrokerError::CorruptRecord);
                },
                Some(s) => s,
            };
            let topic = match bytes_to_string(rec.name) {
                None => {
                    proof {
                        assert(rs == b.producer_recs());
                        assert(0 <= k < b.producer_recs().len() && is_live(
                            producer_shape(),
                            #[trigger] b.producer_recs()[k],
                        ) && !valid_utf8(b.producer_recs()[k].name));
                    }
                    return Err(BrokerError::CorruptRecord);
                },
                Some(s) => s,
            };
            proof {
                vstd::utf8::encode_utf8_valid_utf8(key@);
                vstd::utf8::encode_utf8_valid_utf8(topic@);
            }
            out.push(Producer { topic, offset: p as u64, key });
        }
        proof {
            assert(sz as int == rec_size(producer_shape(), rs[k]));
            assert(parse_from(producer_shape(), file@, p as int + sz as int) == Some(
                rs.skip(k + 1),
            )) by {
                assert(rs.skip(k).drop_first() =~= rs.skip(k + 1));
            }
            assert(start_of(producer_shape(), rs, k + 1) == p as int + sz as int);
            assert(live == is_live(producer_shape(), rs[k]));
            assert(live_entries(producer_shape(), rs.skip(k), p as int) == if is_live(
                producer_shape(),
                rs[k],
            ) {
                seq![((p as u64), rs[k])] + live_entries(
                    producer_shape(),
                    rs.skip(k + 1),
                    p as int + sz as int,
                )
            } else {
                live_entries(producer_shape(), rs.skip(k + 1), p as int + sz as int)
            }) by {
                assert(rs.skip(k).drop_first() =~= rs.skip(k + 1));
            }
            if live {
                assert(producer_entry(out@.last()) == ((p as u64), rs[k])) by {
                    assert(rs[k].trailing =~= Seq::<u64>::empty());
                }
                assert(out@.map_values(|c: Producer| producer_entry(c)) =~= prev.map_values(
                    |c: Producer| producer_entry(c),
                ).push(((p as u64), rs[k])));
            }
            assert(out@.map_values(|c: Producer| producer_entry(c)) + live_entries(
                producer_shape(),
                rs.skip(k + 1),
                p as int + sz as int,
            ) =~= live_entries(producer_shape(), rs, 0));
            k = k + 1;
        }
        p = p + sz;
    }
    proof {
        assert(parse_from(producer_shape(), file@, n as int) == Some(Seq::<RecView>::empty()));
        assert(k == rs.len());
        assert(live_entries(producer_shape(), rs.skip(k), p as int) == Seq::<(
            u64,
            RecView,
        )>::empty());
        assert(out@.map_values(|c: Producer| producer_entry(c)) =~= live_entries(
            producer_shape(),
            rs,
            0,
        ));
    }
    Ok(out)
}

} // verus!
