//! Topics: named append-only event streams backed by a registry record
//! (name, retention floor, active segment id) and a directory of segment
//! files.

use vstd::prelude::*;
use vstd::string::StrSliceExecFns;
use vstd::utf8::encode_utf8;
use crate::broker::{Broker, TopicLog, topic_shape, consumer_shape, mk_topic_shape,
    mk_consumer_shape, spec_log_index,
    lemma_log_index_props, lemma_log_index_neg, lemma_lookup_align, topic_entry_wf};
use crate::errors::BrokerError;
use crate::names::{lowercase, lower_of, name_ok, has_space, lemma_encode_utf8_injective,
    bytes_to_string};
use crate::registry::{Record, RecView, records_opt, recs, rec_index, start_of,
    read_record_at, write_record_at, append_record, compact_delete_at,
    find_by_name, min_live_cursor, bytes_eq, is_live, rec_wf,
    lemma_rec_index_some, lemma_parse_from_wf, parse_from, dec_at,
    lemma_dec_at_wf, decode_here, rec_size};
use crate::segment::events_opt;

verus! {

/// A live consumer record bound to the topic whose stored name is `name`.
pub open spec fn live_consumer_for(r: RecView, name: Seq<u8>) -> bool {
    is_live(consumer_shape(), r) && r.name == name
}

/// The minimum committed cursor segment id among live consumers of one
/// topic, or `None` when the topic has no live consumer.
pub open spec fn spec_min_cursor(crs: Seq<RecView>, name: Seq<u8>) -> Option<u64>
    decreases crs.len(),
{
    if crs.len() == 0 {
        None
    } else {
        let rest = spec_min_cursor(crs.drop_first(), name);
        if live_consumer_for(crs[0], name) {
            match rest {
                None => Some(crs[0].trailing[0]),
                Some(m) => if crs[0].trailing[0] < m {
                    Some(crs[0].trailing[0])
                } else {
                    Some(m)
                },
            }
        } else {
            rest
        }
    }
}

/// `spec_min_cursor` is `None` exactly when no live consumer is bound to
/// the topic, and otherwise is an attained lower bound of their cursors.
pub proof fn lemma_min_cursor_props(crs: Seq<RecView>, name: Seq<u8>)
    ensures
        match spec_min_cursor(crs, name) {
            None => forall|i: int| 0 <= i < crs.len() ==> !live_consumer_for(#[trigger] crs[i], name),
            Some(m) => {
                &&& exists|i: int|
                    0 <= i < crs.len() && live_consumer_for(#[trigger] crs[i], name)
                        && crs[i].trailing[0] == m
                &&& forall|i: int|
                    0 <= i < crs.len() && live_consumer_for(#[trigger] crs[i], name) ==> m
                        <= crs[i].trailing[0]
            },
        },
    decreases crs.len(),
{
    if crs.len() > 0 {
        let t = crs.drop_first();
        assert(forall|j: int| 0 <= j < t.len() ==> #[trigger] t[j] == crs[j + 1]);
        lemma_min_cursor_props(t, name);
        match spec_min_cursor(crs, name) {
            None => {
                assert forall|i: int| 0 <= i < crs.len() implies !live_consumer_for(
                    #[trigger] crs[i],
                    name,
                ) by {
                    if i > 0 {
                        assert(t[i - 1] == crs[i]);
                    }
                }
            },
            Some(m) => {
                if live_consumer_for(crs[0], name) {
                    match spec_min_cursor(t, name) {
                        None => {
                            assert(crs[0].trailing[0] == m);
                        },
                        Some(m2) => {
                            if crs[0].trailing[0] < m2 {
                            } else {
                                let w = choose|i: int|
                                    0 <= i < t.len() && live_consumer_for(#[trigger] t[i], name)
                                        && t[i].trailing[0] == m2;
                                assert(crs[w + 1] == t[w]);
                            }
                        },
                    }
                } else {
                    let w = choose|i: int|
                        0 <= i < t.len() && live_consumer_for(#[trigger] t[i], name)
                            && t[i].trailing[0] == m;
                    assert(crs[w + 1] == t[w]);
                }
                assert forall|i: int|
                    0 <= i < crs.len() && live_consumer_for(#[trigger] crs[i], name) implies m
                    <= crs[i].trailing[0] by {
                    if i > 0 {
                        assert(t[i - 1] == crs[i]);
                    }
                }
            },
        }
    }
}

/// Any attained lower bound is the minimum, so the quantified ensures of
/// the registry walk pin `spec_min_cursor` exactly.
pub proof fn lemma_min_cursor_unique(crs: Seq<RecView>, name: Seq<u8>, r: Option<u64>)
    requires
        match r {
            None => forall|i: int| 0 <= i < crs.len() ==> !live_consumer_for(#[trigger] crs[i], name),
            Some(m) => {
                &&& exists|i: int|
                    0 <= i < crs.len() && live_consumer_for(#[trigger] crs[i], name)
                        && crs[i].trailing[0] == m
                &&& forall|i: int|
                    0 <= i < crs.len() && live_consumer_for(#[trigger] crs[i], name) ==> m
                        <= crs[i].trailing[0]
            },
        },
    ensures
        spec_min_cursor(crs, name) == r,
{
    lemma_min_cursor_props(crs, name);
    match r {
        None => {
            if spec_min_cursor(crs, name) is Some {
                let w = choose|i: int|
                    0 <= i < crs.len() && live_consumer_for(#[trigger] crs[i], name)
                        && crs[i].trailing[0] == spec_min_cursor(crs, name)->Some_0;
                assert(false);
            }
        },
        Some(m) => {
            match spec_min_cursor(crs, name) {
                None => {
                    let w = choose|i: int|
                        0 <= i < crs.len() && live_consumer_for(#[trigger] crs[i], name)
                            && crs[i].trailing[0] == m;
                    assert(false);
                },
                Some(m2) => {
                    let w = choose|i: int|
                        0 <= i < crs.len() && live_consumer_for(#[trigger] crs[i], name)
                            && crs[i].trailing[0] == m;
                    let w2 = choose|i: int|
                        0 <= i < crs.len() && live_consumer_for(#[trigger] crs[i], name)
                            && crs[i].trailing[0] == m2;
                    assert(m <= m2 && m2 <= m);
                },
            }
        },
    }
}

/// A topic handle: the metadata fields of one topics-registry record.
#[derive(Debug)]
pub struct Topic {
    pub name: String,
    pub first_log_file: u64,
    pub curr_log_file: u64,
    pub offset: u64,
}

impl Topic {
    /// Creates a topic: case-folds and validates the name, allocates the
    /// log directory with segments `0` and `1`, and appends the registry
    /// record `{name, first: 0, curr: 0}`.
    pub fn new(b: &mut Broker, name: String) -> (r: Result<Topic, BrokerError>)
        requires
            old(b).wf(),
        ensures
            final(b).wf(),
            ({
                let folded = lower_of(name@);
                match r {
                    Err(e) => {
                        &&& *final(b) == *old(b)
                        &&& (e == BrokerError::InvalidName <==> has_space(folded))
                        &&& (e == BrokerError::InvalidName || e == BrokerError::TopicExists)
                        &&& (e == BrokerError::TopicExists ==> spec_log_index(
                            old(b).logs@,
                            folded,
                        ) >= 0)
                    },
                    Ok(t) => {
                        &&& !has_space(folded)
                        &&& spec_log_index(old(b).logs@, folded) < 0
                        &&& t.name@ == folded
                        &&& t.first_log_file == 0
                        &&& t.curr_log_file == 0
                        &&& t.offset as int == if old(b).topics is Some {
                            old(b).topics->Some_0@.len() as int
                        } else {
                            0
                        }
                        &&& final(b).topics is Some
                        &&& final(b).topic_recs() == (if old(b).topics is Some {
                            old(b).topic_recs()
                        } else {
                            Seq::<RecView>::empty()
                        }).push(
                            RecView {
                                key: Seq::empty(),
                                name: encode_utf8(folded),
                                trailing: seq![0u64, 0u64],
                            },
                        )
                        &&& final(b).logs@.len() == old(b).logs@.len() + 1
                        &&& (forall|i: int|
                            0 <= i < old(b).logs@.len() ==> final(b).logs@[i] == old(b).logs@[i])
                        &&& final(b).logs@.last().name@ == folded
                        &&& final(b).logs@.last().base == 0
                        &&& final(b).logs@.last().segs@.len() == 2
                        &&& final(b).logs@.last().segs@[0]@ == Seq::<u8>::empty()
                        &&& final(b).logs@.last().segs@[1]@ == Seq::<u8>::empty()
                        &&& final(b).producers == old(b).producers
                        &&& final(b).consumers == old(b).consumers
                    },
                }
            }),
    {
        let folded = lowercase(name.as_str());
        if !name_ok(folded.as_str()) {
            return Err(BrokerError::InvalidName);
        }
        if b.topic_exists(folded.as_str()) {
            return Err(BrokerError::TopicExists);
        }
        if b.topics.is_none() {
            b.topics = Some(Vec::new());
            proof {
                assert(records_opt(topic_shape(), b.topics->Some_0@) == Some(
                    Seq::<RecView>::empty(),
                ));
                assert(recs(topic_shape(), b.topics->Some_0@) =~= Seq::<RecView>::empty());
            }
        }
        let mut trailing: Vec<u64> = Vec::new();
        trailing.push(0);
        trailing.push(0);
        let rec = Record { key: Vec::new(), name: folded.as_str().as_bytes_vec(), trailing };
        let name_len = rec.name.len();
        proof {
            assert(rec@.trailing =~= seq![0u64, 0u64]);
            assert(rec.name@.len() == name_len);
            assert(rec_wf(topic_shape(), rec@));
        }
        let ghost rs_before = b.topic_recs();
        let off: u64;
        match &mut b.topics {
            Some(f) => {
                off = append_record(f, mk_topic_shape(), &rec);
            },
            None => {
                proof {
                    assert(false);
                }
                return Err(BrokerError::IoFailure);
            },
        }
        let mut segs: Vec<Vec<u8>> = Vec::new();
        segs.push(Vec::new());
        segs.push(Vec::new());
        let entry = TopicLog { name: folded.clone(), base: 0, segs };
        let ghost logs_before = b.logs@;
        b.logs.push(entry);
        let t = Topic { name: folded, first_log_file: 0, curr_log_file: 0, offset: off };
        proof {
            let rs2 = b.topic_recs();
            assert(rs2 == rs_before.push(rec@));
            assert(b.logs@ == logs_before.push(entry));
            assert(b.logs@.last() == entry);
            assert(entry.segs@[0]@ =~= Seq::<u8>::empty());
            assert(entry.segs@[1]@ =~= Seq::<u8>::empty());
            // the new pair is well formed
            assert(events_opt(Seq::<u8>::empty()) is Some);
            assert(topic_entry_wf(entry, rec@));
            // old pairs survive the push
            assert forall|i: int| 0 <= i < b.logs@.len() implies topic_entry_wf(
                #[trigger] b.logs@[i],
                rs2[i],
            ) by {
                if i < logs_before.len() {
                    assert(b.logs@[i] == logs_before[i]);
                    assert(rs2[i] == rs_before[i]);
                } else {
                    assert(b.logs@[i] == entry);
                    assert(rs2[i] == rec@);
                }
            }
            // nothing else bears the new name
            lemma_log_index_neg(logs_before, folded@);
            assert forall|i: int, j: int| 0 <= i < j < b.logs@.len() implies (
            #[trigger] rs2[i]).name != (#[trigger] rs2[j]).name by {
                if j < logs_before.len() {
                } else {
                    // j is the new record
                    assert(rs2[j] == rec@);
                    assert(rs2[i] == rs_before[i]);
                    assert(topic_entry_wf(logs_before[i], rs_before[i]));
                    if rs2[i].name == rec@.name {
                        lemma_encode_utf8_injective(logs_before[i].name@, folded@);
                    }
                }
            }
        }
        Ok(t)
    }

    /// Reads a topic's record by name.
    pub fn hydrate(b: &Broker, name: &str) -> (r: Result<Topic, BrokerError>)
        requires
            b.wf(),
        ensures
            ({
                let li = spec_log_index(b.logs@, name@);
                match r {
                    Err(e) => e == BrokerError::UnknownTopic && li < 0,
                    Ok(t) => {
                        &&& li >= 0
                        &&& t.name@ == name@
                        &&& t.first_log_file == b.topic_recs()[li].trailing[0]
                        &&& t.curr_log_file == b.topic_recs()[li].trailing[1]
                        &&& t.offset as int == start_of(topic_shape(), b.topic_recs(), li)
                        &&& rec_index(topic_shape(), b.topic_recs(), t.offset as int) == li
                    },
                }
            }),
    {
        let li = match b.find_log(name) {
            None => {
                return Err(BrokerError::UnknownTopic);
            },
            Some(i) => i,
        };
        proof {
            lemma_log_index_props(b.logs@, name@);
            lemma_lookup_align(b.logs@, b.topic_recs(), name@);
        }
        match &b.topics {
            Some(f) => {
                let nb = name.as_bytes_vec();
                match find_by_name(f, mk_topic_shape(), &nb) {
                    Some((off, rec)) => {
                        Ok(
                            Topic {
                                name: name.to_owned(),
                                first_log_file: rec.trailing[0],
                                curr_log_file: rec.trailing[1],
                                offset: off,
                            },
                        )
                    },
                    None => {
                        proof {
                            assert(false);
                        }
                        Err(BrokerError::UnknownTopic)
                    },
                }
            },
            None => {
                proof {
                    assert(false);
                }
                Err(BrokerError::UnknownTopic)
            },
        }
    }

    /// Deletes the topic: compacts its record out of the registry and
    /// removes its log directory. Later topics' registry addresses shrink;
    /// topic addresses are not embedded in any token, so none leaks.
    pub fn delete(&self, b: &mut Broker) -> (r: Result<(), BrokerError>)
        requires
            old(b).wf(),
        ensures
            final(b).wf(),
            ({
                let li = spec_log_index(old(b).logs@, self.name@);
                match r {
                    Err(e) => {
                        &&& e == BrokerError::UnknownTopic
                        &&& li < 0
                        &&& *final(b) == *old(b)
                    },
                    Ok(_) => {
                        &&& li >= 0
                        &&& final(b).topics is Some
                        &&& final(b).topic_recs() == old(b).topic_recs().remove(li)
                        &&& final(b).logs@ == old(b).logs@.remove(li)
                        &&& final(b).producers == old(b).producers
                        &&& final(b).consumers == old(b).consumers
                    },
                }
            }),
    {
        let li = match b.find_log(self.name.as_str()) {
            None => {
                return Err(BrokerError::UnknownTopic);
            },
            Some(i) => i,
        };
        proof {
            lemma_log_index_props(b.logs@, self.name@);
            lemma_lookup_align(b.logs@, b.topic_recs(), self.name@);
        }
        let ghost rs = b.topic_recs();
        let ghost logs_before = b.logs@;
        let nb = self.name.as_str().as_bytes_vec();
        match &mut b.topics {
            Some(f) => {
                let found = find_by_name(f, mk_topic_shape(), &nb);
                match found {
                    Some(pair) => {
                        let del = compact_delete_at(f, mk_topic_shape(), pair.0);
                        proof {
                            assert(del is Ok);
                        }
                    },
                    None => {
                        proof {
                            assert(false);
                        }
                        return Err(BrokerError::UnknownTopic);
                    },
                }
            },
            None => {
                proof {
                    assert(false);
                }
                return Err(BrokerError::UnknownTopic);
            },
        }
        b.logs.remove(li);
        proof {
            let rs2 = b.topic_recs();
            assert(rs2 == rs.remove(li as int));
            assert(b.logs@ == logs_before.remove(li as int));
            assert forall|i: int| 0 <= i < b.logs@.len() implies topic_entry_wf(
                #[trigger] b.logs@[i],
                rs2[i],
            ) by {
                if i < li {
                    assert(b.logs@[i] == logs_before[i]);
                    assert(rs2[i] == rs[i]);
                } else {
                    assert(b.logs@[i] == logs_before[i + 1]);
                    assert(rs2[i] == rs[i + 1]);
                }
            }
            assert forall|i: int, j: int| 0 <= i < j < b.logs@.len() implies (
            #[trigger] rs2[i]).name != (#[trigger] rs2[j]).name by {
                let i0 = if i < li {
                    i
                } else {
                    i + 1
                };
                let j0 = if j < li {
                    j
                } else {
                    j + 1
                };
                assert(rs2[i] == rs[i0]);
                assert(rs2[j] == rs[j0]);
            }
        }
        Ok(())
    }

    /// Rotates the active segment: increments `curr_log_file`, persists
    /// it, and creates the next empty segment file so that the active
    /// segment always has a successor ready.
    pub fn bump(&mut self, b: &mut Broker) -> (r: Result<(), BrokerError>)
        requires
            old(b).wf(),
        ensures
            final(b).wf(),
            ({
                let rs = old(b).topic_recs();
                let i = rec_index(topic_shape(), rs, old(self).offset as int);
                if old(b).topics is None {
                    r == Err::<(), BrokerError>(BrokerError::IoFailure) && *final(b) == *old(b)
                        && *final(self) == *old(self)
                } else if i < 0 || rs[i].name != encode_utf8(old(self).name@) {
                    r == Err::<(), BrokerError>(BrokerError::CorruptRecord) && *final(b) == *old(b)
                        && *final(self) == *old(self)
                } else if rs[i].trailing[1] == u64::MAX {
                    r == Err::<(), BrokerError>(BrokerError::IoFailure) && *final(b) == *old(b)
                        && *final(self) == *old(self)
                } else {
                    let curr2 = (rs[i].trailing[1] + 1) as u64;
                    &&& r is Ok
                    &&& final(b).topics is Some
                    &&& final(b).topic_recs() == rs.update(
                        i,
                        RecView {
                            key: rs[i].key,
                            name: rs[i].name,
                            trailing: seq![rs[i].trailing[0], curr2],
                        },
                    )
                    &&& final(b).logs@.len() == old(b).logs@.len()
                    &&& (forall|j: int|
                        0 <= j < old(b).logs@.len() && j != i ==> final(b).logs@[j] == old(
                            b,
                        ).logs@[j])
                    &&& final(b).logs@[i].name == old(b).logs@[i].name
                    &&& final(b).logs@[i].base == old(b).logs@[i].base
                    &&& final(b).logs@[i].segs@.len() == old(b).logs@[i].segs@.len() + 1
                    &&& (forall|s: int|
                        0 <= s < old(b).logs@[i].segs@.len() ==> final(b).logs@[i].segs@[s] == old(
                            b,
                        ).logs@[i].segs@[s])
                    &&& final(b).logs@[i].segs@.last()@ == Seq::<u8>::empty()
                    &&& final(b).producers == old(b).producers
                    &&& final(b).consumers == old(b).consumers
                    &&& final(self).name == old(self).name
                    &&& final(self).offset == old(self).offset
                    &&& final(self).first_log_file == rs[i].trailing[0]
                    &&& final(self).curr_log_file == curr2
                }
            }),
    {
        let li_opt = b.find_log(self.name.as_str());
        let ghost rs = b.topic_recs();
        if b.topics.is_none() {
            return Err(BrokerError::IoFailure);
        }
        let first: u64;
        let curr: u64;
        match &mut b.topics {
            Some(f) => {
                let rec = match read_record_at(f, mk_topic_shape(), self.offset) {
                    Err(_) => {
                        return Err(BrokerError::CorruptRecord);
                    },
                    Ok(rec) => rec,
                };
                let nb = self.name.as_str().as_bytes_vec();
                if !bytes_eq(&rec.name, &nb) {
                    return Err(BrokerError::CorruptRecord);
                }
                first = rec.trailing[0];
                curr = rec.trailing[1];
                if curr == u64::MAX {
                    return Err(BrokerError::IoFailure);
                }
                let mut trailing: Vec<u64> = Vec::new();
                trailing.push(first);
                trailing.push(curr + 1);
                let rec2 = Record { key: rec.key, name: rec.name, trailing };
                proof {
                    assert(rec2@.trailing =~= seq![first, (curr + 1) as u64]);
                }
                let wr = write_record_at(f, mk_topic_shape(), self.offset, &rec2);
                proof {
                    assert(wr is Ok);
                }
            },
            None => {
                proof {
                    assert(false);
                }
                return Err(BrokerError::IoFailure);
            },
        }
        let ghost i = rec_index(topic_shape(), rs, self.offset as int);
        let ghost logs_before = b.logs@;
        proof {
            lemma_rec_index_some(topic_shape(), rs, self.offset as int);
            // the record bears this topic's name, so by uniqueness its log
            // entry is at the same index and the lookup found it
            assert(topic_entry_wf(old(b).logs@[i], rs[i]));
            lemma_encode_utf8_injective(old(b).logs@[i].name@, old(self).name@);
            assert(old(b).logs@[i].name@ == old(self).name@);
            if spec_log_index(old(b).logs@, old(self).name@) < 0 {
                lemma_log_index_neg(old(b).logs@, old(self).name@);
                assert(false);
            }
            lemma_log_index_props(old(b).logs@, old(self).name@);
            let li = spec_log_index(old(b).logs@, old(self).name@);
            assert(topic_entry_wf(old(b).logs@[li], rs[li]));
            if li != i {
                assert(rs[li].name == rs[i].name);
                assert(false);
            }
        }
        let li = match li_opt {
            Some(x) => x,
            None => {
                proof {
                    assert(false);
                }
                return Err(BrokerError::IoFailure);
            },
        };
        b.logs[li].segs.push(Vec::new());
        self.first_log_file = first;
        self.curr_log_file = curr + 1;
        proof {
            let rs2 = b.topic_recs();
            assert(b.logs@ == logs_before.update(
                li as int,
                TopicLog {
                    name: logs_before[li as int].name,
                    base: logs_before[li as int].base,
                    segs: b.logs@[li as int].segs,
                },
            ));
            assert(events_opt(Seq::<u8>::empty()) is Some);
            assert forall|j: int| 0 <= j < b.logs@.len() implies topic_entry_wf(
                #[trigger] b.logs@[j],
                rs2[j],
            ) by {
                if j != li as int {
                    assert(b.logs@[j] == logs_before[j]);
                    assert(rs2[j] == rs[j]);
                    assert(topic_entry_wf(logs_before[j], rs[j]));
                } else {
                    assert(topic_entry_wf(logs_before[j], rs[j]));
                    assert forall|s: int|
                        0 <= s < b.logs@[j].segs@.len() implies events_opt(
                        (#[trigger] b.logs@[j].segs@[s])@) is Some by {
                        if s < logs_before[j].segs@.len() {
                            assert(b.logs@[j].segs@[s] == logs_before[j].segs@[s]);
                        }
                    }
                }
            }
            assert forall|x: int, y: int| 0 <= x < y < b.logs@.len() implies (
            #[trigger] rs2[x]).name != (#[trigger] rs2[y]).name by {
                assert(rs2[x].name == rs[x].name);
                assert(rs2[y].name == rs[y].name);
            }
        }
        Ok(())
    }

    /// Retention: sets the topic's floor to the minimum committed cursor
    /// among its live consumers (unchanged when it has none, and never
    /// past the active segment), persists it, then deletes segment files
    /// from id `0` upward, stopping at the first missing id.
    pub fn cleanup(&mut self, b: &mut Broker) -> (r: Result<(), BrokerError>)
        requires
            old(b).wf(),
        ensures
            final(b).wf(),
            ({
                let rs = old(b).topic_recs();
                let i = rec_index(topic_shape(), rs, old(self).offset as int);
                if old(b).topics is None {
                    r == Err::<(), BrokerError>(BrokerError::IoFailure) && *final(b) == *old(b)
                        && *final(self) == *old(self)
                } else if i < 0 || rs[i].name != encode_utf8(old(self).name@) {
                    r == Err::<(), BrokerError>(BrokerError::CorruptRecord) && *final(b) == *old(b)
                        && *final(self) == *old(self)
                } else if old(b).consumers is None {
                    r == Err::<(), BrokerError>(BrokerError::IoFailure) && *final(b) == *old(b)
                        && *final(self) == *old(self)
                } else {
                    let curr = rs[i].trailing[1];
                    let m = spec_min_cursor(old(b).consumer_recs(), rs[i].name);
                    let floor_raw = match m {
                        None => rs[i].trailing[0],
                        Some(x) => x,
                    };
                    let floor = if floor_raw > curr {
                        curr
                    } else {
                        floor_raw
                    };
                    let k = if old(b).logs@[i].base == 0 {
                        floor as int
                    } else {
                        0
                    };
                    &&& r is Ok
                    &&& final(b).topics is Some
                    &&& final(b).topic_recs() == rs.update(
                        i,
                        RecView {
                            key: rs[i].key,
                            name: rs[i].name,
                            trailing: seq![floor, curr],
                        },
                    )
                    &&& final(b).logs@.len() == old(b).logs@.len()
                    &&& (forall|j: int|
                        0 <= j < old(b).logs@.len() && j != i ==> final(b).logs@[j] == old(
                            b,
                        ).logs@[j])
                    &&& final(b).logs@[i].name == old(b).logs@[i].name
                    &&& final(b).logs@[i].base as int == old(b).logs@[i].base + k
                    &&& final(b).logs@[i].segs@ == old(b).logs@[i].segs@.skip(k)
                    &&& final(b).producers == old(b).producers
                    &&& final(b).consumers == old(b).consumers
                    &&& final(self).name == old(self).name
                    &&& final(self).offset == old(self).offset
                    &&& final(self).first_log_file == floor
                    &&& final(self).curr_log_file == curr
                }
            }),
    {
        let li_opt = b.find_log(self.name.as_str());
        let ghost rs = b.topic_recs();
        if b.topics.is_none() {
            return Err(BrokerError::IoFailure);
        }
        let first0: u64;
        let curr: u64;
        let nb = self.name.as_str().as_bytes_vec();
        match &b.topics {
            Some(f) => {
                let rec = match read_record_at(f, mk_topic_shape(), self.offset) {
                    Err(_) => {
                        return Err(BrokerError::CorruptRecord);
                    },
                    Ok(rec) => rec,
                };
                if !bytes_eq(&rec.name, &nb) {
                    return Err(BrokerError::CorruptRecord);
                }
                first0 = rec.trailing[0];
                curr = rec.trailing[1];
            },
            None => {
                proof {
                    assert(false);
                }
                return Err(BrokerError::IoFailure);
            },
        }
        let m: Option<u64>;
        match &b.consumers {
            Some(cf) => {
                m = min_live_cursor(cf, mk_consumer_shape(), &nb);
            },
            None => {
                return Err(BrokerError::IoFailure);
            },
        }
        proof {
            lemma_min_cursor_unique(b.consumer_recs(), nb@, m);
        }
        let floor_raw = match m {
            None => first0,
            Some(x) => x,
        };
        let floor = if floor_raw > curr {
            curr
        } else {
            floor_raw
        };
        match &mut b.topics {
            Some(f) => {
                let mut trailing: Vec<u64> = Vec::new();
                trailing.push(floor);
                trailing.push(curr);
                let rec2 = Record { key: Vec::new(), name: nb, trailing };
                proof {
                    lemma_rec_index_some(topic_shape(), rs, self.offset as int);
                    assert(rec2@.trailing =~= seq![floor, curr]);
                    assert(rec2@.key =~= rs[rec_index(
                        topic_shape(),
                        rs,
                        self.offset as int,
                    )].key);
                }
                let wr = write_record_at(f, mk_topic_shape(), self.offset, &rec2);
                proof {
                    assert(wr is Ok);
                }
            },
            None => {
                proof {
                    assert(false);
                }
                return Err(BrokerError::IoFailure);
            },
        }
        let ghost i = rec_index(topic_shape(), rs, self.offset as int);
        let ghost logs_before = b.logs@;
        proof {
            lemma_rec_index_some(topic_shape(), rs, self.offset as int);
            assert(topic_entry_wf(old(b).logs@[i], rs[i]));
            lemma_encode_utf8_injective(old(b).logs@[i].name@, old(self).name@);
            if spec_log_index(old(b).logs@, old(self).name@) < 0 {
                lemma_log_index_neg(old(b).logs@, old(self).name@);
                assert(false);
            }
            lemma_log_index_props(old(b).logs@, old(self).name@);
            let li = spec_log_index(old(b).logs@, old(self).name@);
            assert(topic_entry_wf(old(b).logs@[li], rs[li]));
            if li != i {
                assert(rs[li].name == rs[i].name);
                assert(false);
            }
        }
        let li = match li_opt {
            Some(x) => x,
            None => {
                proof {
                    assert(false);
                }
                return Err(BrokerError::IoFailure);
            },
        };
        let ghost tsnap = b.topics;
        if b.logs[li].base == 0 {
            let ghost segs0 = b.logs@[li as int].segs@;
            proof {
                assert(topic_entry_wf(logs_before[li as int], rs[li as int]));
                assert(segs0.len() == curr + 2);
                assert(b.logs@[li as int].segs@ =~= segs0.skip(0));
            }
            let mut cdel: u64 = 0;
            while cdel < floor
                invariant
                    0 <= cdel <= floor,
                    floor <= curr,
                    li < b.logs@.len(),
                    b.logs@.len() == logs_before.len(),
                    forall|j: int| 0 <= j < b.logs@.len() && j != li ==> b.logs@[j] == logs_before[j],
                    b.logs@[li as int].name == logs_before[li as int].name,
                    b.logs@[li as int].base == 0,
                    b.logs@[li as int].segs@ == segs0.skip(cdel as int),
                    segs0.len() == curr + 2,
                    b.topics == tsnap,
                    b.producers == old(b).producers,
                    b.consumers == old(b).consumers,
                decreases floor - cdel,
            {
                proof {
                    assert(b.logs@[li as int].segs@.len() == segs0.len() - cdel);
                }
                let ghost before = b.logs@[li as int].segs@;
                b.logs[li].segs.remove(0);
                proof {
                    assert(b.logs@[li as int].segs@ =~= segs0.skip(cdel as int + 1)) by {
                        assert(b.logs@[li as int].segs@ == before.remove(0));
                        assert(before.remove(0) =~= before.skip(1));
                        assert(before.skip(1) =~= segs0.skip(cdel as int + 1));
                    }
                }
                cdel = cdel + 1;
            }
            b.logs[li].base = floor;
        }
        self.first_log_file = floor;
        self.curr_log_file = curr;
        proof {
            let rs2 = b.topic_recs();
            let k: int = if logs_before[i].base == 0 {
                floor as int
            } else {
                0
            };
            if logs_before[i].base != 0 {
                assert(b.logs@[i].segs@ =~= logs_before[i].segs@.skip(0));
            }
            assert forall|j: int| 0 <= j < b.logs@.len() implies topic_entry_wf(
                #[trigger] b.logs@[j],
                rs2[j],
            ) by {
                if j != i {
                    assert(b.logs@[j] == logs_before[j]);
                    assert(rs2[j] == rs[j]);
                    assert(topic_entry_wf(logs_before[j], rs[j]));
                } else {
                    assert(topic_entry_wf(logs_before[j], rs[j]));
                    assert(rs2[j].trailing == seq![floor, curr]);
                    assert(b.logs@[j].segs@.len() == logs_before[j].segs@.len() - k);
                    assert forall|s: int|
                        0 <= s < b.logs@[j].segs@.len() implies events_opt(
                        (#[trigger] b.logs@[j].segs@[s])@) is Some by {
                        assert(b.logs@[j].segs@[s] == logs_before[j].segs@[s + k]);
                    }
                }
            }
            assert forall|x: int, y: int| 0 <= x < y < b.logs@.len() implies (
            #[trigger] rs2[x]).name != (#[trigger] rs2[y]).name by {
                assert(rs2[x].name == rs[x].name);
                assert(rs2[y].name == rs[y].name);
            }
        }
        Ok(())
    }
}



/// Lists every topic: name, retention floor, active segment id, and
/// registry address, in file order.
pub fn list_topics(b: &Broker) -> (r: Result<Vec<Topic>, BrokerError>)
    requires
        b.wf(),
    ensures
        ({
            if b.topics is None {
                r == Err::<Vec<Topic>, BrokerError>(BrokerError::IoFailure)
            } else {
                let rs = b.topic_recs();
                match r {
                    Ok(v) => {
                        &&& v@.len() == rs.len()
                        &&& forall|i: int|
                            0 <= i < rs.len() ==> {
                                &&& encode_utf8((#[trigger] v@[i]).name@) == rs[i].name
                                &&& v@[i].first_log_file == rs[i].trailing[0]
                                &&& v@[i].curr_log_file == rs[i].trailing[1]
                                &&& v@[i].offset as int == start_of(topic_shape(), rs, i)
                            }
                    },
                    Err(_) => false,  // under wf every stored name is valid UTF-8
                }
            }
        }),
{
    let file = match &b.topics {
        None => {
            return Err(BrokerError::IoFailure);
        },
        Some(f) => f,
    };
    let sh = mk_topic_shape();
    proof {
        lemma_parse_from_wf(topic_shape(), file@, 0);
    }
    let ghost rs = recs(topic_shape(), file@);
    let n = file.len();
    let mut out: Vec<Topic> = Vec::new();
    let mut p: usize = 0;
    let ghost mut k: int = 0int;
    proof {
        assert(rs.skip(0) =~= rs);
    }
    while p < n
        invariant
            b.wf(),
            b.topics is Some,
            file == b.topics->Some_0,
            records_opt(topic_shape(), file@) is Some,
            rs == recs(topic_shape(), file@),
            sh == topic_shape(),
            n == file.len(),
            0 <= k <= rs.len(),
            p as int == start_of(topic_shape(), rs, k),
            p <= n,
            parse_from(topic_shape(), file@, p as int) == Some(rs.skip(k)),
            out@.len() == k,
            forall|i: int|
                0 <= i < k ==> {
                    &&& encode_utf8((#[trigger] out@[i]).name@) == rs[i].name
                    &&& out@[i].first_log_file == rs[i].trailing[0]
                    &&& out@[i].curr_log_file == rs[i].trailing[1]
                    &&& out@[i].offset as int == start_of(topic_shape(), rs, i)
                },
        decreases n - p,
    {
        proof {
            assert(rs.skip(k).len() > 0);
            assert(dec_at(topic_shape(), file@, p as int) == Some(rs.skip(k)[0]));
            assert(rs.skip(k)[0] == rs[k]);
            lemma_dec_at_wf(topic_shape(), file@, p as int);
        }
        let out_here = decode_here(file, sh, p);
        let rec = out_here.0;
        let sz = out_here.1;
        proof {
            assert(topic_entry_wf(b.logs@[k], rs[k]));
            vstd::utf8::encode_utf8_valid_utf8(b.logs@[k].name@);
        }
        let name = match bytes_to_string(rec.name) {
            None => {
                proof {
                    assert(false);
                }
                return Err(BrokerError::CorruptRecord);
            },
            Some(s) => s,
        };
        out.push(
            Topic {
                name,
                first_log_file: rec.trailing[0],
                curr_log_file: rec.trailing[1],
                offset: p as u64,
            },
        );
        proof {
            assert(sz as int == rec_size(topic_shape(), rs[k]));
            assert(parse_from(topic_shape(), file@, p as int + sz as int) == Some(
                rs.skip(k + 1),
            )) by {
                assert(rs.skip(k).drop_first() =~= rs.skip(k + 1));
            }
            assert(start_of(topic_shape(), rs, k + 1) == p as int + sz as int);
            k = k + 1;
        }
        p = p + sz;
    }
    proof {
        assert(parse_from(topic_shape(), file@, n as int) == Some(Seq::<RecView>::empty()));
        assert(k == rs.len());
    }
    Ok(out)
}

} // verus!
