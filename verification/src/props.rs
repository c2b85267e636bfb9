//! The broker's delivery laws, stated over the spec-level views of the
//! state and proved once for all states the contracts allow.

use vstd::prelude::*;
use crate::broker::{Broker, TopicLog, spec_log_index,
    lemma_log_index_props, topic_entry_wf, ROTATE_THRESHOLD};
use crate::consumer::{ReadStep, spec_read_step};
use crate::keys::{key_valid, lemma_key_bytes};
use crate::registry::{RecView, zero_key};
use crate::segment::{events_opt, events, events_from, spec_read_event, lemma_events_from_head,
    lemma_events_append};
use crate::topic::{live_consumer_for, spec_min_cursor, lemma_min_cursor_props};
use crate::be64::spec_u64_to_be_bytes;
use vstd::utf8::encode_utf8;

verus! {

/// The events of segment `sid` of log `li`.
pub open spec fn seg_events(b: Broker, li: int, sid: int) -> Seq<Seq<u8>> {
    events(b.logs@[li].segs@[sid - b.logs@[li].base]@)
}

/// The events of segments `from .. to` of log `li`, concatenated in
/// segment order.
pub open spec fn stream_segs(b: Broker, li: int, from: int, to: int) -> Seq<Seq<u8>>
    decreases to - from,
{
    if from >= to {
        Seq::empty()
    } else {
        seg_events(b, li, from) + stream_segs(b, li, from + 1, to)
    }
}

/// The whole readable stream of topic `li`: every event in segments
/// `base ..= curr`.
pub open spec fn topic_stream(b: Broker, li: int) -> Seq<Seq<u8>> {
    stream_segs(b, li, b.logs@[li].base as int, b.topic_recs()[li].trailing[1] + 1)
}

/// The events at and after cursor `(f, off)`: the rest of segment `f`,
/// then every later segment up to the active one.
pub open spec fn stream_from(b: Broker, li: int, f: u64, off: u64) -> Seq<Seq<u8>> {
    let tail = events_from(b.logs@[li].segs@[f - b.logs@[li].base]@, off as int);
    (match tail {
        Some(es) => es,
        None => Seq::empty(),
    }) + stream_segs(b, li, f + 1, b.topic_recs()[li].trailing[1] + 1)
}

/// Segmentwise-equal ranges have equal streams.
pub proof fn lemma_stream_segs_congruence(b0: Broker, b1: Broker, li0: int, li1: int, from: int, to: int)
    requires
        forall|s: int|
            from <= s < to ==> #[trigger] seg_events(b1, li1, s) == seg_events(b0, li0, s),
    ensures
        stream_segs(b1, li1, from, to) == stream_segs(b0, li0, from, to),
    decreases to - from,
{
    if from < to {
        lemma_stream_segs_congruence(b0, b1, li0, li1, from + 1, to);
    }
}

/// A range splits off its last segment.
pub proof fn lemma_stream_segs_split_last(b: Broker, li: int, from: int, to: int)
    requires
        from < to,
    ensures
        stream_segs(b, li, from, to) == stream_segs(b, li, from, to - 1) + seg_events(
            b,
            li,
            to - 1,
        ),
    decreases to - from,
{
    if from + 1 == to {
        assert(stream_segs(b, li, from, from) == Seq::<Seq<u8>>::empty());
        assert(stream_segs(b, li, to, to) == Seq::<Seq<u8>>::empty());
        assert(stream_segs(b, li, from, to) =~= stream_segs(b, li, from, to - 1) + seg_events(
            b,
            li,
            to - 1,
        ));
    } else {
        lemma_stream_segs_split_last(b, li, from + 1, to);
        assert(stream_segs(b, li, from, to) =~= stream_segs(b, li, from, to - 1) + seg_events(
            b,
            li,
            to - 1,
        ));
    }
}

/// What `Producer::write` guarantees of the broker state on success,
/// gathered as one relation between the state before and after.
pub open spec fn write_post(b0: Broker, b1: Broker, li: int, content: Seq<u8>) -> bool {
    let rs = b0.topic_recs();
    let lg = b0.logs@[li];
    let curr = rs[li].trailing[1];
    let rotate = lg.segs@[curr - lg.base]@.len() >= ROTATE_THRESHOLD;
    let curr2: u64 = if rotate {
        (curr + 1) as u64
    } else {
        curr
    };
    let widx = curr2 - lg.base;
    &&& 0 <= li < b0.logs@.len()
    &&& (rotate ==> curr < u64::MAX)
    &&& b1.topic_recs() == (if rotate {
        rs.update(
            li,
            RecView { key: rs[li].key, name: rs[li].name, trailing: seq![rs[li].trailing[0], curr2] },
        )
    } else {
        rs
    })
    &&& b1.logs@.len() == b0.logs@.len()
    &&& (forall|j: int| 0 <= j < b0.logs@.len() && j != li ==> b1.logs@[j] == b0.logs@[j])
    &&& b1.logs@[li].name == lg.name
    &&& b1.logs@[li].base == lg.base
    &&& b1.logs@[li].segs@.len() == lg.segs@.len() + (if rotate {
        1int
    } else {
        0int
    })
    &&& (forall|s: int|
        0 <= s < lg.segs@.len() && s != widx ==> b1.logs@[li].segs@[s] == lg.segs@[s])
    &&& b1.logs@[li].segs@[widx as int]@ == lg.segs@[widx as int]@ + spec_u64_to_be_bytes(
        content.len() as u64,
    ) + content
    &&& (rotate ==> b1.logs@[li].segs@.last()@ == Seq::<u8>::empty())
}

/// Round-trip and rotation transparency, write side: a successful write
/// appends exactly the written payload to the topic's stream, whether or
/// not the active segment rotated. Requires only that the pre-created
/// next segment was still empty when a rotation consumed it, which every
/// rotation of this broker guarantees.
pub proof fn lemma_write_appends_stream(b0: Broker, b1: Broker, li: int, content: Seq<u8>)
    requires
        b0.wf(),
        0 <= li < b0.logs@.len(),
        write_post(b0, b1, li, content),
        content.len() <= u64::MAX,
        ({
            let lg = b0.logs@[li];
            let curr = b0.topic_recs()[li].trailing[1];
            lg.segs@[curr - lg.base]@.len() >= ROTATE_THRESHOLD ==> lg.segs@[curr + 1
                - lg.base]@.len() == 0
        }),
    ensures
        topic_stream(b1, li) == topic_stream(b0, li).push(content),
{
    let rs = b0.topic_recs();
    let lg = b0.logs@[li];
    let base = lg.base as int;
    let curr = rs[li].trailing[1];
    let rotate = lg.segs@[curr - lg.base]@.len() >= ROTATE_THRESHOLD;
    assert(topic_entry_wf(lg, rs[li]));
    let cidx = curr - base;
    if rotate {
        let curr2 = curr + 1;
        let widx = curr2 - base;
        // unchanged segments up to and including the old active one
        assert forall|s: int| base <= s < curr + 1 implies #[trigger] seg_events(b1, li, s)
            == seg_events(b0, li, s) by {
            assert(b1.logs@[li].segs@[s - base] == lg.segs@[s - base]);
        }
        lemma_stream_segs_congruence(b0, b1, li, li, base, curr + 1);
        lemma_stream_segs_split_last(b1, li, base, curr + 2);
        // the rotated-into segment was empty and now holds the payload
        assert(events_opt(lg.segs@[widx]@) == Some(Seq::<Seq<u8>>::empty()));
        lemma_events_append(lg.segs@[widx]@, 0, content);
        assert(seg_events(b1, li, curr + 1) =~= Seq::<Seq<u8>>::empty().push(content));
        assert(topic_stream(b1, li) =~= topic_stream(b0, li).push(content));
    } else {
        assert forall|s: int| base <= s < curr implies #[trigger] seg_events(b1, li, s)
            == seg_events(b0, li, s) by {
            assert(b1.logs@[li].segs@[s - base] == lg.segs@[s - base]);
        }
        lemma_stream_segs_congruence(b0, b1, li, li, base, curr as int);
        lemma_stream_segs_split_last(b0, li, base, curr as int + 1);
        lemma_stream_segs_split_last(b1, li, base, curr as int + 1);
        assert(events_opt(lg.segs@[cidx]@) is Some);
        lemma_events_append(lg.segs@[cidx]@, 0, content);
        assert(seg_events(b1, li, curr as int) =~= seg_events(b0, li, curr as int).push(content));
        assert(topic_stream(b1, li) =~= topic_stream(b0, li).push(content));
    }
}

/// Round-trip, read side: a consumer whose cursor sits at the end of the
/// active segment reads back exactly the payload a write then appended.
pub proof fn lemma_round_trip(b0: Broker, b1: Broker, topic: Seq<char>, content: Seq<u8>, f: u64, off: u64)
    requires
        b0.wf(),
        spec_log_index(b0.logs@, topic) >= 0,
        ({
            let li = spec_log_index(b0.logs@, topic);
            &&& f == b0.topic_recs()[li].trailing[1]
            &&& off == b0.logs@[li].segs@[f - b0.logs@[li].base]@.len()
        }),
        write_post(b0, b1, spec_log_index(b0.logs@, topic), content),
        b1.logs@.len() == b0.logs@.len(),
        forall|j: int| 0 <= j < b1.logs@.len() ==> (#[trigger] b1.logs@[j]).name == b0.logs@[j].name,
        content.len() <= u64::MAX,
        off + 8 + content.len() <= u64::MAX,
        ({
            let li = spec_log_index(b0.logs@, topic);
            let lg = b0.logs@[li];
            lg.segs@[f - lg.base]@.len() >= ROTATE_THRESHOLD ==> lg.segs@[f + 1
                - lg.base]@.len() == 0
        }),
    ensures
        ({
            let li = spec_log_index(b0.logs@, topic);
            let lg = b0.logs@[li];
            let rotate = lg.segs@[f - lg.base]@.len() >= ROTATE_THRESHOLD;
            spec_read_step(b1, topic, f, off) == (if rotate {
                ReadStep::Event {
                    payload: content,
                    f2: (f + 1) as u64,
                    off2: (8 + content.len()) as u64,
                }
            } else {
                ReadStep::Event {
                    payload: content,
                    f2: f,
                    off2: (off + 8 + content.len()) as u64,
                }
            })
        }),
{
    let li = spec_log_index(b0.logs@, topic);
    lemma_log_index_props(b0.logs@, topic);
    lemma_log_index_names(b0.logs@, b1.logs@, topic);
    assert(spec_log_index(b1.logs@, topic) == li);
    let rs = b0.topic_recs();
    let lg = b0.logs@[li];
    let base = lg.base as int;
    let curr = rs[li].trailing[1];
    assert(topic_entry_wf(lg, rs[li]));
    let rotate = lg.segs@[f - lg.base]@.len() >= ROTATE_THRESHOLD;
    let enc = spec_u64_to_be_bytes(content.len() as u64);
    crate::be64::lemma_u64_be_bytes_roundtrip();
    if rotate {
        let widx = curr + 1 - base;
        let seg1 = b1.logs@[li].segs@[f - base]@;
        assert(b1.logs@[li].segs@[f - base] == lg.segs@[f - base]);
        assert(off == seg1.len());
        assert(b1.topic_recs()[li].trailing[1] == f + 1);
        let seg2 = b1.logs@[li].segs@[widx]@;
        assert(seg2 == lg.segs@[widx]@ + enc + content);
        // the pre-created segment was empty, so the payload is its
        // first record and the rollover read starts at offset zero
        assert(lg.segs@[widx]@.len() == 0);
        assert(spec_read_event(seg2, 0) == Some((content, 8 + content.len() as int))) by {
            assert(seg2.subrange(0, 8) =~= enc);
            assert(seg2.subrange(8, 8 + content.len() as int) =~= content);
        }
    } else {
        let seg1 = b1.logs@[li].segs@[f - base]@;
        assert(seg1 == lg.segs@[f - base]@ + enc + content);
        assert(off < seg1.len());
        assert(seg1.subrange(off as int, off + 8) =~= enc);
        assert(spec_read_event(seg1, off as int) == Some((content, 8 + content.len() as int)))
            by {
            assert(seg1.subrange(off + 8, off + 8 + content.len()) =~= content);
        }
    }
}

/// Lookup by name sees only names.
pub proof fn lemma_log_index_names(l0: Seq<TopicLog>, l1: Seq<TopicLog>, name: Seq<char>)
    requires
        l0.len() == l1.len(),
        forall|j: int| 0 <= j < l0.len() ==> (#[trigger] l1[j]).name == l0[j].name,
    ensures
        spec_log_index(l1, name) == spec_log_index(l0, name),
    decreases l0.len(),
{
    if l0.len() > 0 {
        let t0 = l0.drop_first();
        let t1 = l1.drop_first();
        assert(forall|j: int| 0 <= j < t0.len() ==> #[trigger] t0[j] == l0[j + 1]);
        assert(forall|j: int| 0 <= j < t1.len() ==> #[trigger] t1[j] == l1[j + 1]);
        lemma_log_index_names(t0, t1, name);
    }
}


/// A read's outcome depends only on the logs and the topics registry:
/// persisting a cursor or a key never changes what a read at a given
/// cursor returns. With the two states equal this is redelivery itself:
/// an unacknowledged durable read leaves the broker untouched, so reading
/// again returns the very same event.
pub proof fn lemma_read_step_state(b0: Broker, b1: Broker, topic: Seq<char>, f: u64, off: u64)
    requires
        b1.logs == b0.logs,
        b1.topics == b0.topics,
    ensures
        spec_read_step(b1, topic, f, off) == spec_read_step(b0, topic, f, off),
{
}

/// At-least-once and at-most-once, read side: a delivered event is the
/// head of the stream at the cursor, and the post-read cursor's stream
/// is exactly the rest. Acknowledging (or lossily persisting) the
/// post-read cursor therefore advances past exactly one event, and
/// leaving it unacknowledged redelivers the same head.
pub proof fn lemma_read_advance(
    b: Broker,
    topic: Seq<char>,
    f: u64,
    off: u64,
    p: Seq<u8>,
    f2: u64,
    off2: u64,
)
    requires
        b.wf(),
        spec_read_step(b, topic, f, off) == (ReadStep::Event { payload: p, f2, off2 }),
        ({
            let li = spec_log_index(b.logs@, topic);
            let lg = b.logs@[li];
            &&& f <= b.topic_recs()[li].trailing[1]
            &&& events_from(lg.segs@[f - lg.base]@, off as int) is Some
            &&& forall|s: int| 0 <= s < lg.segs@.len() ==> (#[trigger] lg.segs@[s])@.len()
                <= u64::MAX
        }),
    ensures
        ({
            let li = spec_log_index(b.logs@, topic);
            let lg = b.logs@[li];
            &&& events_from(lg.segs@[f2 - lg.base]@, off2 as int) is Some
            &&& stream_from(b, li, f, off) == seq![p] + stream_from(b, li, f2, off2)
        }),
{
    let li = spec_log_index(b.logs@, topic);
    lemma_log_index_props(b.logs@, topic);
    let lg = b.logs@[li];
    let rs = b.topic_recs();
    assert(topic_entry_wf(lg, rs[li]));
    let curr = rs[li].trailing[1];
    let seg = lg.segs@[f - lg.base]@;
    let es = events_from(seg, off as int)->Some_0;
    if off == seg.len() {
        // rollover: the delivered event heads the next segment
        assert(curr != f);
        assert(f < curr);
        assert(es =~= Seq::<Seq<u8>>::empty());
        let seg2 = lg.segs@[f + 1 - lg.base]@;
        assert(f2 == f + 1);
        assert(events_opt(seg2) is Some);
        let es2 = events(seg2);
        assert(es2.len() > 0) by {
            if es2.len() == 0 {
                assert(seg2.len() == 0);
                assert(spec_read_event(seg2, 0) is None);
            }
        }
        lemma_events_from_head(seg2, 0);
        assert(es2[0] == p && off2 == 8 + p.len());
        assert(events_from(seg2, off2 as int) == Some(es2.drop_first()));
        assert(stream_segs(b, li, f + 1, curr + 1) == seg_events(b, li, f + 1) + stream_segs(
            b,
            li,
            f + 2,
            curr + 1,
        ));
        assert(stream_from(b, li, f, off) =~= seq![p] + stream_from(b, li, f2, off2));
    } else {
        assert(f2 == f);
        assert(es.len() > 0) by {
            if es.len() == 0 {
                assert(off == seg.len());
            }
        }
        lemma_events_from_head(seg, off as int);
        assert(es[0] == p && off2 == off + 8 + p.len());
        assert(events_from(seg, off2 as int) == Some(es.drop_first()));
        assert(stream_from(b, li, f, off) =~= seq![p] + stream_from(b, li, f2, off2));
    }
}

/// Tombstone permanence: a zeroed key field can never equal the stored
/// form of any generated key, so after a delete the original token's key
/// comparison in `hydrate` must fail with `Unauthorized`.
pub proof fn lemma_tombstone_unauthorized(stored: Seq<u8>, presented: Seq<char>)
    requires
        stored == zero_key(),
        key_valid(presented),
    ensures
        stored != encode_utf8(presented),
{
    lemma_key_bytes(presented);
}

/// Retention correctness: the floor that `Topic::cleanup` persists never
/// passes any live consumer's committed cursor, and when the topic has
/// live consumers and their minimum is within the log, the floor is that
/// minimum itself. Only segments below the floor are deleted.
pub proof fn lemma_retention_floor(crs: Seq<RecView>, name: Seq<u8>, first0: u64, curr: u64)
    requires
        first0 <= curr,
    ensures
        ({
            let floor_raw = match spec_min_cursor(crs, name) {
                None => first0,
                Some(m) => m,
            };
            let floor: u64 = if floor_raw > curr {
                curr
            } else {
                floor_raw
            };
            &&& (forall|i: int|
                0 <= i < crs.len() && live_consumer_for(#[trigger] crs[i], name) ==> floor
                    <= crs[i].trailing[0])
            &&& (spec_min_cursor(crs, name) is None ==> floor == first0)
            &&& (spec_min_cursor(crs, name) is Some && spec_min_cursor(crs, name)->Some_0
                <= curr ==> floor == spec_min_cursor(crs, name)->Some_0 && exists|i: int|
                0 <= i < crs.len() && live_consumer_for(#[trigger] crs[i], name)
                    && crs[i].trailing[0] == floor)
        }),
{
    lemma_min_cursor_props(crs, name);
}


/// At-least-once, acknowledge side: acknowledging a delivered event's id
/// moves only the consumers registry, so a subsequent read from the
/// committed cursor sees the stream right after that event — the next
/// event if one exists, end-of-stream otherwise.
pub proof fn lemma_ack_then_read(
    b0: Broker,
    b1: Broker,
    topic: Seq<char>,
    f: u64,
    off: u64,
    p: Seq<u8>,
    f2: u64,
    off2: u64,
)
    requires
        b0.wf(),
        spec_read_step(b0, topic, f, off) == (ReadStep::Event { payload: p, f2, off2 }),
        ({
            let li = spec_log_index(b0.logs@, topic);
            let lg = b0.logs@[li];
            &&& f <= b0.topic_recs()[li].trailing[1]
            &&& events_from(lg.segs@[f - lg.base]@, off as int) is Some
            &&& forall|s: int| 0 <= s < lg.segs@.len() ==> (#[trigger] lg.segs@[s])@.len()
                <= u64::MAX
        }),
        b1.logs == b0.logs,
        b1.topics == b0.topics,
    ensures
        spec_read_step(b1, topic, f2, off2) == spec_read_step(b0, topic, f2, off2),
        ({
            let li = spec_log_index(b0.logs@, topic);
            stream_from(b0, li, f, off) == seq![p] + stream_from(b0, li, f2, off2)
        }),
{
    lemma_read_step_state(b0, b1, topic, f2, off2);
    lemma_read_advance(b0, topic, f, off, p, f2, off2);
}

} // verus!
