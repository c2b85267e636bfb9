//! One segment of a topic log: an append-only run of event records, each
//! `[8-byte big-endian length][payload]`.

use vstd::prelude::*;
use crate::be64::{spec_u64_to_be_bytes, spec_u64_from_be_bytes, lemma_u64_be_bytes_roundtrip,
    push_u64_be, read_u64_be};
use crate::errors::BrokerError;
use crate::registry::copy_range;

verus! {

/// The event payloads laid out from `off` to the end of the segment;
/// `None` if a record is truncated.
pub open spec fn events_from(seg: Seq<u8>, off: int) -> Option<Seq<Seq<u8>>>
    decreases seg.len() - off,
{
    if off == seg.len() {
        Some(Seq::empty())
    } else if off < 0 || off + 8 > seg.len() {
        None
    } else {
        let l = spec_u64_from_be_bytes(seg.subrange(off, off + 8)) as int;
        if off + 8 + l > seg.len() {
            None
        } else {
            match events_from(seg, off + 8 + l) {
                None => None,
                Some(rest) => Some(seq![seg.subrange(off + 8, off + 8 + l)] + rest),
            }
        }
    }
}

/// The whole segment decoded, when it is well formed.
pub open spec fn events_opt(seg: Seq<u8>) -> Option<Seq<Seq<u8>>> {
    events_from(seg, 0)
}

/// The events of a well-formed segment.
pub open spec fn events(seg: Seq<u8>) -> Seq<Seq<u8>> {
    match events_opt(seg) {
        Some(es) => es,
        None => Seq::empty(),
    }
}

/// What one positioned read yields: the payload stored at `off` and the
/// bytes it consumes, when the record lies within the segment.
pub open spec fn spec_read_event(seg: Seq<u8>, off: int) -> Option<(Seq<u8>, int)> {
    if off < 0 || off + 8 > seg.len() {
        None
    } else {
        let l = spec_u64_from_be_bytes(seg.subrange(off, off + 8)) as int;
        if off + 8 + l > seg.len() {
            None
        } else {
            Some((seg.subrange(off + 8, off + 8 + l), 8 + l))
        }
    }
}

/// At a boundary with events left, the positioned read yields the first.
pub proof fn lemma_events_from_head(seg: Seq<u8>, off: int)
    requires
        events_from(seg, off) is Some,
        events_from(seg, off)->Some_0.len() > 0,
    ensures
        ({
            let es = events_from(seg, off)->Some_0;
            &&& spec_read_event(seg, off) == Some((es[0], 8 + es[0].len() as int))
            &&& events_from(seg, off + 8 + es[0].len()) == Some(es.drop_first())
            &&& off + 8 + es[0].len() <= seg.len()
        }),
{
    let es = events_from(seg, off)->Some_0;
    let l = spec_u64_from_be_bytes(seg.subrange(off, off + 8)) as int;
    let rest = events_from(seg, off + 8 + l)->Some_0;
    assert(es == seq![seg.subrange(off + 8, off + 8 + l)] + rest);
    assert(es[0] == seg.subrange(off + 8, off + 8 + l));
    assert(es.drop_first() =~= rest);
}

/// Appending one event record to a segment extends its event sequence by
/// that payload, seen from any boundary.
pub proof fn lemma_events_append(seg: Seq<u8>, off: int, payload: Seq<u8>)
    requires
        events_from(seg, off) is Some,
        payload.len() <= u64::MAX,
    ensures
        events_from(seg + spec_u64_to_be_bytes(payload.len() as u64) + payload, off) == Some(
            events_from(seg, off)->Some_0.push(payload),
        ),
    decreases seg.len() - off,
{
    lemma_u64_be_bytes_roundtrip();
    let seg2 = seg + spec_u64_to_be_bytes(payload.len() as u64) + payload;
    let es = events_from(seg, off)->Some_0;
    if off == seg.len() {
        assert(seg2.subrange(off, off + 8) =~= spec_u64_to_be_bytes(payload.len() as u64));
        let l = spec_u64_from_be_bytes(seg2.subrange(off, off + 8)) as int;
        assert(l == payload.len());
        assert(seg2.subrange(off + 8, off + 8 + l) =~= payload);
        assert(off + 8 + l == seg2.len());
        assert(events_from(seg2, off + 8 + l) == Some(Seq::<Seq<u8>>::empty()));
        assert(events_from(seg2, off) == Some(
            seq![payload] + Seq::<Seq<u8>>::empty(),
        ));
        assert(seq![payload] + Seq::<Seq<u8>>::empty() =~= es.push(payload));
    } else {
        let l = spec_u64_from_be_bytes(seg.subrange(off, off + 8)) as int;
        assert(seg2.subrange(off, off + 8) =~= seg.subrange(off, off + 8));
        assert(seg2.subrange(off + 8, off + 8 + l) =~= seg.subrange(off + 8, off + 8 + l));
        lemma_events_append(seg, off + 8 + l, payload);
        let rest = events_from(seg, off + 8 + l)->Some_0;
        assert(events_from(seg2, off) == Some(
            seq![seg.subrange(off + 8, off + 8 + l)] + rest.push(payload),
        ));
        assert(seq![seg.subrange(off + 8, off + 8 + l)] + rest.push(payload) =~= es.push(
            payload,
        ));
    }
}

/// Appends `[8-byte length][payload]` to the segment.
pub fn append_event(seg: &mut Vec<u8>, payload: &Vec<u8>)
    ensures
        final(seg)@ == old(seg)@ + spec_u64_to_be_bytes(payload@.len() as u64) + payload@,
        events_opt(old(seg)@) is Some ==> events_opt(final(seg)@) == Some(
            events(old(seg)@).push(payload@),
        ),
{
    push_u64_be(seg, payload.len() as u64);
    seg.extend_from_slice(payload.as_slice());
    proof {
        assert(seg@ =~= old(seg)@ + spec_u64_to_be_bytes(payload@.len() as u64) + payload@);
        if events_opt(old(seg)@) is Some {
            lemma_events_append(old(seg)@, 0, payload@);
        }
    }
}

/// Reads the event stored at byte position `off`: the payload and the
/// number of bytes consumed (`8 + length`). A cursor exactly at the end
/// of the segment is `EndOfSegment`; a length prefix or payload running
/// past the end is a corrupt record.
pub fn read_event_at(seg: &Vec<u8>, off: u64) -> (r: Result<(Vec<u8>, u64), BrokerError>)
    ensures
        ({
            match r {
                Ok((p, consumed)) => {
                    &&& spec_read_event(seg@, off as int) == Some((p@, consumed as int))
                    &&& consumed == 8 + p@.len()
                },
                Err(e) => {
                    &&& spec_read_event(seg@, off as int) is None
                    &&& e == (if off as int == seg@.len() {
                        BrokerError::EndOfSegment
                    } else {
                        BrokerError::CorruptRecord
                    })
                },
            }
        }),
{
    let n = seg.len();
    if off == n as u64 {
        return Err(BrokerError::EndOfSegment);
    }
    if off > u64::MAX - 8 || off + 8 > n as u64 {
        return Err(BrokerError::CorruptRecord);
    }
    let start = off as usize;
    let l64 = read_u64_be(seg, start);
    if l64 > (n - start - 8) as u64 {
        return Err(BrokerError::CorruptRecord);
    }
    let l = l64 as usize;
    let payload = copy_range(seg, start + 8, start + 8 + l);
    Ok((payload, 8 + l64))
}

} // verus!
