//! The binary registry: an append-only, offset-addressed store of records
//! held in one flat byte file.
//!
//! Every record has the same shape within one registry: an optional 36-byte
//! key, one length-prefixed variable field (the name or bound topic), and a
//! fixed number of trailing 8-byte big-endian `u64` fields. A record's
//! address is the byte offset at which it was appended; addresses never
//! change except through `compact_delete_record`, which is used only for
//! topics (whose addresses are not embedded in tokens).

use vstd::prelude::*;
use crate::be64::{spec_u64_to_be_bytes, spec_u64_from_be_bytes, lemma_u64_be_bytes_roundtrip,
    push_u64_be, read_u64_be};
use crate::errors::BrokerError;

verus! {

/// Length of the fixed key field, when the shape has one.
pub const KEY_LEN: usize = 36;

/// The record shape of one registry: whether records carry a key field,
/// and how many trailing `u64` fields follow the variable field.
#[derive(Clone, Copy, Debug, PartialEq, Eq, Structural)]
pub struct Shape {
    pub has_key: bool,
    pub n_trailing: u64,
}

/// One decoded record.
pub struct Record {
    pub key: Vec<u8>,
    pub name: Vec<u8>,
    pub trailing: Vec<u64>,
}

/// The mathematical view of a record.
pub struct RecView {
    pub key: Seq<u8>,
    pub name: Seq<u8>,
    pub trailing: Seq<u64>,
}

impl View for Record {
    type V = RecView;

    open spec fn view(&self) -> RecView {
        RecView { key: self.key@, name: self.name@, trailing: self.trailing@ }
    }
}

pub open spec fn key_len(sh: Shape) -> int {
    if sh.has_key {
        KEY_LEN as int
    } else {
        0
    }
}

/// A record that fits the shape and whose name length is storable.
pub open spec fn rec_wf(sh: Shape, r: RecView) -> bool {
    &&& r.key.len() == key_len(sh)
    &&& r.trailing.len() == sh.n_trailing
    &&& r.name.len() <= u64::MAX
}

/// The all-zero key that marks a tombstoned record.
pub open spec fn zero_key() -> Seq<u8> {
    Seq::new(KEY_LEN as nat, |i: int| 0u8)
}

/// A record is live unless its key field has been zeroed.
pub open spec fn is_live(sh: Shape, r: RecView) -> bool {
    !sh.has_key || r.key != zero_key()
}

pub open spec fn enc_trailing(ts: Seq<u64>) -> Seq<u8>
    decreases ts.len(),
{
    if ts.len() == 0 {
        Seq::empty()
    } else {
        spec_u64_to_be_bytes(ts[0]) + enc_trailing(ts.drop_first())
    }
}

/// The on-disk bytes of one record.
pub open spec fn rec_enc(sh: Shape, r: RecView) -> Seq<u8> {
    r.key + spec_u64_to_be_bytes(r.name.len() as u64) + r.name + enc_trailing(r.trailing)
}

/// The on-disk length of one record.
pub open spec fn rec_size(sh: Shape, r: RecView) -> int {
    key_len(sh) + 8 + r.name.len() + 8 * (sh.n_trailing as int)
}

pub proof fn lemma_enc_trailing_len(ts: Seq<u64>)
    ensures
        enc_trailing(ts).len() == 8 * ts.len(),
    decreases ts.len(),
{
    lemma_u64_be_bytes_roundtrip();
    if ts.len() > 0 {
        lemma_enc_trailing_len(ts.drop_first());
    }
}

pub proof fn lemma_rec_enc_len(sh: Shape, r: RecView)
    requires
        rec_wf(sh, r),
    ensures
        rec_enc(sh, r).len() == rec_size(sh, r),
{
    lemma_u64_be_bytes_roundtrip();
    lemma_enc_trailing_len(r.trailing);
}

/// Appending one element extends the trailing encoding on the right.
pub proof fn lemma_enc_trailing_push(ts: Seq<u64>, x: u64)
    ensures
        enc_trailing(ts.push(x)) == enc_trailing(ts) + spec_u64_to_be_bytes(x),
    decreases ts.len(),
{
    if ts.len() == 0 {
        let p = ts.push(x);
        assert(p[0] == x);
        assert(p.drop_first() =~= Seq::<u64>::empty());
        assert(enc_trailing(p.drop_first()) == Seq::<u8>::empty());
        assert(enc_trailing(p) == spec_u64_to_be_bytes(x) + Seq::<u8>::empty());
        assert(enc_trailing(p) =~= spec_u64_to_be_bytes(x));
        assert(enc_trailing(ts) == Seq::<u8>::empty());
        assert(enc_trailing(ts) + spec_u64_to_be_bytes(x) =~= spec_u64_to_be_bytes(x));
    } else {
        assert(ts.push(x).drop_first() =~= ts.drop_first().push(x));
        lemma_enc_trailing_push(ts.drop_first(), x);
        assert(ts.push(x)[0] == ts[0]);
        assert(enc_trailing(ts.push(x)) == spec_u64_to_be_bytes(ts[0]) + (enc_trailing(
            ts.drop_first()) + spec_u64_to_be_bytes(x)));
        assert(spec_u64_to_be_bytes(ts[0]) + (enc_trailing(ts.drop_first())
            + spec_u64_to_be_bytes(x)) =~= (spec_u64_to_be_bytes(ts[0]) + enc_trailing(
            ts.drop_first())) + spec_u64_to_be_bytes(x));
    }
}

/// The trailing fields stored at position `p`.
pub open spec fn dec_trailing(b: Seq<u8>, p: int, n: int) -> Seq<u64>
    decreases n,
{
    if n <= 0 {
        Seq::empty()
    } else {
        seq![spec_u64_from_be_bytes(b.subrange(p, p + 8))] + dec_trailing(b, p + 8, n - 1)
    }
}

/// The record stored at byte position `off`, if the bytes there decode
/// within bounds.
pub open spec fn dec_at(sh: Shape, b: Seq<u8>, off: int) -> Option<RecView> {
    if off < 0 || off + key_len(sh) + 8 > b.len() {
        None
    } else {
        let nlen = spec_u64_from_be_bytes(
            b.subrange(off + key_len(sh), off + key_len(sh) + 8),
        ) as int;
        if off + key_len(sh) + 8 + nlen + 8 * (sh.n_trailing as int) > b.len() {
            None
        } else {
            Some(
                RecView {
                    key: b.subrange(off, off + key_len(sh)),
                    name: b.subrange(off + key_len(sh) + 8, off + key_len(sh) + 8 + nlen),
                    trailing: dec_trailing(b, off + key_len(sh) + 8 + nlen, sh.n_trailing as int),
                },
            )
        }
    }
}

pub proof fn lemma_dec_trailing_len(b: Seq<u8>, p: int, n: int)
    ensures
        dec_trailing(b, p, n).len() == if n <= 0 {
            0
        } else {
            n as int
        },
    decreases n,
{
    if n > 0 {
        lemma_dec_trailing_len(b, p + 8, n - 1);
    }
}

/// A decoded record fits its shape and its bytes lie within the file.
pub proof fn lemma_dec_at_wf(sh: Shape, b: Seq<u8>, off: int)
    requires
        dec_at(sh, b, off) is Some,
    ensures
        rec_wf(sh, dec_at(sh, b, off)->Some_0),
        off >= 0,
        off + rec_size(sh, dec_at(sh, b, off)->Some_0) <= b.len(),
        rec_size(sh, dec_at(sh, b, off)->Some_0) >= 8,
{
    lemma_u64_be_bytes_roundtrip();
    lemma_dec_trailing_len(b, off + key_len(sh) + 8 + spec_u64_from_be_bytes(
        b.subrange(off + key_len(sh), off + key_len(sh) + 8),
    ) as int, sh.n_trailing as int);
}

/// The records laid out one after another from `off` to the end of the
/// file; `None` if any record is truncated or oversteps the end.
pub open spec fn parse_from(sh: Shape, b: Seq<u8>, off: int) -> Option<Seq<RecView>>
    decreases b.len() - off,
{
    if off == b.len() {
        Some(Seq::empty())
    } else {
        match dec_at(sh, b, off) {
            None => None,
            Some(r) => {
                if off + rec_size(sh, r) > b.len() || rec_size(sh, r) < 8 {
                    None  // cannot happen; keeps the recursion well founded
                } else {
                    match parse_from(sh, b, off + rec_size(sh, r)) {
                        None => None,
                        Some(rest) => Some(seq![r] + rest),
                    }
                }
            },
        }
    }
}

/// The whole registry file decoded, when it is well formed.
pub open spec fn records_opt(sh: Shape, b: Seq<u8>) -> Option<Seq<RecView>> {
    parse_from(sh, b, 0)
}

/// The records of a well-formed registry file.
pub open spec fn recs(sh: Shape, b: Seq<u8>) -> Seq<RecView> {
    match records_opt(sh, b) {
        Some(t) => t,
        None => Seq::empty(),
    }
}

/// The byte address of record `i` in the laid-out sequence.
pub open spec fn start_of(sh: Shape, rs: Seq<RecView>, i: int) -> int
    decreases i,
{
    if i <= 0 {
        0
    } else {
        start_of(sh, rs, i - 1) + rec_size(sh, rs[i - 1])
    }
}

/// The index of the record whose address is `off`, or `-1`.
pub open spec fn rec_index(sh: Shape, rs: Seq<RecView>, off: int) -> int
    decreases rs.len(),
{
    if rs.len() == 0 {
        -1
    } else if off == 0 {
        0
    } else if off < rec_size(sh, rs[0]) {
        -1
    } else {
        let r = rec_index(sh, rs.drop_first(), off - rec_size(sh, rs[0]));
        if r < 0 {
            -1
        } else {
            r + 1
        }
    }
}

/// Every parsed record fits the shape, and the layout fills the file.
pub proof fn lemma_parse_from_wf(sh: Shape, b: Seq<u8>, off: int)
    requires
        parse_from(sh, b, off) is Some,
    ensures
        0 <= off <= b.len(),
        forall|i: int|
            0 <= i < parse_from(sh, b, off)->Some_0.len() ==> rec_wf(
                sh,
                #[trigger] parse_from(sh, b, off)->Some_0[i],
            ) && rec_size(sh, parse_from(sh, b, off)->Some_0[i]) >= 8,
        off + start_of(sh, parse_from(sh, b, off)->Some_0, parse_from(sh, b, off)->Some_0.len() as int)
            == b.len(),
    decreases b.len() - off,
{
    let t = parse_from(sh, b, off)->Some_0;
    if off == b.len() {
        assert(start_of(sh, t, 0) == 0);
    } else {
        let r = dec_at(sh, b, off)->Some_0;
        lemma_dec_at_wf(sh, b, off);
        lemma_parse_from_wf(sh, b, off + rec_size(sh, r));
        let rest = parse_from(sh, b, off + rec_size(sh, r))->Some_0;
        assert(t == seq![r] + rest);
        assert(t[0] == r);
        assert(forall|i: int| 0 <= i < rest.len() ==> #[trigger] t[i + 1] == rest[i]);
        assert forall|i: int| 0 <= i < t.len() implies rec_wf(sh, #[trigger] t[i]) && rec_size(
            sh,
            t[i],
        ) >= 8 by {
            if i > 0 {
                assert(t[i] == rest[i - 1]);
            }
        }
        lemma_start_of_drop(sh, t, t.len() as int);
        assert(t.drop_first() =~= rest);
    }
}

/// `start_of` over a dropped head.
pub proof fn lemma_start_of_drop(sh: Shape, rs: Seq<RecView>, i: int)
    requires
        1 <= i <= rs.len(),
    ensures
        start_of(sh, rs, i) == rec_size(sh, rs[0]) + start_of(sh, rs.drop_first(), i - 1),
    decreases i,
{
    if i == 1 {
        assert(start_of(sh, rs, 0) == 0);
        assert(start_of(sh, rs.drop_first(), 0) == 0);
    } else {
        lemma_start_of_drop(sh, rs, i - 1);
        assert(rs.drop_first()[i - 2] == rs[i - 1]);
        assert(start_of(sh, rs, i) == start_of(sh, rs, i - 1) + rec_size(sh, rs[i - 1]));
        assert(start_of(sh, rs.drop_first(), i - 1) == start_of(sh, rs.drop_first(), i - 2)
            + rec_size(sh, rs.drop_first()[i - 2]));
    }
}

/// Addresses strictly increase when every record is at least 8 bytes.
pub proof fn lemma_start_of_mono(sh: Shape, rs: Seq<RecView>, i: int, j: int)
    requires
        0 <= i <= j <= rs.len(),
        forall|k: int| 0 <= k < rs.len() ==> rec_size(sh, #[trigger] rs[k]) >= 8,
    ensures
        start_of(sh, rs, i) <= start_of(sh, rs, j),
        i < j ==> start_of(sh, rs, i) + rec_size(sh, rs[i]) <= start_of(sh, rs, j),
    decreases j - i,
{
    if i < j {
        lemma_start_of_mono(sh, rs, i + 1, j);
    }
}

/// `rec_index` finds exactly the record addresses.
pub proof fn lemma_rec_index_some(sh: Shape, rs: Seq<RecView>, off: int)
    requires
        rec_index(sh, rs, off) >= 0,
    ensures
        0 <= rec_index(sh, rs, off) < rs.len(),
        start_of(sh, rs, rec_index(sh, rs, off)) == off,
    decreases rs.len(),
{
    if rs.len() > 0 && off != 0 && off >= rec_size(sh, rs[0]) {
        let r = rec_index(sh, rs.drop_first(), off - rec_size(sh, rs[0]));
        if r >= 0 {
            lemma_rec_index_some(sh, rs.drop_first(), off - rec_size(sh, rs[0]));
            lemma_start_of_drop(sh, rs, r + 1);
        }
    }
}

pub proof fn lemma_rec_index_complete(sh: Shape, rs: Seq<RecView>, i: int)
    requires
        0 <= i < rs.len(),
        forall|k: int| 0 <= k < rs.len() ==> rec_size(sh, #[trigger] rs[k]) >= 8,
    ensures
        rec_index(sh, rs, start_of(sh, rs, i)) == i,
    decreases rs.len(),
{
    let off = start_of(sh, rs, i);
    if i == 0 {
        assert(off == 0);
    } else {
        lemma_start_of_drop(sh, rs, i);
        assert(off == rec_size(sh, rs[0]) + start_of(sh, rs.drop_first(), i - 1));
        lemma_start_of_mono_zero(sh, rs.drop_first(), i - 1);
        assert(forall|k: int|
            0 <= k < rs.drop_first().len() ==> rec_size(sh, #[trigger] rs.drop_first()[k]) >= 8);
        lemma_rec_index_complete(sh, rs.drop_first(), i - 1);
        assert(off != 0);
        assert(off >= rec_size(sh, rs[0]));
    }
}

/// `start_of` is never negative.
pub proof fn lemma_start_of_mono_zero(sh: Shape, rs: Seq<RecView>, i: int)
    requires
        0 <= i <= rs.len(),
        forall|k: int| 0 <= k < rs.len() ==> rec_size(sh, #[trigger] rs[k]) >= 8,
    ensures
        start_of(sh, rs, i) >= 0,
    decreases i,
{
    if i > 0 {
        lemma_start_of_mono_zero(sh, rs, i - 1);
    }
}

/// Decoding trailing fields from their own encoding gives them back.
pub proof fn lemma_dec_trailing_enc(b: Seq<u8>, p: int, ts: Seq<u64>)
    requires
        0 <= p,
        p + 8 * ts.len() <= b.len(),
        b.subrange(p, p + 8 * ts.len()) == enc_trailing(ts),
    ensures
        dec_trailing(b, p, ts.len() as int) == ts,
    decreases ts.len(),
{
    lemma_u64_be_bytes_roundtrip();
    if ts.len() > 0 {
        lemma_enc_trailing_len(ts.drop_first());
        let whole = b.subrange(p, p + 8 * ts.len());
        assert(b.subrange(p, p + 8) =~= whole.subrange(0, 8));
        assert(whole.subrange(0, 8) =~= spec_u64_to_be_bytes(ts[0]));
        assert(spec_u64_from_be_bytes(b.subrange(p, p + 8)) == ts[0]);
        assert(b.subrange(p + 8, p + 8 + 8 * (ts.len() - 1)) =~= whole.subrange(8, 8 * ts.len() as int));
        assert(whole.subrange(8, 8 * ts.len() as int) =~= enc_trailing(ts.drop_first()));
        lemma_dec_trailing_enc(b, p + 8, ts.drop_first());
        assert(dec_trailing(b, p, ts.len() as int) =~= ts);
    } else {
        assert(dec_trailing(b, p, 0) =~= ts);
    }
}

/// Decoding at the position of an encoded record gives it back.
#[verifier::rlimit(60)]
#[verifier::spinoff_prover]
pub proof fn lemma_dec_at_enc(sh: Shape, pre: Seq<u8>, r: RecView, post: Seq<u8>)
    requires
        rec_wf(sh, r),
    ensures
        dec_at(sh, pre + rec_enc(sh, r) + post, pre.len() as int) == Some(r),
{
    lemma_u64_be_bytes_roundtrip();
    lemma_rec_enc_len(sh, r);
    lemma_enc_trailing_len(r.trailing);
    let b = pre + rec_enc(sh, r) + post;
    let off = pre.len() as int;
    let kl = key_len(sh);
    let enc = rec_enc(sh, r);
    assert(forall|i: int| 0 <= i < enc.len() ==> b[off + i] == #[trigger] enc[i]);
    assert(b.subrange(off + kl, off + kl + 8) =~= spec_u64_to_be_bytes(r.name.len() as u64));
    let nlen = spec_u64_from_be_bytes(b.subrange(off + kl, off + kl + 8)) as int;
    assert(nlen == r.name.len() as int);
    assert(b.subrange(off, off + kl) =~= r.key);
    assert(b.subrange(off + kl + 8, off + kl + 8 + nlen) =~= r.name);
    assert(b.subrange(off + kl + 8 + nlen, off + kl + 8 + nlen + 8 * (sh.n_trailing as int))
        =~= enc_trailing(r.trailing));
    lemma_dec_trailing_enc(b, off + kl + 8 + nlen, r.trailing);
}

/// A decoded record's own bytes are its encoding.
pub proof fn lemma_enc_of_dec(sh: Shape, b: Seq<u8>, off: int)
    requires
        dec_at(sh, b, off) is Some,
    ensures
        rec_enc(sh, dec_at(sh, b, off)->Some_0) == b.subrange(
            off,
            off + rec_size(sh, dec_at(sh, b, off)->Some_0),
        ),
{
    lemma_u64_be_bytes_roundtrip();
    let r = dec_at(sh, b, off)->Some_0;
    lemma_dec_at_wf(sh, b, off);
    let kl = key_len(sh);
    let nlen = r.name.len() as int;
    assert(b.subrange(off + kl, off + kl + 8) =~= spec_u64_to_be_bytes(r.name.len() as u64)) by {
        assert(r.name.len() as u64 == spec_u64_from_be_bytes(b.subrange(off + kl, off + kl + 8)));
    }
    lemma_enc_of_dec_trailing(b, off + kl + 8 + nlen, sh.n_trailing as int);
    lemma_enc_trailing_len(r.trailing);
    assert(rec_enc(sh, r) =~= b.subrange(off, off + rec_size(sh, r)));
}

/// The bytes under decoded trailing fields are their encoding.
pub proof fn lemma_enc_of_dec_trailing(b: Seq<u8>, p: int, n: int)
    requires
        0 <= p,
        n >= 0,
        p + 8 * n <= b.len(),
    ensures
        enc_trailing(dec_trailing(b, p, n)) == b.subrange(p, p + 8 * n),
    decreases n,
{
    lemma_u64_be_bytes_roundtrip();
    if n == 0 {
        assert(enc_trailing(dec_trailing(b, p, 0)) =~= b.subrange(p, p));
    } else {
        let ts = dec_trailing(b, p, n);
        assert(ts.drop_first() =~= dec_trailing(b, p + 8, n - 1));
        lemma_enc_of_dec_trailing(b, p + 8, n - 1);
        assert(spec_u64_to_be_bytes(ts[0]) =~= b.subrange(p, p + 8)) by {
            assert(ts[0] == spec_u64_from_be_bytes(b.subrange(p, p + 8)));
        }
        assert(enc_trailing(ts) =~= b.subrange(p, p + 8 * n));
    }
}

/// Decoding sees only the bytes of the record itself: any other file with
/// the same bytes there (and room for them) decodes the same record.
pub proof fn lemma_dec_at_agree(sh: Shape, b1: Seq<u8>, b2: Seq<u8>, off: int)
    requires
        dec_at(sh, b1, off) is Some,
        off + rec_size(sh, dec_at(sh, b1, off)->Some_0) <= b2.len(),
        b2.subrange(off, off + rec_size(sh, dec_at(sh, b1, off)->Some_0)) == b1.subrange(
            off,
            off + rec_size(sh, dec_at(sh, b1, off)->Some_0),
        ),
    ensures
        dec_at(sh, b2, off) == dec_at(sh, b1, off),
{
    lemma_dec_at_wf(sh, b1, off);
    lemma_enc_of_dec(sh, b1, off);
    let r = dec_at(sh, b1, off)->Some_0;
    let sz = rec_size(sh, r);
    assert(b2 =~= b2.subrange(0, off) + rec_enc(sh, r) + b2.subrange(off + sz, b2.len() as int));
    lemma_dec_at_enc(sh, b2.subrange(0, off), r, b2.subrange(off + sz, b2.len() as int));
}

/// Layout parsing depends only on the suffix of the file being parsed.
pub proof fn lemma_parse_from_suffix(sh: Shape, b1: Seq<u8>, off1: int, b2: Seq<u8>, off2: int)
    requires
        0 <= off1 <= b1.len(),
        0 <= off2 <= b2.len(),
        b1.skip(off1) == b2.skip(off2),
    ensures
        parse_from(sh, b1, off1) == parse_from(sh, b2, off2),
    decreases b1.len() - off1,
{
    assert(b1.skip(off1).len() == b1.len() - off1);
    assert(b2.skip(off2).len() == b2.len() - off2);
    assert(b1.len() - off1 == b2.len() - off2);
    assert forall|k: int| off1 <= k < b1.len() implies b1[k] == b2[off2 + (k - off1)] by {
        assert(b1.skip(off1)[k - off1] == b1[k]);
        assert(b2.skip(off2)[k - off1] == b2[off2 + (k - off1)]);
    }
    if off1 == b1.len() {
    } else {
        assert(dec_at(sh, b2, off2) == dec_at(sh, b1, off1)) by {
            match dec_at(sh, b1, off1) {
                Some(r) => {
                    lemma_dec_at_wf(sh, b1, off1);
                    let sz = rec_size(sh, r);
                    // rebuild the decode at the shifted position from the encoding
                    lemma_enc_of_dec(sh, b1, off1);
                    assert(b2 =~= b2.subrange(0, off2) + rec_enc(sh, r) + b2.subrange(
                        off2 + sz,
                        b2.len() as int,
                    )) by {
                        assert(forall|i: int|
                            0 <= i < sz ==> #[trigger] rec_enc(sh, r)[i] == b1.subrange(
                                off1,
                                off1 + sz,
                            )[i]);
                    }
                    lemma_dec_at_enc(
                        sh,
                        b2.subrange(0, off2),
                        r,
                        b2.subrange(off2 + sz, b2.len() as int),
                    );
                },
                None => {
                    if dec_at(sh, b2, off2) is Some {
                        let r2 = dec_at(sh, b2, off2)->Some_0;
                        lemma_dec_at_wf(sh, b2, off2);
                        let sz = rec_size(sh, r2);
                        lemma_enc_of_dec(sh, b2, off2);
                        assert(b1 =~= b1.subrange(0, off1) + rec_enc(sh, r2) + b1.subrange(
                            off1 + sz,
                            b1.len() as int,
                        )) by {
                            assert(forall|i: int|
                                0 <= i < sz ==> #[trigger] rec_enc(sh, r2)[i] == b2.subrange(
                                    off2,
                                    off2 + sz,
                                )[i]);
                        }
                        lemma_dec_at_enc(
                            sh,
                            b1.subrange(0, off1),
                            r2,
                            b1.subrange(off1 + sz, b1.len() as int),
                        );
                    }
                },
            }
        }
        match dec_at(sh, b1, off1) {
            Some(r) => {
                lemma_dec_at_wf(sh, b1, off1);
                let sz = rec_size(sh, r);
                assert(b1.skip(off1 + sz) =~= b2.skip(off2 + sz)) by {
                    assert(forall|i: int|
                        0 <= i < b1.len() - off1 - sz ==> #[trigger] b1.skip(off1 + sz)[i] == b1[off1
                            + sz + i]);
                    assert(forall|i: int|
                        0 <= i < b2.len() - off2 - sz ==> #[trigger] b2.skip(off2 + sz)[i] == b2[off2
                            + sz + i]);
                }
                lemma_parse_from_suffix(sh, b1, off1 + sz, b2, off2 + sz);
            },
            None => {},
        }
    }
}

/// Appending one well-formed record extends the parsed sequence by it.
pub proof fn lemma_parse_append(sh: Shape, b: Seq<u8>, off: int, r: RecView)
    requires
        parse_from(sh, b, off) is Some,
        rec_wf(sh, r),
    ensures
        parse_from(sh, b + rec_enc(sh, r), off) == Some(
            parse_from(sh, b, off)->Some_0.push(r),
        ),
    decreases b.len() - off,
{
    lemma_parse_from_wf(sh, b, off);
    lemma_rec_enc_len(sh, r);
    let b2 = b + rec_enc(sh, r);
    let t = parse_from(sh, b, off)->Some_0;
    if off == b.len() {
        assert(b2 =~= b.subrange(0, off) + rec_enc(sh, r) + Seq::<u8>::empty()) by {
            assert(b.subrange(0, off) =~= b);
        }
        lemma_dec_at_enc(sh, b.subrange(0, off), r, Seq::<u8>::empty());
        assert(dec_at(sh, b2, off) == Some(r));
        lemma_dec_at_wf(sh, b2, off);
        assert(parse_from(sh, b2, off + rec_size(sh, r)) == Some(Seq::<RecView>::empty()));
        assert(parse_from(sh, b2, off) == Some(seq![r] + Seq::<RecView>::empty()));
        assert(seq![r] + Seq::<RecView>::empty() =~= t.push(r));
    } else {
        let first = dec_at(sh, b, off)->Some_0;
        lemma_dec_at_wf(sh, b, off);
        let sz = rec_size(sh, first);
        assert(b2.subrange(off, off + sz) =~= b.subrange(off, off + sz));
        lemma_dec_at_agree(sh, b, b2, off);
        lemma_parse_append(sh, b, off + sz, r);
        let rest = parse_from(sh, b, off + sz)->Some_0;
        assert(parse_from(sh, b2, off) == Some(seq![first] + rest.push(r)));
        assert(seq![first] + rest.push(r) =~= (seq![first] + rest).push(r));
    }
}

/// Replacing record `i` by an equal-sized record re-parses to the updated
/// sequence; every other record keeps its bytes and its address.
#[verifier::rlimit(60)]
#[verifier::spinoff_prover]
pub proof fn lemma_parse_update(sh: Shape, b: Seq<u8>, off: int, i: int, r2: RecView)
    requires
        parse_from(sh, b, off) is Some,
        0 <= i < parse_from(sh, b, off)->Some_0.len(),
        rec_wf(sh, r2),
        rec_size(sh, r2) == rec_size(sh, parse_from(sh, b, off)->Some_0[i]),
    ensures
        ({
            let t = parse_from(sh, b, off)->Some_0;
            let s = off + start_of(sh, t, i);
            let b2 = b.subrange(0, s) + rec_enc(sh, r2) + b.subrange(
                s + rec_size(sh, t[i]),
                b.len() as int,
            );
            &&& b2.len() == b.len()
            &&& parse_from(sh, b2, off) == Some(t.update(i, r2))
        }),
    decreases i,
{
    lemma_parse_from_wf(sh, b, off);
    lemma_rec_enc_len(sh, r2);
    let t = parse_from(sh, b, off)->Some_0;
    let s = off + start_of(sh, t, i);
    let sz = rec_size(sh, t[i]);
    let b2 = b.subrange(0, s) + rec_enc(sh, r2) + b.subrange(s + sz, b.len() as int);
    let first = dec_at(sh, b, off)->Some_0;
    lemma_dec_at_wf(sh, b, off);
    let sz0 = rec_size(sh, first);
    let rest = parse_from(sh, b, off + sz0)->Some_0;
    assert(t == seq![first] + rest);
    assert(t[0] == first);
    if i == 0 {
        assert(s == off);
        assert(sz == sz0);
        lemma_dec_at_enc(sh, b.subrange(0, off), r2, b.subrange(off + sz, b.len() as int));
        assert(b2 == b.subrange(0, off) + rec_enc(sh, r2) + b.subrange(off + sz, b.len() as int));
        assert(dec_at(sh, b2, off) == Some(r2));
        lemma_dec_at_wf(sh, b2, off);
        assert(b2.skip(off + sz) =~= b.skip(off + sz));
        lemma_parse_from_suffix(sh, b, off + sz, b2, off + sz);
        assert(parse_from(sh, b2, off + sz) == Some(rest));
        assert(parse_from(sh, b2, off) == Some(seq![r2] + rest));
        assert(seq![r2] + rest =~= t.update(0, r2));
    } else {
        // the splice lies beyond the first record
        assert(start_of(sh, t, i) >= sz0) by {
            lemma_start_of_mono(sh, t, 1, i);
            assert(start_of(sh, t, 0) == 0);
            assert(start_of(sh, t, 1) == start_of(sh, t, 0) + rec_size(sh, t[0]));
        }
        lemma_start_of_mono_zero(sh, t, i);
        lemma_start_of_mono(sh, t, i, t.len() as int);
        lemma_start_of_mono(sh, t, i + 1, t.len() as int);
        assert(s + sz <= b.len()) by {
            assert(start_of(sh, t, i + 1) == start_of(sh, t, i) + rec_size(sh, t[i]));
        }
        assert forall|k: int| off <= k < off + sz0 implies b2[k] == b[k] by {
            assert(k < s);
            assert(b2[k] == b.subrange(0, s)[k]);
        }
        assert(b2.subrange(off, off + sz0) =~= b.subrange(off, off + sz0));
        lemma_dec_at_agree(sh, b, b2, off);
        assert(rest[i - 1] == t[i]);
        lemma_start_of_drop(sh, t, i);
        assert(t.drop_first() =~= rest);
        assert(off + start_of(sh, t, i) == (off + sz0) + start_of(sh, rest, i - 1));
        lemma_parse_update(sh, b, off + sz0, i - 1, r2);
        assert(parse_from(sh, b2, off + sz0) == Some(rest.update(i - 1, r2)));
        assert(parse_from(sh, b2, off) == Some(seq![first] + rest.update(i - 1, r2)));
        assert(seq![first] + rest.update(i - 1, r2) =~= t.update(i, r2));
    }
}

/// Cutting record `i`'s bytes out re-parses to the sequence without it.
#[verifier::rlimit(60)]
#[verifier::spinoff_prover]
pub proof fn lemma_parse_remove(sh: Shape, b: Seq<u8>, off: int, i: int)
    requires
        parse_from(sh, b, off) is Some,
        0 <= i < parse_from(sh, b, off)->Some_0.len(),
    ensures
        ({
            let t = parse_from(sh, b, off)->Some_0;
            let s = off + start_of(sh, t, i);
            let b2 = b.subrange(0, s) + b.subrange(s + rec_size(sh, t[i]), b.len() as int);
            parse_from(sh, b2, off) == Some(t.remove(i))
        }),
    decreases i,
{
    lemma_parse_from_wf(sh, b, off);
    let t = parse_from(sh, b, off)->Some_0;
    let s = off + start_of(sh, t, i);
    let sz = rec_size(sh, t[i]);
    let b2 = b.subrange(0, s) + b.subrange(s + sz, b.len() as int);
    let first = dec_at(sh, b, off)->Some_0;
    lemma_dec_at_wf(sh, b, off);
    let sz0 = rec_size(sh, first);
    let rest = parse_from(sh, b, off + sz0)->Some_0;
    assert(t == seq![first] + rest);
    assert(t[0] == first);
    if i == 0 {
        assert(s == off);
        assert(b2.len() == b.len() - sz);
        assert forall|k: int| 0 <= k < b2.len() - off implies b2.skip(off)[k] == b.skip(off + sz)[k]
            by {
            assert(b2.skip(off)[k] == b2[off + k]);
            assert(b2[off + k] == b.subrange(off + sz, b.len() as int)[k]);
            assert(b.skip(off + sz)[k] == b[off + sz + k]);
        }
        assert(b2.skip(off) =~= b.skip(off + sz));
        lemma_parse_from_suffix(sh, b, off + sz, b2, off);
        assert(t.remove(0) =~= rest);
    } else {
        assert(start_of(sh, t, i) >= sz0) by {
            lemma_start_of_mono(sh, t, 1, i);
            assert(start_of(sh, t, 0) == 0);
            assert(start_of(sh, t, 1) == start_of(sh, t, 0) + rec_size(sh, t[0]));
        }
        lemma_start_of_mono_zero(sh, t, i);
        lemma_start_of_mono(sh, t, i, t.len() as int);
        lemma_start_of_mono(sh, t, i + 1, t.len() as int);
        assert(s + sz <= b.len()) by {
            assert(start_of(sh, t, i + 1) == start_of(sh, t, i) + rec_size(sh, t[i]));
        }
        assert forall|k: int| off <= k < off + sz0 implies b2[k] == b[k] by {
            assert(k < s);
            assert(b2[k] == b.subrange(0, s)[k]);
        }
        assert(b2.subrange(off, off + sz0) =~= b.subrange(off, off + sz0));
        lemma_dec_at_agree(sh, b, b2, off);
        assert(rest[i - 1] == t[i]);
        lemma_start_of_drop(sh, t, i);
        assert(t.drop_first() =~= rest);
        assert(off + start_of(sh, t, i) == (off + sz0) + start_of(sh, rest, i - 1));
        lemma_parse_remove(sh, b, off + sz0, i - 1);
        assert(parse_from(sh, b2, off + sz0) == Some(rest.remove(i - 1)));
        assert(parse_from(sh, b2, off) == Some(seq![first] + rest.remove(i - 1)));
        assert(seq![first] + rest.remove(i - 1) =~= t.remove(i));
    }
}

/// Record `i` of a parsed layout decodes at its own address.
pub proof fn lemma_dec_at_start(sh: Shape, b: Seq<u8>, off: int, i: int)
    requires
        parse_from(sh, b, off) is Some,
        0 <= i < parse_from(sh, b, off)->Some_0.len(),
    ensures
        dec_at(sh, b, off + start_of(sh, parse_from(sh, b, off)->Some_0, i)) == Some(
            parse_from(sh, b, off)->Some_0[i],
        ),
    decreases i,
{
    let t = parse_from(sh, b, off)->Some_0;
    let first = dec_at(sh, b, off)->Some_0;
    lemma_dec_at_wf(sh, b, off);
    let sz0 = rec_size(sh, first);
    let rest = parse_from(sh, b, off + sz0)->Some_0;
    assert(t == seq![first] + rest);
    assert(t[0] == first);
    if i == 0 {
    } else {
        assert(rest[i - 1] == t[i]);
        lemma_start_of_drop(sh, t, i);
        assert(t.drop_first() =~= rest);
        lemma_dec_at_start(sh, b, off + sz0, i - 1);
    }
}

/// Addresses of existing records are unchanged by appending one more.
pub proof fn lemma_start_of_push(sh: Shape, rs: Seq<RecView>, r: RecView, i: int)
    requires
        0 <= i <= rs.len(),
    ensures
        start_of(sh, rs.push(r), i) == start_of(sh, rs, i),
    decreases i,
{
    if i > 0 {
        lemma_start_of_push(sh, rs, r, i - 1);
        assert(rs.push(r)[i - 1] == rs[i - 1]);
    }
}

/// Reading one more trailing field extends the decoded sequence on the
/// right.
pub proof fn lemma_dec_trailing_snoc(b: Seq<u8>, p: int, n: int)
    requires
        n >= 0,
    ensures
        dec_trailing(b, p, n + 1) == dec_trailing(b, p, n).push(
            spec_u64_from_be_bytes(b.subrange(p + 8 * n, p + 8 * n + 8)),
        ),
    decreases n,
{
    let x = spec_u64_from_be_bytes(b.subrange(p + 8 * n, p + 8 * n + 8));
    if n == 0 {
        assert(dec_trailing(b, p + 8, 0) == Seq::<u64>::empty());
        assert(dec_trailing(b, p, 1) == seq![spec_u64_from_be_bytes(b.subrange(p, p + 8))]
            + Seq::<u64>::empty());
        assert(dec_trailing(b, p, 0) == Seq::<u64>::empty());
        assert(dec_trailing(b, p, 1) =~= dec_trailing(b, p, 0).push(x));
    } else {
        lemma_dec_trailing_snoc(b, p + 8, n - 1);
        assert(p + 8 + 8 * (n - 1) == p + 8 * n);
        assert(dec_trailing(b, p, n + 1) == seq![spec_u64_from_be_bytes(b.subrange(p, p + 8))]
            + dec_trailing(b, p + 8, n));
        assert(dec_trailing(b, p, n) == seq![spec_u64_from_be_bytes(b.subrange(p, p + 8))]
            + dec_trailing(b, p + 8, n - 1));
        assert(dec_trailing(b, p + 8, n) == dec_trailing(b, p + 8, n - 1).push(x));
        assert(dec_trailing(b, p, n + 1) =~= dec_trailing(b, p, n).push(x));
    }
}

/// The live records, paired with their addresses, in file order.
pub open spec fn live_entries(sh: Shape, rs: Seq<RecView>, base: int) -> Seq<(u64, RecView)>
    decreases rs.len(),
{
    if rs.len() == 0 {
        Seq::empty()
    } else {
        let rest = live_entries(sh, rs.drop_first(), base + rec_size(sh, rs[0]));
        if is_live(sh, rs[0]) {
            seq![((base as u64), rs[0])] + rest
        } else {
            rest
        }
    }
}

/// Copies `v[from .. to]` into a fresh vector.
pub fn copy_range(v: &Vec<u8>, from: usize, to: usize) -> (r: Vec<u8>)
    requires
        from <= to <= v.len(),
    ensures
        r@ == v@.subrange(from as int, to as int),
{
    let mut r: Vec<u8> = Vec::new();
    let mut i: usize = from;
    while i < to
        invariant
            from <= i <= to <= v.len(),
            r@ == v@.subrange(from as int, i as int),
        decreases to - i,
    {
        r.push(v[i]);
        assert(r@ =~= v@.subrange(from as int, i + 1));
        i = i + 1;
    }
    r
}

/// Overwrites `v[at .. at + src.len()]` with `src`.
pub fn overwrite_range(v: &mut Vec<u8>, at: usize, src: &Vec<u8>)
    requires
        at + src.len() <= old(v).len(),
    ensures
        final(v)@ == old(v)@.subrange(0, at as int) + src@ + old(v)@.subrange(
            at + src.len(),
            old(v).len() as int,
        ),
{
    let n = src.len();
    let mut i: usize = 0;
    while i < n
        invariant
            n == src.len(),
            0 <= i <= n,
            at + n <= v.len() == old(v).len(),
            forall|j: int| 0 <= j < i ==> v@[at + j] == src@[j],
            forall|j: int| 0 <= j < v@.len() && !(at <= j < at + i) ==> v@[j] == old(v)@[j],
        decreases n - i,
    {
        v[at + i] = src[i];
        i = i + 1;
    }
    proof {
        let a = old(v)@;
        let rhs = a.subrange(0, at as int) + src@ + a.subrange(at + n, a.len() as int);
        assert(v@.len() == rhs.len());
        assert forall|j: int| 0 <= j < a.len() implies v@[j] == rhs[j] by {
            if j < at {
                assert(v@[j] == a[j]);
            } else if j < at + n {
                assert(v@[at + (j - at)] == src@[j - at]);
                assert(rhs[j] == src@[j - at]);
            } else {
                assert(v@[j] == a[j]);
                assert(rhs[j] == a[j]);
            }
        }
        assert(v@ =~= rhs);
    }
}

/// Compares two byte vectors.
pub fn bytes_eq(a: &Vec<u8>, b: &Vec<u8>) -> (r: bool)
    ensures
        r == (a@ == b@),
{
    if a.len() != b.len() {
        proof {
            assert(a@.len() != b@.len());
        }
        return false;
    }
    let n = a.len();
    let mut i: usize = 0;
    while i < n
        invariant
            n == a.len() == b.len(),
            0 <= i <= n,
            forall|j: int| 0 <= j < i ==> a@[j] == b@[j],
        decreases n - i,
    {
        if a[i] != b[i] {
            return false;
        }
        i = i + 1;
    }
    proof {
        assert(a@ =~= b@);
    }
    true
}

/// A fresh all-zero key field, as a tombstone writes it.
pub fn make_zero_key() -> (r: Vec<u8>)
    ensures
        r@ == zero_key(),
{
    let mut r: Vec<u8> = Vec::new();
    let mut i: usize = 0;
    while i < KEY_LEN
        invariant
            0 <= i <= KEY_LEN,
            r@.len() == i,
            forall|j: int| 0 <= j < i ==> r@[j] == 0u8,
        decreases KEY_LEN - i,
    {
        r.push(0u8);
        i = i + 1;
    }
    proof {
        assert(r@ =~= zero_key());
    }
    r
}

/// Serializes one record: key, 8-byte name length, name, trailing fields.
pub fn encode_record(sh: Shape, r: &Record) -> (out: Vec<u8>)
    requires
        rec_wf(sh, r@),
    ensures
        out@ == rec_enc(sh, r@),
        out@.len() == rec_size(sh, r@),
{
    proof {
        lemma_rec_enc_len(sh, r@);
    }
    let mut out: Vec<u8> = Vec::new();
    out.extend_from_slice(r.key.as_slice());
    assert(out@ =~= r.key@);
    push_u64_be(&mut out, r.name.len() as u64);
    out.extend_from_slice(r.name.as_slice());
    assert(out@ =~= r.key@ + spec_u64_to_be_bytes(r.name@.len() as u64) + r.name@);
    let ghost head = out@;
    let n = r.trailing.len();
    let mut i: usize = 0;
    while i < n
        invariant
            n == r.trailing.len(),
            0 <= i <= n,
            out@ == head + enc_trailing(r.trailing@.take(i as int)),
        decreases n - i,
    {
        push_u64_be(&mut out, r.trailing[i]);
        proof {
            lemma_enc_trailing_push(r.trailing@.take(i as int), r.trailing@[i as int]);
            assert(r.trailing@.take(i as int).push(r.trailing@[i as int]) =~= r.trailing@.take(
                i + 1,
            ));
        }
        i = i + 1;
    }
    proof {
        assert(r.trailing@.take(n as int) =~= r.trailing@);
        assert(out@ =~= rec_enc(sh, r@));
    }
    out
}

/// Decodes the record that starts at position `p`.
pub fn decode_here(file: &Vec<u8>, sh: Shape, p: usize) -> (out: (Record, usize))
    requires
        dec_at(sh, file@, p as int) is Some,
    ensures
        out.0@ == dec_at(sh, file@, p as int)->Some_0,
        out.1 == rec_size(sh, out.0@),
        p + out.1 <= file.len(),
        rec_wf(sh, out.0@),
{
    proof {
        lemma_dec_at_wf(sh, file@, p as int);
    }
    let klen: usize = if sh.has_key {
        KEY_LEN
    } else {
        0
    };
    let flen = file.len();
    let key = copy_range(file, p, p + klen);
    let nlen64 = read_u64_be(file, p + klen);
    proof {
        assert(file@.len() <= usize::MAX);
        assert(nlen64 as int <= file@.len());
        assert(nlen64 <= usize::MAX as u64);
    }
    let nlen = nlen64 as usize;
    let name = copy_range(file, p + klen + 8, p + klen + 8 + nlen);
    let tbase = p + klen + 8 + nlen;
    proof {
        assert(8 * (sh.n_trailing as int) <= file@.len());
    }
    let nt = sh.n_trailing as usize;
    let mut trailing: Vec<u64> = Vec::new();
    let mut i: usize = 0;
    while i < nt
        invariant
            nt == sh.n_trailing,
            0 <= i <= nt,
            tbase + 8 * nt <= file.len(),
            trailing@ == dec_trailing(file@, tbase as int, i as int),
        decreases nt - i,
    {
        let x = read_u64_be(file, tbase + 8 * i);
        trailing.push(x);
        proof {
            lemma_dec_trailing_snoc(file@, tbase as int, i as int);
        }
        i = i + 1;
    }
    let rec = Record { key, name, trailing };
    let sz = klen + 8 + nlen + 8 * nt;
    proof {
        assert(rec@ == dec_at(sh, file@, p as int)->Some_0);
    }
    (rec, sz)
}

/// The index of the first record bearing `name`, or `-1`.
pub open spec fn first_name_idx(rs: Seq<RecView>, name: Seq<u8>) -> int
    decreases rs.len(),
{
    if rs.len() == 0 {
        -1
    } else if rs[0].name == name {
        0
    } else {
        let r = first_name_idx(rs.drop_first(), name);
        if r < 0 {
            -1
        } else {
            r + 1
        }
    }
}

pub proof fn lemma_first_name_at(rs: Seq<RecView>, name: Seq<u8>, i: int)
    requires
        0 <= i < rs.len(),
        rs[i].name == name,
        forall|j: int| 0 <= j < i ==> (#[trigger] rs[j]).name != name,
    ensures
        first_name_idx(rs, name) == i,
    decreases rs.len(),
{
    if i > 0 {
        let t = rs.drop_first();
        assert(forall|j: int| 0 <= j < i - 1 ==> #[trigger] t[j] == rs[j + 1]);
        lemma_first_name_at(t, name, i - 1);
    }
}

pub proof fn lemma_first_name_none(rs: Seq<RecView>, name: Seq<u8>)
    requires
        forall|j: int| 0 <= j < rs.len() ==> (#[trigger] rs[j]).name != name,
    ensures
        first_name_idx(rs, name) == -1,
    decreases rs.len(),
{
    if rs.len() > 0 {
        assert(forall|j: int|
            0 <= j < rs.drop_first().len() ==> #[trigger] rs.drop_first()[j] == rs[j + 1]);
        lemma_first_name_none(rs.drop_first(), name);
    }
}

pub proof fn lemma_first_name_props(rs: Seq<RecView>, name: Seq<u8>)
    requires
        first_name_idx(rs, name) >= 0,
    ensures
        0 <= first_name_idx(rs, name) < rs.len(),
        rs[first_name_idx(rs, name)].name == name,
        forall|j: int| 0 <= j < first_name_idx(rs, name) ==> (#[trigger] rs[j]).name != name,
    decreases rs.len(),
{
    if rs.len() > 0 && rs[0].name != name {
        let t = rs.drop_first();
        assert(forall|j: int| 0 <= j < t.len() ==> #[trigger] t[j] == rs[j + 1]);
        let r = first_name_idx(t, name);
        assert(r >= 0);
        lemma_first_name_props(t, name);
        assert(first_name_idx(rs, name) == r + 1);
        assert(rs[r + 1] == t[r]);
        assert(rs[first_name_idx(rs, name)].name == name);
        assert forall|j: int| 0 <= j < first_name_idx(rs, name) implies (#[trigger] rs[j]).name
            != name by {
            if j > 0 {
                assert(t[j - 1] == rs[j]);
            }
        }
    }
}

/// Appends one record; its address is the file length before the append.
pub fn append_record(file: &mut Vec<u8>, sh: Shape, rec: &Record) -> (off: u64)
    requires
        records_opt(sh, old(file)@) is Some,
        rec_wf(sh, rec@),
    ensures
        off == old(file)@.len(),
        final(file)@ == old(file)@ + rec_enc(sh, rec@),
        records_opt(sh, final(file)@) == Some(recs(sh, old(file)@).push(rec@)),
        rec_index(sh, recs(sh, final(file)@), off as int) == recs(sh, old(file)@).len() as int,
{
    let off = file.len();
    let mut enc = encode_record(sh, rec);
    file.append(&mut enc);
    proof {
        lemma_parse_from_wf(sh, old(file)@, 0);
        lemma_parse_append(sh, old(file)@, 0, rec@);
        let rs = recs(sh, old(file)@);
        let rs2 = recs(sh, file@);
        assert(rs2 == rs.push(rec@));
        lemma_parse_from_wf(sh, file@, 0);
        lemma_start_of_push(sh, rs, rec@, rs.len() as int);
        assert(start_of(sh, rs2, rs.len() as int) == off as int);
        lemma_rec_index_complete(sh, rs2, rs.len() as int);
    }
    off as u64
}

/// Reads the record whose address is `off`; fails when no record starts
/// exactly there.
pub fn read_record_at(file: &Vec<u8>, sh: Shape, off: u64) -> (r: Result<Record, BrokerError>)
    requires
        records_opt(sh, file@) is Some,
    ensures
        ({
            let rs = recs(sh, file@);
            let i = rec_index(sh, rs, off as int);
            match r {
                Ok(rec) => i >= 0 && i < rs.len() && rec@ == rs[i] && rec_wf(sh, rec@),
                Err(e) => i < 0 && e == BrokerError::CorruptRecord,
            }
        }),
{
    proof {
        lemma_parse_from_wf(sh, file@, 0);
    }
    let ghost rs = recs(sh, file@);
    let n = file.len();
    let mut p: usize = 0;
    let ghost mut k: int = 0int;
    while p < n && (p as u64) < off
        invariant
            records_opt(sh, file@) is Some,
            rs == recs(sh, file@),
            n == file.len(),
            0 <= k <= rs.len(),
            p as int == start_of(sh, rs, k),
            p <= n,
            parse_from(sh, file@, p as int) == Some(rs.skip(k)),
            forall|j: int| 0 <= j < k ==> #[trigger] start_of(sh, rs, j) < off as int,
        decreases n - p,
    {
        proof {
            assert(rs.skip(k).len() > 0);
            assert(dec_at(sh, file@, p as int) == Some(rs.skip(k)[0]));
            assert(rs.skip(k)[0] == rs[k]);
            lemma_dec_at_wf(sh, file@, p as int);
        }
        let klen: usize = if sh.has_key {
            KEY_LEN
        } else {
            0
        };
        let nlen64 = read_u64_be(file, p + klen);
        proof {
            assert(nlen64 as int <= file@.len());
            assert(8 * (sh.n_trailing as int) <= file@.len());
        }
        let nlen = nlen64 as usize;
        let nt = sh.n_trailing as usize;
        let sz = klen + 8 + nlen + 8 * nt;
        proof {
            assert(sz as int == rec_size(sh, rs[k]));
            assert(parse_from(sh, file@, p as int + sz as int) == Some(rs.skip(k + 1))) by {
                assert(rs.skip(k).drop_first() =~= rs.skip(k + 1));
            }
            assert(start_of(sh, rs, k + 1) == p as int + sz as int);
            k = k + 1;
        }
        p = p + sz;
    }
    if p < n && p as u64 == off {
        proof {
            assert(rs.skip(k).len() > 0);
            assert(dec_at(sh, file@, p as int) == Some(rs.skip(k)[0]));
            assert(rs.skip(k)[0] == rs[k]);
            lemma_rec_index_complete(sh, rs, k);
            lemma_dec_at_wf(sh, file@, p as int);
        }
        let out = decode_here(file, sh, p);
        Ok(out.0)
    } else {
        proof {
            if p as int == n as int {
                assert(parse_from(sh, file@, n as int) == Some(Seq::<RecView>::empty()));
                assert(rs.skip(k).len() == 0);
                assert(k == rs.len());
            }
            assert forall|j: int| 0 <= j < rs.len() implies #[trigger] start_of(sh, rs, j)
                != off as int by {
                if j >= k {
                    if p < n {
                        lemma_start_of_mono(sh, rs, k, j);
                        assert(p as u64 > off);
                    } else {
                        assert(p as int == n as int);
                        assert(false);
                    }
                }
            }
            if rec_index(sh, rs, off as int) >= 0 {
                lemma_rec_index_some(sh, rs, off as int);
            }
        }
        Err(BrokerError::CorruptRecord)
    }
}

/// Replaces the record at address `off` in place. The replacement must
/// keep the variable field's length, so no address changes; fails when
/// `off` addresses no record or the length would change.
pub fn write_record_at(file: &mut Vec<u8>, sh: Shape, off: u64, rec: &Record) -> (r: Result<
    (),
    BrokerError,
>)
    requires
        records_opt(sh, old(file)@) is Some,
        rec_wf(sh, rec@),
    ensures
        ({
            let rs = recs(sh, old(file)@);
            let i = rec_index(sh, rs, off as int);
            match r {
                Ok(_) => {
                    &&& i >= 0
                    &&& rs[i].name.len() == rec@.name.len()
                    &&& records_opt(sh, final(file)@) == Some(rs.update(i, rec@))
                    &&& final(file)@.len() == old(file)@.len()
                },
                Err(e) => {
                    &&& e == BrokerError::CorruptRecord
                    &&& *final(file) == *old(file)
                    &&& (i < 0 || rs[i].name.len() != rec@.name.len())
                },
            }
        }),
{
    let ghost rs = recs(sh, old(file)@);
    let found = read_record_at(file, sh, off);
    match found {
        Err(_) => Err(BrokerError::CorruptRecord),
        Ok(oldrec) => {
            if oldrec.name.len() != rec.name.len() {
                return Err(BrokerError::CorruptRecord);
            }
            let ghost i = rec_index(sh, rs, off as int);
            proof {
                lemma_rec_index_some(sh, rs, off as int);
                lemma_parse_from_wf(sh, old(file)@, 0);
                lemma_parse_update(sh, old(file)@, 0, i, rec@);
                lemma_start_of_mono(sh, rs, i + 1, rs.len() as int);
                assert(start_of(sh, rs, i + 1) == off as int + rec_size(sh, rs[i]));
                assert(off as int + rec_size(sh, rs[i]) <= old(file)@.len());
                lemma_rec_enc_len(sh, rec@);
            }
            let enc = encode_record(sh, rec);
            overwrite_range(file, off as usize, &enc);
            proof {
                assert(file@ =~= old(file)@.subrange(0, off as int) + rec_enc(sh, rec@)
                    + old(file)@.subrange(
                    off as int + rec_size(sh, rs[i]),
                    old(file)@.len() as int,
                ));
            }
            Ok(())
        },
    }
}

/// Tombstones the record at address `off`: its key field is zeroed in
/// place and nothing else changes, leaving a dead entry that scans skip.
pub fn tombstone_record(file: &mut Vec<u8>, sh: Shape, off: u64) -> (r: Result<(), BrokerError>)
    requires
        records_opt(sh, old(file)@) is Some,
        sh.has_key,
    ensures
        ({
            let rs = recs(sh, old(file)@);
            let i = rec_index(sh, rs, off as int);
            match r {
                Ok(_) => {
                    &&& i >= 0
                    &&& records_opt(sh, final(file)@) == Some(
                        rs.update(
                            i,
                            RecView { key: zero_key(), name: rs[i].name, trailing: rs[i].trailing },
                        ),
                    )
                    &&& final(file)@.len() == old(file)@.len()
                },
                Err(e) => {
                    &&& e == BrokerError::CorruptRecord
                    &&& *final(file) == *old(file)
                    &&& i < 0
                },
            }
        }),
{
    let ghost rs = recs(sh, old(file)@);
    let found = read_record_at(file, sh, off);
    match found {
        Err(_) => Err(BrokerError::CorruptRecord),
        Ok(oldrec) => {
            let dead = Record { key: make_zero_key(), name: oldrec.name, trailing: oldrec.trailing };
            proof {
                assert(zero_key().len() == KEY_LEN as int);
            }
            let res = write_record_at(file, sh, off, &dead);
            proof {
                assert(res is Ok);
            }
            Ok(())
        },
    }
}

/// Deletes the record at address `off` by closing the byte gap; every
/// later record's address shrinks by the deleted record's size.
pub fn compact_delete_at(file: &mut Vec<u8>, sh: Shape, off: u64) -> (r: Result<(), BrokerError>)
    requires
        records_opt(sh, old(file)@) is Some,
    ensures
        ({
            let rs = recs(sh, old(file)@);
            let i = rec_index(sh, rs, off as int);
            match r {
                Ok(_) => {
                    &&& i >= 0
                    &&& records_opt(sh, final(file)@) == Some(rs.remove(i))
                    &&& final(file)@ == old(file)@.subrange(0, off as int) + old(file)@.subrange(
                        off as int + rec_size(sh, rs[i]),
                        old(file)@.len() as int,
                    )
                },
                Err(e) => {
                    &&& e == BrokerError::CorruptRecord
                    &&& *final(file) == *old(file)
                    &&& i < 0
                },
            }
        }),
{
    let ghost rs = recs(sh, old(file)@);
    let found = read_record_at(file, sh, off);
    match found {
        Err(_) => Err(BrokerError::CorruptRecord),
        Ok(oldrec) => {
            let ghost i = rec_index(sh, rs, off as int);
            proof {
                lemma_rec_index_some(sh, rs, off as int);
                lemma_parse_from_wf(sh, old(file)@, 0);
                lemma_parse_remove(sh, old(file)@, 0, i);
                lemma_start_of_mono(sh, rs, i + 1, rs.len() as int);
                assert(start_of(sh, rs, i + 1) == off as int + rec_size(sh, rs[i]));
                assert(off as int + rec_size(sh, rs[i]) <= old(file)@.len());
            }
            let flen = file.len();
            let klen: usize = if sh.has_key {
                KEY_LEN
            } else {
                0
            };
            proof {
                assert(oldrec@ == rs[i]);
                assert(8 * (sh.n_trailing as int) <= rec_size(sh, rs[i]));
                assert(rec_size(sh, rs[i]) <= flen as int);
                assert(sh.n_trailing <= usize::MAX as u64);
            }
            let sz = klen + 8 + oldrec.name.len() + 8 * (sh.n_trailing as usize);
            proof {
                assert(sz as int == rec_size(sh, rs[i]));
            }
            let start = off as usize;
            let mut tail = copy_range(file, start + sz, flen);
            file.truncate(start);
            file.append(&mut tail);
            proof {
                assert(file@ =~= old(file)@.subrange(0, off as int) + old(file)@.subrange(
                    off as int + rec_size(sh, rs[i]),
                    old(file)@.len() as int,
                ));
            }
            Ok(())
        },
    }
}

/// Lists every live record with its address, in file order.
pub fn scan_live(file: &Vec<u8>, sh: Shape) -> (r: Vec<(u64, Record)>)
    requires
        records_opt(sh, file@) is Some,
    ensures
        r@.map_values(|pr: (u64, Record)| (pr.0, pr.1@)) == live_entries(
            sh,
            recs(sh, file@),
            0,
        ),
{
    proof {
        lemma_parse_from_wf(sh, file@, 0);
    }
    let ghost rs = recs(sh, file@);
    let n = file.len();
    let mut out: Vec<(u64, Record)> = Vec::new();
    let mut p: usize = 0;
    let ghost mut k: int = 0int;
    proof {
        assert(rs.skip(0) =~= rs);
        assert(out@.map_values(|pr: (u64, Record)| (pr.0, pr.1@)) + live_entries(sh, rs, 0)
            =~= live_entries(sh, rs, 0));
    }
    while p < n
        invariant
            records_opt(sh, file@) is Some,
            rs == recs(sh, file@),
            n == file.len(),
            0 <= k <= rs.len(),
            p as int == start_of(sh, rs, k),
            p <= n,
            parse_from(sh, file@, p as int) == Some(rs.skip(k)),
            out@.map_values(|pr: (u64, Record)| (pr.0, pr.1@)) + live_entries(
                sh,
                rs.skip(k),
                p as int,
            ) == live_entries(sh, rs, 0),
        decreases n - p,
    {
        proof {
            assert(rs.skip(k).len() > 0);
            assert(dec_at(sh, file@, p as int) == Some(rs.skip(k)[0]));
            assert(rs.skip(k)[0] == rs[k]);
            lemma_dec_at_wf(sh, file@, p as int);
        }
        let out_here = decode_here(file, sh, p);
        let rec = out_here.0;
        let sz = out_here.1;
        let zeros = make_zero_key();
        let live = !sh.has_key || !bytes_eq(&rec.key, &zeros);
        let ghost prev = out@;
        if live {
            out.push((p as u64, rec));
        }
        proof {
            assert(sz as int == rec_size(sh, rs[k]));
            assert(parse_from(sh, file@, p as int + sz as int) == Some(rs.skip(k + 1))) by {
                assert(rs.skip(k).drop_first() =~= rs.skip(k + 1));
            }
            assert(start_of(sh, rs, k + 1) == p as int + sz as int);
            assert(live == is_live(sh, rs[k]));
            assert(live_entries(sh, rs.skip(k), p as int) == if is_live(sh, rs[k]) {
                seq![((p as u64), rs[k])] + live_entries(sh, rs.skip(k + 1), p as int + sz as int)
            } else {
                live_entries(sh, rs.skip(k + 1), p as int + sz as int)
            }) by {
                assert(rs.skip(k).drop_first() =~= rs.skip(k + 1));
            }
            if live {
                assert(out@.map_values(|pr: (u64, Record)| (pr.0, pr.1@)) =~= prev.map_values(
                    |pr: (u64, Record)| (pr.0, pr.1@),
                ).push(((p as u64), rs[k])));
            }
            assert(out@.map_values(|pr: (u64, Record)| (pr.0, pr.1@)) + live_entries(
                sh,
                rs.skip(k + 1),
                p as int + sz as int,
            ) =~= live_entries(sh, rs, 0));
            k = k + 1;
        }
        p = p + sz;
    }
    proof {
        assert(parse_from(sh, file@, n as int) == Some(Seq::<RecView>::empty()));
        assert(rs.skip(k).len() == 0);
        assert(k == rs.len());
        assert(live_entries(sh, rs.skip(k), p as int) == Seq::<(u64, RecView)>::empty());
        assert(out@.map_values(|pr: (u64, Record)| (pr.0, pr.1@)) =~= live_entries(sh, rs, 0));
    }
    out
}

/// The smallest first-trailing-field value among live records bearing
/// `name`; `None` when no live record bears it.
pub fn min_live_cursor(file: &Vec<u8>, sh: Shape, name: &Vec<u8>) -> (r: Option<u64>)
    requires
        records_opt(sh, file@) is Some,
        sh.n_trailing >= 1,
    ensures
        ({
            let rs = recs(sh, file@);
            match r {
                None => forall|i: int|
                    0 <= i < rs.len() ==> !(is_live(sh, #[trigger] rs[i]) && rs[i].name == name@),
                Some(m) => {
                    &&& exists|i: int|
                        0 <= i < rs.len() && is_live(sh, #[trigger] rs[i]) && rs[i].name == name@
                            && rs[i].trailing[0] == m
                    &&& forall|i: int|
                        0 <= i < rs.len() && is_live(sh, #[trigger] rs[i]) && rs[i].name == name@
                            ==> m <= rs[i].trailing[0]
                },
            }
        }),
{
    proof {
        lemma_parse_from_wf(sh, file@, 0);
    }
    let ghost rs = recs(sh, file@);
    let n = file.len();
    let mut best: Option<u64> = None;
    let mut p: usize = 0;
    let ghost mut k: int = 0int;
    while p < n
        invariant
            records_opt(sh, file@) is Some,
            rs == recs(sh, file@),
            n == file.len(),
            0 <= k <= rs.len(),
            p as int == start_of(sh, rs, k),
            p <= n,
            sh.n_trailing >= 1,
            parse_from(sh, file@, p as int) == Some(rs.skip(k)),
            match best {
                None => forall|i: int|
                    0 <= i < k ==> !(is_live(sh, #[trigger] rs[i]) && rs[i].name == name@),
                Some(m) => {
                    &&& exists|i: int|
                        0 <= i < k && is_live(sh, #[trigger] rs[i]) && rs[i].name == name@
                            && rs[i].trailing[0] == m
                    &&& forall|i: int|
                        0 <= i < k && is_live(sh, #[trigger] rs[i]) && rs[i].name == name@ ==> m
                            <= rs[i].trailing[0]
                },
            },
        decreases n - p,
    {
        proof {
            assert(rs.skip(k).len() > 0);
            assert(dec_at(sh, file@, p as int) == Some(rs.skip(k)[0]));
            assert(rs.skip(k)[0] == rs[k]);
            lemma_dec_at_wf(sh, file@, p as int);
        }
        let out_here = decode_here(file, sh, p);
        let rec = out_here.0;
        let sz = out_here.1;
        let zeros = make_zero_key();
        let live = !sh.has_key || !bytes_eq(&rec.key, &zeros);
        if live && bytes_eq(&rec.name, name) {
            let cursor = rec.trailing[0];
            best = match best {
                None => Some(cursor),
                Some(m) => if cursor < m {
                    Some(cursor)
                } else {
                    Some(m)
                },
            };
        }
        proof {
            assert(sz as int == rec_size(sh, rs[k]));
            assert(parse_from(sh, file@, p as int + sz as int) == Some(rs.skip(k + 1))) by {
                assert(rs.skip(k).drop_first() =~= rs.skip(k + 1));
            }
            assert(start_of(sh, rs, k + 1) == p as int + sz as int);
            k = k + 1;
        }
        p = p + sz;
    }
    proof {
        assert(parse_from(sh, file@, n as int) == Some(Seq::<RecView>::empty()));
        assert(rs.skip(k).len() == 0);
        assert(k == rs.len());
    }
    best
}

/// Finds the first record bearing `name`, with its address.
pub fn find_by_name(file: &Vec<u8>, sh: Shape, name: &Vec<u8>) -> (r: Option<(u64, Record)>)
    requires
        records_opt(sh, file@) is Some,
    ensures
        ({
            let rs = recs(sh, file@);
            let i = first_name_idx(rs, name@);
            match r {
                Some((off, rec)) => {
                    &&& i >= 0
                    &&& rec@ == rs[i]
                    &&& off as int == start_of(sh, rs, i)
                    &&& rec_index(sh, rs, off as int) == i
                    &&& rec_wf(sh, rec@)
                },
                None => i < 0,
            }
        }),
{
    proof {
        lemma_parse_from_wf(sh, file@, 0);
    }
    let ghost rs = recs(sh, file@);
    let n = file.len();
    let mut p: usize = 0;
    let ghost mut k: int = 0int;
    while p < n
        invariant
            records_opt(sh, file@) is Some,
            rs == recs(sh, file@),
            n == file.len(),
            0 <= k <= rs.len(),
            p as int == start_of(sh, rs, k),
            p <= n,
            parse_from(sh, file@, p as int) == Some(rs.skip(k)),
            forall|j: int| 0 <= j < k ==> (#[trigger] rs[j]).name != name@,
        decreases n - p,
    {
        proof {
            assert(rs.skip(k).len() > 0);
            assert(dec_at(sh, file@, p as int) == Some(rs.skip(k)[0]));
            assert(rs.skip(k)[0] == rs[k]);
            lemma_dec_at_wf(sh, file@, p as int);
        }
        let out_here = decode_here(file, sh, p);
        let rec = out_here.0;
        let sz = out_here.1;
        if bytes_eq(&rec.name, name) {
            proof {
                lemma_first_name_at(rs, name@, k);
                lemma_rec_index_complete(sh, rs, k);
            }
            return Some((p as u64, rec));
        }
        proof {
            assert(sz as int == rec_size(sh, rs[k]));
            assert(parse_from(sh, file@, p as int + sz as int) == Some(rs.skip(k + 1))) by {
                assert(rs.skip(k).drop_first() =~= rs.skip(k + 1));
            }
            assert(start_of(sh, rs, k + 1) == p as int + sz as int);
            k = k + 1;
        }
        p = p + sz;
    }
    proof {
        assert(parse_from(sh, file@, n as int) == Some(Seq::<RecView>::empty()));
        assert(k == rs.len());
        lemma_first_name_none(rs, name@);
    }
    None
}

} // verus!
