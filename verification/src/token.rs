//! Tokens and event ids.
//!
//! A token is `"{registry offset}-{key}"`; an event id is
//! `"{byte offset}-{segment id}"`. Both split at the first `-`; a key may
//! itself contain `-` characters, a segment id may not.

use vstd::prelude::*;
use vstd::string::StrSliceExecFns;
use vstd::string::StringExecFns;
use crate::numstr::{spec_digits, spec_parse_u64, lemma_digits_of_val, lemma_digits_no_dash, lemma_u64_digits_roundtrip, format_u64, parse_u64};

verus! {

/// Index of the first `-` in `s`, or `-1` if there is none.
pub open spec fn first_dash(s: Seq<char>) -> int
    decreases s.len(),
{
    if s.len() == 0 {
        -1
    } else if s[0] == '-' {
        0
    } else {
        let r = first_dash(s.drop_first());
        if r < 0 {
            -1
        } else {
            r + 1
        }
    }
}

/// `first_dash` is exactly characterized by "no dash before, dash there".
pub proof fn lemma_first_dash_at(s: Seq<char>, i: int)
    requires
        0 <= i < s.len(),
        s[i] == '-',
        forall|j: int| 0 <= j < i ==> s[j] != '-',
    ensures
        first_dash(s) == i,
    decreases s.len(),
{
    if i > 0 {
        let t = s.drop_first();
        assert(forall|j: int| 0 <= j < i - 1 ==> #[trigger] t[j] == s[j + 1]);
        lemma_first_dash_at(t, i - 1);
    }
}

pub proof fn lemma_first_dash_none(s: Seq<char>)
    requires
        forall|j: int| 0 <= j < s.len() ==> s[j] != '-',
    ensures
        first_dash(s) == -1,
    decreases s.len(),
{
    if s.len() > 0 {
        lemma_first_dash_none(s.drop_first());
    }
}

/// What splitting a token means: `Some((offset, key))` when the part
/// before the first dash parses as a `u64` and both parts are nonempty.
pub open spec fn spec_parse_token(s: Seq<char>) -> Option<(u64, Seq<char>)> {
    let i = first_dash(s);
    if i < 0 {
        None
    } else {
        let pre = s.take(i);
        let suf = s.skip(i + 1);
        if pre.len() == 0 || suf.len() == 0 {
            None
        } else {
            match spec_parse_u64(pre) {
                Some(v) => Some((v, suf)),
                None => None,
            }
        }
    }
}

/// An event id is two numbers around the first dash.
pub open spec fn spec_parse_event_id(s: Seq<char>) -> Option<(u64, u64)> {
    match spec_parse_token(s) {
        None => None,
        Some((off, suf)) => match spec_parse_u64(suf) {
            Some(f) => Some((off, f)),
            None => None,
        },
    }
}

/// The token string for registry offset `off` and key `key`.
pub open spec fn spec_token(off: u64, key: Seq<char>) -> Seq<char> {
    spec_digits(off as nat) + seq!['-'] + key
}

/// The event id string for post-read byte offset `off` in segment `file`.
pub open spec fn spec_event_id(off: u64, file: u64) -> Seq<char> {
    spec_digits(off as nat) + seq!['-'] + spec_digits(file as nat)
}

/// Splitting an assembled token yields its parts back, whatever dashes
/// the key itself contains.
pub proof fn lemma_token_roundtrip(off: u64, key: Seq<char>)
    requires
        key.len() > 0,
    ensures
        spec_parse_token(spec_token(off, key)) == Some((off, key)),
{
    let d = spec_digits(off as nat);
    let s = spec_token(off, key);
    lemma_digits_of_val(off as nat);
    lemma_digits_no_dash(off as nat);
    assert(forall|j: int| 0 <= j < d.len() ==> #[trigger] s[j] == d[j]);
    assert(s[d.len() as int] == '-');
    lemma_first_dash_at(s, d.len() as int);
    assert(s.take(d.len() as int) =~= d);
    assert(s.skip(d.len() as int + 1) =~= key);
    lemma_u64_digits_roundtrip(off);
}

/// Splitting an assembled event id yields both numbers back.
pub proof fn lemma_event_id_roundtrip(off: u64, file: u64)
    ensures
        spec_parse_event_id(spec_event_id(off, file)) == Some((off, file)),
{
    lemma_digits_of_val(file as nat);
    lemma_token_roundtrip(off, spec_digits(file as nat));
    lemma_u64_digits_roundtrip(file);
}

/// Builds `"{off}-{key}"`.
pub fn assemble_token(off: u64, key: &str) -> (r: String)
    ensures
        r@ == spec_token(off, key@),
{
    proof {
        reveal_strlit("-");
    }
    let mut s = format_u64(off);
    s.append("-");
    s.append(key);
    proof {
        assert(s@ =~= spec_token(off, key@));
    }
    s
}

/// Builds `"{off}-{file}"`.
pub fn assemble_event_id(off: u64, file: u64) -> (r: String)
    ensures
        r@ == spec_event_id(off, file),
{
    proof {
        reveal_strlit("-");
    }
    let mut s = format_u64(off);
    s.append("-");
    let f = format_u64(file);
    s.append(f.as_str());
    proof {
        assert(s@ =~= spec_event_id(off, file));
    }
    s
}

/// Splits a token into offset and key.
pub fn parse_token(s: &str) -> (r: Option<(u64, String)>)
    ensures
        match r {
            Some((off, key)) => spec_parse_token(s@) == Some((off, key@)),
            None => spec_parse_token(s@) is None,
        },
{
    let n = s.unicode_len();
    let mut i: usize = 0;
    while i < n
        invariant
            0 <= i <= n == s@.len(),
            forall|j: int| 0 <= j < i ==> s@[j] != '-',
        decreases n - i,
    {
        if s.get_char(i) == '-' {
            proof {
                lemma_first_dash_at(s@, i as int);
            }
            if i == 0 || i + 1 == n {
                return None;
            }
            let pre = s.substring_char(0, i);
            let suf = s.substring_char(i + 1, n);
            proof {
                assert(pre@ =~= s@.take(i as int));
                assert(suf@ =~= s@.skip(i + 1));
            }
            match parse_u64(pre) {
                Some(v) => {
                    return Some((v, suf.to_owned()));
                },
                None => {
                    return None;
                },
            }
        }
        i = i + 1;
    }
    proof {
        lemma_first_dash_none(s@);
    }
    None
}

/// Splits an event id into byte offset and segment id.
pub fn parse_event_id(s: &str) -> (r: Option<(u64, u64)>)
    ensures
        r == spec_parse_event_id(s@),
{
    match parse_token(s) {
        Some((off, suf)) => match parse_u64(suf.as_str()) {
            Some(f) => Some((off, f)),
            None => None,
        },
        None => None,
    }
}

} // verus!
