//! Decimal rendering and parsing of `u64` values.
//!
//! Registry offsets and segment ids travel inside tokens and event ids as
//! decimal strings; both directions are verified against one spec.

use vstd::prelude::*;
use vstd::string::StrSliceExecFns;
use vstd::string::StringExecFns;

verus! {

/// The character for one decimal digit value.
pub open spec fn digit_char(d: int) -> char {
    if d == 0 {
        '0'
    } else if d == 1 {
        '1'
    } else if d == 2 {
        '2'
    } else if d == 3 {
        '3'
    } else if d == 4 {
        '4'
    } else if d == 5 {
        '5'
    } else if d == 6 {
        '6'
    } else if d == 7 {
        '7'
    } else if d == 8 {
        '8'
    } else {
        '9'
    }
}

/// The canonical decimal rendering of `x`: no sign, no leading zero except
/// for `x == 0` itself.
pub open spec fn spec_digits(x: nat) -> Seq<char>
    decreases x,
{
    if x < 10 {
        seq![digit_char(x as int)]
    } else {
        spec_digits(x / 10) + seq![digit_char(x as int % 10)]
    }
}

pub open spec fn is_digit(c: char) -> bool {
    '0' <= c && c <= '9'
}

pub open spec fn digit_val(c: char) -> int {
    c as int - '0' as int
}

pub open spec fn all_digits(s: Seq<char>) -> bool {
    forall|i: int| 0 <= i < s.len() ==> is_digit(#[trigger] s[i])
}

/// The value of a digit string, read left to right.
pub open spec fn spec_digits_val(s: Seq<char>) -> int
    decreases s.len(),
{
    if s.len() == 0 {
        0
    } else {
        spec_digits_val(s.drop_last()) * 10 + digit_val(s.last())
    }
}

/// What `u64` parsing accepts: a nonempty, all-digit string whose value
/// fits. Leading zeros are accepted, as standard decimal parsing accepts
/// them.
pub open spec fn spec_parse_u64(s: Seq<char>) -> Option<u64> {
    if s.len() > 0 && all_digits(s) && spec_digits_val(s) <= u64::MAX {
        Some(spec_digits_val(s) as u64)
    } else {
        None
    }
}

pub proof fn lemma_digits_val_nonneg(s: Seq<char>)
    requires
        all_digits(s),
    ensures
        spec_digits_val(s) >= 0,
    decreases s.len(),
{
    if s.len() > 0 {
        assert(all_digits(s.drop_last())) by {
            assert(forall|i: int|
                0 <= i < s.len() - 1 ==> s.drop_last()[i] == #[trigger] s[i]);
        }
        lemma_digits_val_nonneg(s.drop_last());
    }
}

/// Extending a digit string on the right never shrinks its value.
pub proof fn lemma_digits_val_take_le(s: Seq<char>, n: int)
    requires
        all_digits(s),
        0 <= n <= s.len(),
    ensures
        spec_digits_val(s.take(n)) <= spec_digits_val(s),
    decreases s.len() - n,
{
    assert(all_digits(s.take(n))) by {
        assert(forall|i: int| 0 <= i < n ==> s.take(n)[i] == #[trigger] s[i]);
    }
    if n < s.len() {
        lemma_digits_val_take_le(s, n + 1);
        let t = s.take(n + 1);
        assert(t.drop_last() =~= s.take(n));
        assert(t.last() == s[n]);
        lemma_digits_val_nonneg(s.take(n));
        assert(spec_digits_val(t) == spec_digits_val(s.take(n)) * 10 + digit_val(s[n]));
        assert(spec_digits_val(s.take(n)) * 10 >= spec_digits_val(s.take(n))) by (nonlinear_arith)
            requires
                spec_digits_val(s.take(n)) >= 0,
        ;
    } else {
        assert(s.take(n) =~= s);
    }
}

/// The rendering of any value is nonempty, all digits, and evaluates back
/// to that value.
pub proof fn lemma_digits_of_val(x: nat)
    ensures
        spec_digits(x).len() > 0,
        all_digits(spec_digits(x)),
        spec_digits_val(spec_digits(x)) == x,
    decreases x,
{
    if x < 10 {
        let s = spec_digits(x);
        assert(s.len() == 1);
        assert(is_digit(s[0]));
        assert(s.drop_last() =~= Seq::<char>::empty());
        assert(spec_digits_val(s.drop_last()) == 0);
        assert(s.last() == digit_char(x as int));
        assert(spec_digits_val(s) == 0 * 10 + digit_val(digit_char(x as int)));
        assert(digit_val(digit_char(x as int)) == x);
    } else {
        lemma_digits_of_val(x / 10);
        let a = spec_digits(x / 10);
        let s = spec_digits(x);
        let c = digit_char(x as int % 10);
        assert(s == a + seq![c]);
        assert(s.drop_last() =~= a);
        assert(s.last() == c);
        assert(is_digit(c));
        assert(forall|i: int|
            0 <= i < s.len() ==> #[trigger] s[i] == if i < a.len() {
                a[i]
            } else {
                c
            });
        assert(all_digits(s));
        assert(digit_val(c) == x % 10);
        assert(spec_digits_val(s) == (x / 10) * 10 + x % 10);
        assert((x / 10) * 10 + x % 10 == x) by (nonlinear_arith);
    }
}

/// Rendering then parsing gives the value back.
pub proof fn lemma_u64_digits_roundtrip(x: u64)
    ensures
        spec_parse_u64(spec_digits(x as nat)) == Some(x),
{
    lemma_digits_of_val(x as nat);
}

/// A rendered number contains no separator character.
pub proof fn lemma_digits_no_dash(x: nat)
    ensures
        forall|i: int|
            0 <= i < spec_digits(x).len() ==> #[trigger] spec_digits(x)[i] != '-',
    decreases x,
{
    if x < 10 {
    } else {
        lemma_digits_no_dash(x / 10);
        let a = spec_digits(x / 10);
        let s = spec_digits(x);
        assert(forall|i: int|
            0 <= i < s.len() ==> #[trigger] s[i] == if i < a.len() {
                a[i]
            } else {
                digit_char(x as int % 10)
            });
    }
}

/// One decimal digit as a string slice.
fn digit_str(d: u64) -> (r: &'static str)
    requires
        d < 10,
    ensures
        r@ == seq![digit_char(d as int)],
{
    proof {
        reveal_strlit("0");
        reveal_strlit("1");
        reveal_strlit("2");
        reveal_strlit("3");
        reveal_strlit("4");
        reveal_strlit("5");
        reveal_strlit("6");
        reveal_strlit("7");
        reveal_strlit("8");
        reveal_strlit("9");
    }
    let r = if d == 0 {
        "0"
    } else if d == 1 {
        "1"
    } else if d == 2 {
        "2"
    } else if d == 3 {
        "3"
    } else if d == 4 {
        "4"
    } else if d == 5 {
        "5"
    } else if d == 6 {
        "6"
    } else if d == 7 {
        "7"
    } else if d == 8 {
        "8"
    } else {
        "9"
    };
    proof {
        assert(r@ =~= seq![digit_char(d as int)]);
    }
    r
}

/// Renders `x` in decimal.
pub fn format_u64(x: u64) -> (s: String)
    ensures
        s@ == spec_digits(x as nat),
    decreases x,
{
    if x < 10 {
        String::from_str(digit_str(x))
    } else {
        let mut s = format_u64(x / 10);
        s.append(digit_str(x % 10));
        s
    }
}

/// Parses a decimal `u64`; `None` on an empty string, a non-digit, or
/// overflow — exactly when `spec_parse_u64` is `None`.
pub fn parse_u64(s: &str) -> (r: Option<u64>)
    ensures
        r == spec_parse_u64(s@),
{
    let n = s.unicode_len();
    if n == 0 {
        return None;
    }
    let mut acc: u64 = 0;
    let mut i: usize = 0;
    while i < n
        invariant
            0 < n == s@.len(),
            0 <= i <= n,
            all_digits(s@.take(i as int)),
            acc == spec_digits_val(s@.take(i as int)),
        decreases n - i,
    {
        let c = s.get_char(i);
        if !(c >= '0' && c <= '9') {
            assert(!is_digit(s@[i as int]));
            return None;
        }
        let d: u64 = (c as u32 - 48) as u64;
        assert(d == digit_val(s@[i as int])) by {
            assert('0' <= c && c <= '9');
            assert(c as u32 >= 48 && c as u32 <= 57);
        }
        proof {
            assert(s@.take(i + 1).drop_last() =~= s@.take(i as int));
            assert(s@.take(i + 1).last() == s@[i as int]);
            assert(all_digits(s@.take(i + 1))) by {
                assert(forall|j: int|
                    0 <= j < i + 1 ==> s@.take(i + 1)[j] == #[trigger] s@[j]);
                assert(forall|j: int|
                    0 <= j < i ==> s@.take(i as int)[j] == #[trigger] s@[j]);
            }
        }
        let big = acc.checked_mul(10);
        let next = match big {
            Some(b) => b.checked_add(d),
            None => None,
        };
        match next {
            Some(v) => {
                acc = v;
            },
            None => {
                proof {
                    assert(spec_digits_val(s@.take(i + 1)) == acc * 10 + d);
                    assert(spec_digits_val(s@.take(i + 1)) > u64::MAX);
                    if all_digits(s@) {
                        lemma_digits_val_take_le(s@, i + 1);
                        assert(spec_digits_val(s@) > u64::MAX);
                    }
                }
                return None;
            },
        }
        assert(spec_digits_val(s@.take(i + 1)) == acc);
        i = i + 1;
    }
    proof {
        assert(s@.take(n as int) =~= s@);
    }
    Some(acc)
}

} // verus!
