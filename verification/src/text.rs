//! Small text helpers: characters of a string, decimal and hexadecimal
//! numerals, and building strings one character at a time.

use vstd::prelude::*;
use vstd::string::*;

verus! {

/// `String::push`: the string grows by the one character.
#[verifier::external_body]
pub(crate) fn push_char(s: &mut String, c: char)
    ensures
        final(s)@ == old(s)@.push(c),
{
    s.push(c);
}

/// The characters of `s`.
pub fn chars_of(s: &str) -> (cs: Vec<char>)
    ensures
        cs@ == s@,
{
    let n = s.unicode_len();
    let mut cs: Vec<char> = Vec::with_capacity(n);
    let mut i: usize = 0;
    while i < n
        invariant
            n == s@.len(),
            i <= n,
            cs@ == s@.take(i as int),
        decreases n - i,
    {
        cs.push(s.get_char(i));
        i = i + 1;
        assert(cs@ =~= s@.take(i as int));
    }
    assert(s@.take(n as int) =~= s@);
    cs
}

/// True when `cs[start..]` spells `lit`.
pub fn chars_match(cs: &Vec<char>, start: usize, lit: &str) -> (r: bool)
    requires
        start <= cs@.len(),
    ensures
        r == (cs@.subrange(start as int, cs@.len() as int) == lit@),
{
    let n = lit.unicode_len();
    let m = cs.len();
    if m - start != n {
        return false;
    }
    let mut i: usize = 0;
    while i < n
        invariant
            m == cs@.len(),
            n == lit@.len(),
            start + n == cs@.len(),
            i <= n,
            forall|k: int| 0 <= k < i ==> cs@[start + k] == lit@[k],
        decreases n - i,
    {
        if cs[start + i] != lit.get_char(i) {
            proof {
                assert(cs@.subrange(start as int, cs@.len() as int)[i as int] == cs@[start + i]);
            }
            return false;
        }
        i = i + 1;
    }
    assert(cs@.subrange(start as int, cs@.len() as int) =~= lit@);
    true
}

/// True when the two strings hold the same characters.
pub fn str_equals(a: &str, b: &str) -> (r: bool)
    ensures
        r == (a@ == b@),
{
    let cs = chars_of(a);
    let r = chars_match(&cs, 0, b);
    assert(cs@.subrange(0, cs@.len() as int) =~= cs@);
    r
}

/// The character of decimal digit `d`.
pub open spec fn digit_char(d: int) -> char {
    (48 + d) as char
}

/// `n` written in decimal, most significant digit first, no leading zeros.
pub open spec fn decimal(n: nat) -> Seq<char>
    decreases n,
{
    if n < 10 { seq![digit_char(n as int)] } else { decimal(n / 10).push(digit_char((n % 10) as int)) }
}

/// Append `n` in decimal.
pub fn push_decimal(s: &mut String, n: usize)
    ensures
        final(s)@ == old(s)@ + decimal(n as nat),
    decreases n,
{
    if n >= 10 {
        push_decimal(s, n / 10);
    }
    let d = (n % 10) as u8;
    let c = (48 + d) as char;
    push_char(s, c);
    proof {
        assert(final(s)@ =~= old(s)@ + decimal(n as nat));
    }
}

/// The value of a decimal digit character.
pub open spec fn digit_value(c: char) -> int {
    c as int - 48
}

/// A decimal digit character.
pub open spec fn is_digit(c: char) -> bool {
    48 <= c as int <= 57
}

/// The number a non-empty run of decimal digits spells.
pub open spec fn digits_value(cs: Seq<char>) -> Option<nat>
    decreases cs.len(),
{
    if cs.len() == 0 || !is_digit(cs.last()) {
        None
    } else if cs.len() == 1 {
        Some(digit_value(cs[0]) as nat)
    } else {
        match digits_value(cs.drop_last()) {
            Some(v) => Some((v * 10 + digit_value(cs.last())) as nat),
            None => None,
        }
    }
}

/// What `usize::from_str` accepts: an optional `+`, then decimal digits,
/// with a value that fits.
pub open spec fn parse_usize(cs: Seq<char>) -> Option<nat> {
    let ds = if cs.len() > 0 && cs[0] == '+' { cs.drop_first() } else { cs };
    match digits_value(ds) {
        Some(v) => if v <= usize::MAX { Some(v) } else { None },
        None => None,
    }
}

proof fn lemma_digits_grow(cs: Seq<char>, i: int, j: int)
    requires
        1 <= i <= j <= cs.len(),
        digits_value(cs.take(j)) is Some,
    ensures
        digits_value(cs.take(i)) is Some,
        digits_value(cs.take(i))->Some_0 <= digits_value(cs.take(j))->Some_0,
    decreases j - i,
{
    if i < j {
        assert(cs.take(j).drop_last() =~= cs.take(j - 1));
        if j - 1 >= 1 {
            lemma_digits_grow(cs, i, j - 1);
        }
    }
}

/// Parse `cs[start..end]` as `usize::from_str` would.
pub fn parse_usize_at(cs: &Vec<char>, start: usize, end: usize) -> (r: Option<usize>)
    requires
        start <= end <= cs@.len(),
    ensures
        match parse_usize(cs@.subrange(start as int, end as int)) {
            Some(v) => r == Some(v as usize),
            None => r is None,
        },
{
    let ghost whole = cs@.subrange(start as int, end as int);
    let mut i = start;
    if i < end && cs[i] == '+' {
        i = i + 1;
    }
    let ghost ds = cs@.subrange(i as int, end as int);
    proof {
        if whole.len() > 0 && whole[0] == '+' {
            assert(ds =~= whole.drop_first());
        } else {
            assert(ds =~= whole);
        }
    }
    if i == end {
        return None;
    }
    let first = i;
    let mut v: usize = 0;
    while i < end
        invariant
            start <= first < end <= cs@.len(),
            first <= i <= end,
            ds == cs@.subrange(first as int, end as int),
            whole == cs@.subrange(start as int, end as int),
            parse_usize(whole) == match digits_value(ds) {
                Some(x) => if x <= usize::MAX { Some(x) } else { None },
                None => None,
            },
            i > first ==> digits_value(ds.take(i - first)) == Some(v as nat),
            i == first ==> v == 0,
        decreases end - i,
    {
        let c = cs[i];
        let ghost k = (i - first) as int;
        proof {
            assert(ds.take(k + 1).last() == c);
            assert(ds.take(k + 1).drop_last() =~= ds.take(k));
        }
        if !('0' <= c && c <= '9') {
            proof {
                assert(ds.take(ds.len() as int) =~= ds);
                if digits_value(ds) is Some {
                    lemma_digits_grow(ds, k + 1, ds.len() as int);
                }
            }
            return None;
        }
        let d = (c as u32 - 48) as usize;
        let grown = match v.checked_mul(10) {
            Some(t) => t.checked_add(d),
            None => None,
        };
        match grown {
            Some(t) => {
                v = t;
            },
            None => {
                proof {
                    assert(digits_value(ds.take(k + 1)) == Some((v * 10 + d) as nat));
                    assert(ds.take(ds.len() as int) =~= ds);
                    if digits_value(ds) is Some {
                        lemma_digits_grow(ds, k + 1, ds.len() as int);
                    }
                }
                return None;
            },
        }
        i = i + 1;
    }
    proof {
        assert(ds.take(ds.len() as int) =~= ds);
    }
    Some(v)
}

} // verus!
