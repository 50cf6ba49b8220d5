//! Byte constants and small helpers on byte strings.

use vstd::prelude::*;
use vstd::slice::slice_subrange;
use vstd::slice::slice_to_vec;

verus! {

pub const TAB: u8 = 9;
pub const NEWLINE: u8 = 10;
pub const SPACE: u8 = 32;
pub const BANG: u8 = 33;
pub const DQUOTE: u8 = 34;
pub const DOLLAR: u8 = 36;
pub const AMP: u8 = 38;
pub const SQUOTE: u8 = 39;
pub const DASH: u8 = 45;
pub const SLASH: u8 = 47;
pub const DIGIT_0: u8 = 48;
pub const DIGIT_9: u8 = 57;
pub const COLON: u8 = 58;
pub const SEMI: u8 = 59;
pub const LESS: u8 = 60;
pub const EQUALS: u8 = 61;
pub const GREATER: u8 = 62;
pub const QUESTION: u8 = 63;
pub const UPPER_A: u8 = 65;
pub const UPPER_Z: u8 = 90;
pub const BACKSLASH: u8 = 92;
pub const UNDERSCORE: u8 = 95;
pub const BACKTICK: u8 = 96;
pub const LOWER_A: u8 = 97;
pub const LOWER_Z: u8 = 122;
pub const LBRACE: u8 = 123;
pub const PIPE: u8 = 124;
pub const RBRACE: u8 = 125;

/// The byte strings that `v` holds.
pub open spec fn views_of(v: Seq<Vec<u8>>) -> Seq<Seq<u8>> {
    Seq::new(v.len(), |i: int| v[i]@)
}

/// Whether two byte strings hold the same bytes.
pub fn bytes_eq(a: &[u8], b: &[u8]) -> (r: bool)
    ensures
        r == (a@ == b@),
{
    if a.len() != b.len() {
        return false;
    }
    let mut i: usize = 0;
    while i < a.len()
        invariant
            i <= a.len(),
            a.len() == b.len(),
            forall|k: int| 0 <= k < i ==> a@[k] == b@[k],
        decreases a.len() - i,
    {
        if a[i] != b[i] {
            return false;
        }
        i += 1;
    }
    assert(a@ =~= b@);
    true
}

/// The position of the first `c` at or after `from`: `s.len()` when there is none.
pub open spec fn first_at_or_after(s: Seq<u8>, c: u8, from: int) -> int
    decreases s.len() - from,
{
    if from < 0 || from >= s.len() {
        s.len() as int
    } else if s[from] == c {
        from
    } else {
        first_at_or_after(s, c, from + 1)
    }
}

/// `first_at_or_after` is the least index at or after `from` that holds `c`.
pub proof fn lemma_first_at_or_after(s: Seq<u8>, c: u8, from: int)
    requires
        0 <= from <= s.len(),
    ensures
        from <= first_at_or_after(s, c, from) <= s.len(),
        first_at_or_after(s, c, from) < s.len() ==> s[first_at_or_after(s, c, from)] == c,
        forall|k: int| from <= k < first_at_or_after(s, c, from) ==> s[k] != c,
    decreases s.len() - from,
{
    if from < s.len() && s[from] != c {
        lemma_first_at_or_after(s, c, from + 1);
    }
}

/// Finds the first `c` at or after `from`.
pub fn find_byte(s: &[u8], c: u8, from: usize) -> (r: usize)
    requires
        from <= s@.len(),
    ensures
        r == first_at_or_after(s@, c, from as int),
        from <= r <= s@.len(),
{
    let mut i: usize = from;
    while i < s.len() && s[i] != c
        invariant
            from <= i <= s@.len(),
            first_at_or_after(s@, c, from as int) == first_at_or_after(s@, c, i as int),
        decreases s@.len() - i,
    {
        i += 1;
    }
    i
}

/// Whether `c` occurs in `s`.
pub open spec fn has_byte(s: Seq<u8>, c: u8) -> bool {
    first_at_or_after(s, c, 0) < s.len()
}

/// The decimal digits of `n`.
pub open spec fn digits(n: nat) -> Seq<u8>
    decreases n,
{
    if n < 10 {
        seq![(DIGIT_0 + n) as u8]
    } else {
        digits(n / 10).push((DIGIT_0 + n % 10) as u8)
    }
}

/// `n` written in decimal, with a `-` in front where it is negative.
pub open spec fn decimal(n: int) -> Seq<u8> {
    if n < 0 {
        seq![DASH] + digits((-n) as nat)
    } else {
        digits(n as nat)
    }
}

/// Appends the decimal digits of `n` to `out`.
pub fn push_digits(out: &mut Vec<u8>, n: u64)
    ensures
        final(out)@ == old(out)@ + digits(n as nat),
{
    let mut rest: u64 = n;
    // the digits from the last to the first
    let mut reversed: Vec<u8> = Vec::new();
    reversed.push(DIGIT_0 + (rest % 10) as u8);
    rest = rest / 10;
    while rest > 0
        invariant
            reversed@.len() > 0,
            digits(n as nat) == if rest == 0 {
                reversed@.reverse()
            } else {
                digits(rest as nat) + reversed@.reverse()
            },
        decreases rest,
    {
        let ghost before = reversed@;
        let d: u8 = DIGIT_0 + (rest % 10) as u8;
        reversed.push(d);
        proof {
            assert(reversed@.reverse() =~= seq![d] + before.reverse());
            if rest >= 10 {
                assert(digits(rest as nat) == digits((rest / 10) as nat).push(d));
                assert(digits((rest / 10) as nat).push(d) + before.reverse() =~= digits(
                    (rest / 10) as nat,
                ) + (seq![d] + before.reverse()));
            } else {
                assert(digits(rest as nat) =~= seq![d]);
                assert(seq![d] + before.reverse() =~= reversed@.reverse());
            }
        }
        rest = rest / 10;
    }
    let ghost start = out@;
    let mut i: usize = reversed.len();
    assert(start + reversed@.reverse().subrange(0, 0) =~= start);
    while i > 0
        invariant
            i <= reversed@.len(),
            out@ == start + reversed@.reverse().subrange(0, reversed@.len() - i),
        decreases i,
    {
        i -= 1;
        out.push(reversed[i]);
        assert(out@ =~= start + reversed@.reverse().subrange(0, reversed@.len() - i));
    }
    assert(reversed@.reverse().subrange(0, reversed@.len() as int) =~= reversed@.reverse());
}

/// Writes `n` in decimal.
pub fn to_decimal(n: i32) -> (r: Vec<u8>)
    ensures
        r@ == decimal(n as int),
{
    let mut out: Vec<u8> = Vec::new();
    if n < 0 {
        out.push(DASH);
        push_digits(&mut out, (-(n as i64)) as u64);
    } else {
        push_digits(&mut out, n as u64);
    }
    assert(out@ =~= decimal(n as int));
    out
}

/// The bytes of `s` from `i` up to `j`.
pub fn slice<'a>(s: &'a [u8], i: usize, j: usize) -> (r: &'a [u8])
    requires
        i <= j <= s@.len(),
    ensures
        r@ == s@.subrange(i as int, j as int),
{
    slice_subrange(s, i, j)
}

/// An owned copy of `s`.
pub fn to_vec(s: &[u8]) -> (r: Vec<u8>)
    ensures
        r@ == s@,
{
    slice_to_vec(s)
}

/// Appends `s` to `v`.
pub fn append(v: &mut Vec<u8>, s: &[u8])
    ensures
        final(v)@ == old(v)@ + s@,
{
    v.extend_from_slice(s);
}

} // verus!
