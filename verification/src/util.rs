//! Byte-level utilities shared by the collapsers and the renderer:
//! ASCII classification, whitespace trimming, splitting input into lines,
//! and exact decimal formatting / parsing of `u64` counts.

use vstd::prelude::*;

verus! {

/// ASCII code points used throughout the folded-stack grammar.
pub const B_NL: u8 = 10;
pub const B_SPACE: u8 = 32;
pub const B_TAB: u8 = 9;
pub const B_CR: u8 = 13;
pub const B_SEMI: u8 = 59;
pub const B_ZERO: u8 = 48;

/// Bytes treated as horizontal whitespace when trimming.
pub open spec fn is_ws(b: u8) -> bool {
    b == B_SPACE || b == B_TAB || b == B_CR
}

pub fn ws_byte(b: u8) -> (r: bool)
    ensures
        r == is_ws(b),
{
    b == B_SPACE || b == B_TAB || b == B_CR
}

/// A decimal digit `0..=9` in ASCII.
pub open spec fn is_digit(b: u8) -> bool {
    48 <= b <= 57
}

pub fn digit_byte(b: u8) -> (r: bool)
    ensures
        r == is_digit(b),
{
    48 <= b && b <= 57
}

/// Value of a sequence of decimal digits, most significant first.
pub open spec fn dec_val(s: Seq<u8>) -> nat
    decreases s.len(),
{
    if s.len() == 0 {
        0
    } else {
        dec_val(s.drop_last()) * 10 + (s.last() - B_ZERO) as nat
    }
}

/// Every byte of `s` is a decimal digit.
pub open spec fn all_digits(s: Seq<u8>) -> bool {
    forall|i: int| 0 <= i < s.len() ==> is_digit(#[trigger] s[i])
}

/// Canonical decimal representation of `n`: no leading zeros except for
/// `0` itself.
pub open spec fn dec_repr(n: nat) -> Seq<u8>
    decreases n,
{
    if n < 10 {
        seq![(n + B_ZERO) as u8]
    } else {
        dec_repr(n / 10).push((n % 10 + B_ZERO) as u8)
    }
}

pub proof fn lemma_dec_repr_digits(n: nat)
    ensures
        dec_repr(n).len() >= 1,
        all_digits(dec_repr(n)),
    decreases n,
{
    if n >= 10 {
        lemma_dec_repr_digits(n / 10);
    }
}

/// The canonical representation evaluates back to the number it encodes.
pub proof fn lemma_dec_repr_val(n: nat)
    ensures
        dec_val(dec_repr(n)) == n,
    decreases n,
{
    if n < 10 {
        let s = dec_repr(n);
        assert(s.drop_last() =~= Seq::<u8>::empty());
        assert(dec_val(s.drop_last()) == 0);
        assert(((n + B_ZERO) as u8 - B_ZERO) as nat == n);
    } else {
        lemma_dec_repr_val(n / 10);
        let s = dec_repr(n);
        assert(s.drop_last() =~= dec_repr(n / 10));
        assert(dec_val(s.drop_last()) == n / 10);
        assert(((n % 10 + B_ZERO) as u8 - B_ZERO) as nat == n % 10);
        assert(dec_val(s) == (n / 10) * 10 + n % 10);
    }
}

/// Appending a digit can only grow the value of a digit string.
pub proof fn lemma_dec_val_prefix_grows(s: Seq<u8>, i: int, j: int)
    requires
        0 <= i <= j <= s.len(),
        all_digits(s),
    ensures
        dec_val(s.take(i)) <= dec_val(s.take(j)),
    decreases j - i,
{
    if i < j {
        lemma_dec_val_prefix_grows(s, i, j - 1);
        assert(s.take(j).drop_last() =~= s.take(j - 1));
        assert(dec_val(s.take(j)) == dec_val(s.take(j - 1)) * 10 + (s[j - 1] - B_ZERO) as nat);
    }
}

/// Append the canonical decimal digits of `n` to `out`.
pub fn push_u64(out: &mut Vec<u8>, n: u64)
    ensures
        final(out)@ == old(out)@ + dec_repr(n as nat),
    decreases n,
{
    if n < 10 {
        out.push((n as u8) + B_ZERO);
    } else {
        push_u64(out, n / 10);
        out.push(((n % 10) as u8) + B_ZERO);
        proof {
            assert(out@ =~= old(out)@ + dec_repr(n as nat));
        }
    }
}

/// Format `n` in decimal.
pub fn fmt_u64(n: u64) -> (r: Vec<u8>)
    ensures
        r@ == dec_repr(n as nat),
{
    let mut out: Vec<u8> = Vec::new();
    push_u64(&mut out, n);
    proof {
        assert(out@ =~= dec_repr(n as nat));
    }
    out
}

/// Parse a non-empty all-digit byte string as a `u64`.
///
/// Returns `Some` exactly when the slice is a well-formed decimal number
/// whose value fits in 64 bits.
pub fn parse_u64(s: &[u8]) -> (r: Option<u64>)
    ensures
        match r {
            Some(v) => s@.len() >= 1 && all_digits(s@) && v as nat == dec_val(s@)
                && dec_val(s@) <= u64::MAX,
            None => s@.len() == 0 || !all_digits(s@) || dec_val(s@) > u64::MAX,
        },
{
    if s.len() == 0 {
        return None;
    }
    let mut acc: u64 = 0;
    let mut i: usize = 0;
    while i < s.len()
        invariant
            0 <= i <= s@.len(),
            s@.len() >= 1,
            acc as nat == dec_val(s@.take(i as int)),
            forall|k: int| 0 <= k < i ==> is_digit(#[trigger] s@[k]),
        decreases s@.len() - i,
    {
        let b = s[i];
        if !digit_byte(b) {
            assert(!all_digits(s@));
            return None;
        }
        let d: u64 = (b - B_ZERO) as u64;
        if acc > (u64::MAX - d) / 10 {
            proof {
                assert(s@.take(i + 1).drop_last() =~= s@.take(i as int));
                assert(dec_val(s@.take(i + 1)) == acc as nat * 10 + d as nat);
                assert(acc as nat * 10 + d as nat > u64::MAX) by (nonlinear_arith)
                    requires
                        acc > (u64::MAX - d) / 10,
                        d < 10,
                        acc <= u64::MAX,
                    ;
                if all_digits(s@) {
                    lemma_dec_val_prefix_grows(s@, i + 1, s@.len() as int);
                    assert(s@.take(s@.len() as int) =~= s@);
                }
            }
            return None;
        }
        proof {
            assert(acc * 10 + d <= u64::MAX) by (nonlinear_arith)
                requires
                    acc <= (u64::MAX - d) / 10,
                    d < 10,
                ;
            assert(s@.take(i + 1).drop_last() =~= s@.take(i as int));
        }
        acc = acc * 10 + d;
        i = i + 1;
    }
    proof {
        assert(s@.take(s@.len() as int) =~= s@);
    }
    Some(acc)
}

/// Trim leading and trailing whitespace from a byte vector.
pub open spec fn spec_trim(s: Seq<u8>) -> Seq<u8>
    decreases s.len(),
{
    if s.len() > 0 && is_ws(s[0]) {
        spec_trim(s.drop_first())
    } else if s.len() > 0 && is_ws(s.last()) {
        spec_trim(s.drop_last())
    } else {
        s
    }
}

/// A sequence with no leading or trailing whitespace.
pub open spec fn trimmed(s: Seq<u8>) -> bool {
    s.len() > 0 ==> !is_ws(s[0]) && !is_ws(s.last())
}

pub proof fn lemma_trim_trimmed(s: Seq<u8>)
    ensures
        trimmed(spec_trim(s)),
    decreases s.len(),
{
    if s.len() > 0 && is_ws(s[0]) {
        lemma_trim_trimmed(s.drop_first());
    } else if s.len() > 0 && is_ws(s.last()) {
        lemma_trim_trimmed(s.drop_last());
    }
}

/// Trimming an already-trimmed sequence is the identity.
pub proof fn lemma_trim_id(s: Seq<u8>)
    requires
        trimmed(s),
    ensures
        spec_trim(s) == s,
{
}

/// Copy `s[lo..hi]` into a fresh vector.
pub fn copy_range(s: &[u8], lo: usize, hi: usize) -> (r: Vec<u8>)
    requires
        lo <= hi <= s@.len(),
    ensures
        r@ == s@.subrange(lo as int, hi as int),
{
    let mut out: Vec<u8> = Vec::new();
    let mut i: usize = lo;
    while i < hi
        invariant
            lo <= i <= hi <= s@.len(),
            out@ =~= s@.subrange(lo as int, i as int),
        decreases hi - i,
    {
        out.push(s[i]);
        i = i + 1;
    }
    proof {
        assert(out@ =~= s@.subrange(lo as int, hi as int));
    }
    out
}

/// Trim whitespace from both ends of `s`.
pub fn trim_bytes(s: &[u8]) -> (r: Vec<u8>)
    ensures
        r@ == spec_trim(s@),
{
    let mut lo: usize = 0;
    let mut hi: usize = s.len();
    proof {
        assert(s@.subrange(0, s@.len() as int) =~= s@);
    }
    while lo < hi && ws_byte(s[lo])
        invariant
            0 <= lo <= hi <= s@.len(),
            hi == s@.len(),
            spec_trim(s@) == spec_trim(s@.subrange(lo as int, hi as int)),
        decreases hi - lo,
    {
        proof {
            assert(s@.subrange(lo as int, hi as int).drop_first() =~= s@.subrange(
                lo + 1,
                hi as int,
            ));
        }
        lo = lo + 1;
    }
    while lo < hi && ws_byte(s[hi - 1])
        invariant
            0 <= lo <= hi <= s@.len(),
            spec_trim(s@) == spec_trim(s@.subrange(lo as int, hi as int)),
            lo < hi ==> !is_ws(s@[lo as int]),
        decreases hi - lo,
    {
        proof {
            assert(s@.subrange(lo as int, hi as int).drop_last() =~= s@.subrange(
                lo as int,
                hi - 1,
            ));
        }
        hi = hi - 1;
    }
    proof {
        let sub = s@.subrange(lo as int, hi as int);
        assert(trimmed(sub));
        lemma_trim_id(sub);
    }
    copy_range(s, lo, hi)
}

/// Split `input` on newline bytes. A trailing newline does not produce a
/// final empty line; every other boundary does, so blank lines survive.
pub open spec fn spec_lines(s: Seq<u8>) -> Seq<Seq<u8>>
    decreases s.len() via spec_lines_decreases
{
    if s.len() == 0 {
        Seq::empty()
    } else {
        let k = first_nl(s);
        if k == s.len() {
            seq![s]
        } else {
            seq![s.take(k)] + spec_lines(s.skip(k + 1))
        }
    }
}

#[via_fn]
proof fn spec_lines_decreases(s: Seq<u8>) {
    lemma_first_nl(s);
}

/// Index of the first newline in `s`, or `s.len()` if none.
pub open spec fn first_nl(s: Seq<u8>) -> int
    decreases s.len(),
{
    if s.len() == 0 {
        0
    } else if s[0] == B_NL {
        0
    } else {
        1 + first_nl(s.drop_first())
    }
}

pub proof fn lemma_first_nl(s: Seq<u8>)
    ensures
        0 <= first_nl(s) <= s.len(),
        forall|i: int| 0 <= i < first_nl(s) ==> s[i] != B_NL,
        first_nl(s) < s.len() ==> s[first_nl(s)] == B_NL,
    decreases s.len(),
{
    if s.len() > 0 && s[0] != B_NL {
        lemma_first_nl(s.drop_first());
        assert forall|i: int| 0 <= i < first_nl(s) implies s[i] != B_NL by {
            if i > 0 {
                assert(s.drop_first()[i - 1] == s[i]);
            }
        }
    }
}

/// No byte of `s` is a newline.
pub open spec fn no_nl(s: Seq<u8>) -> bool {
    forall|i: int| 0 <= i < s.len() ==> #[trigger] s[i] != B_NL
}

pub proof fn lemma_first_nl_none(s: Seq<u8>)
    requires
        no_nl(s),
    ensures
        first_nl(s) == s.len(),
    decreases s.len(),
{
    if s.len() > 0 {
        lemma_first_nl_none(s.drop_first());
    }
}

/// Split input bytes into lines.
pub fn split_lines(input: &[u8]) -> (r: Vec<Vec<u8>>)
    ensures
        r@.map_values(|l: Vec<u8>| l@) == spec_lines(input@),
{
    let mut out: Vec<Vec<u8>> = Vec::new();
    let mut start: usize = 0;
    let mut i: usize = 0;
    proof {
        assert(input@.skip(0) =~= input@);
    }
    while i < input.len()
        invariant
            0 <= start <= i <= input@.len(),
            forall|k: int| start <= k < i ==> input@[k] != B_NL,
            spec_lines(input@) =~= out@.map_values(|l: Vec<u8>| l@) + spec_lines(
                input@.skip(start as int),
            ),
        decreases input@.len() - i,
    {
        if input[i] == B_NL {
            let line = copy_range(input, start, i);
            proof {
                let rest = input@.skip(start as int);
                assert(first_nl(rest) == i - start) by {
                    lemma_first_nl_from_prefix(rest, i - start);
                }
                assert(rest.take(i - start) =~= input@.subrange(start as int, i as int));
                assert(rest.skip(i - start + 1) =~= input@.skip(i + 1));
                assert(spec_lines(rest) =~~= seq![line@] + spec_lines(input@.skip(i + 1)));
            }
            out.push(line);
            proof {
                assert(spec_lines(input@) =~~= out@.map_values(|l: Vec<u8>| l@) + spec_lines(
                    input@.skip(i + 1),
                ));
            }
            start = i + 1;
        }
        i = i + 1;
    }
    if start < input.len() {
        let line = copy_range(input, start, input.len());
        proof {
            let rest = input@.skip(start as int);
            lemma_first_nl_none(rest);
            assert(rest.take(rest.len() as int) =~= rest);
            assert(spec_lines(rest) =~~= seq![line@]);
        }
        out.push(line);
    }
    proof {
        assert(input@.skip(input@.len() as int).len() == 0);
        assert(out@.map_values(|l: Vec<u8>| l@) =~~= spec_lines(input@));
    }
    out
}

/// If the first `k` bytes of `s` hold no newline and `s[k]` is one, the
/// first newline of `s` is at `k`.
pub proof fn lemma_first_nl_from_prefix(s: Seq<u8>, k: int)
    requires
        0 <= k < s.len(),
        forall|i: int| 0 <= i < k ==> s[i] != B_NL,
        s[k] == B_NL,
    ensures
        first_nl(s) == k,
    decreases k,
{
    if k > 0 {
        lemma_first_nl_from_prefix(s.drop_first(), k - 1);
    }
}

} // verus!
