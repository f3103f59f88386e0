//! The folded-stack line format: `FRAME(;FRAME)* SP COUNT`.
//!
//! A folded entry is a stack key (frame names joined by `;`) together with
//! an aggregated sample count. This module defines well-formedness of
//! entries, exact formatting and parsing of single lines, and the
//! round-trip law between the two.

use vstd::prelude::*;
use crate::util::{
    all_digits, dec_repr, dec_val, is_ws, no_nl, spec_trim, trimmed, B_NL, B_SEMI, B_SPACE,
    copy_range, lemma_dec_repr_digits, lemma_dec_repr_val, lemma_trim_id, parse_u64,
    push_u64, trim_bytes,
};

verus! {

/// One folded stack: the `;`-joined frame names and the sample count.
#[derive(Debug)]
pub struct Entry {
    pub key: Vec<u8>,
    pub count: u64,
}

/// Mathematical value of an entry.
pub open spec fn eview(e: Entry) -> (Seq<u8>, u64) {
    (e.key@, e.count)
}

/// Mathematical value of a list of entries.
pub open spec fn entries_view(s: Seq<Entry>) -> Seq<(Seq<u8>, u64)> {
    s.map_values(|e: Entry| eview(e))
}

/// A stack key as the collapsers emit it: non-empty, free of newlines,
/// and not starting with whitespace (so a folded line survives trimming).
pub open spec fn wf_key(k: Seq<u8>) -> bool {
    &&& k.len() > 0
    &&& no_nl(k)
    &&& !is_ws(k[0])
}

/// A well-formed folded entry: well-formed key and a positive count.
pub open spec fn wf_entry(k: Seq<u8>, c: u64) -> bool {
    wf_key(k) && c > 0
}

/// The folded line for `(key, count)`, without the terminating newline.
pub open spec fn spec_format_entry(k: Seq<u8>, c: u64) -> Seq<u8> {
    k + seq![B_SPACE] + dec_repr(c as nat)
}

/// Format one folded entry.
pub fn format_entry(e: &Entry) -> (r: Vec<u8>)
    ensures
        r@ == spec_format_entry(e.key@, e.count),
{
    let mut out: Vec<u8> = Vec::new();
    let mut i: usize = 0;
    while i < e.key.len()
        invariant
            0 <= i <= e.key@.len(),
            out@ =~= e.key@.take(i as int),
        decreases e.key@.len() - i,
    {
        out.push(e.key[i]);
        i = i + 1;
    }
    out.push(B_SPACE);
    push_u64(&mut out, e.count);
    proof {
        assert(e.key@.take(e.key@.len() as int) =~= e.key@);
        assert(out@ =~= spec_format_entry(e.key@, e.count));
    }
    out
}

/// Index of the last space in `s`, or `-1` if there is none.
pub open spec fn last_space(s: Seq<u8>) -> int
    decreases s.len(),
{
    if s.len() == 0 {
        -1
    } else if s.last() == B_SPACE {
        s.len() - 1
    } else {
        last_space(s.drop_last())
    }
}

pub proof fn lemma_last_space(s: Seq<u8>)
    ensures
        -1 <= last_space(s) < s.len(),
        last_space(s) >= 0 ==> s[last_space(s)] == B_SPACE,
        forall|i: int| last_space(s) < i < s.len() ==> s[i] != B_SPACE,
    decreases s.len(),
{
    if s.len() > 0 && s.last() != B_SPACE {
        lemma_last_space(s.drop_last());
        assert forall|i: int| last_space(s) < i < s.len() implies s[i] != B_SPACE by {
            if i < s.len() - 1 {
                assert(s.drop_last()[i] == s[i]);
            }
        }
    }
}

/// If `s[j]` is a space and nothing after it is, `j` is the last space.
pub proof fn lemma_last_space_at(s: Seq<u8>, j: int)
    requires
        0 <= j < s.len(),
        s[j] == B_SPACE,
        forall|i: int| j < i < s.len() ==> s[i] != B_SPACE,
    ensures
        last_space(s) == j,
    decreases s.len(),
{
    if j < s.len() - 1 {
        lemma_last_space_at(s.drop_last(), j);
    }
}

/// Exact parse of one folded line: trim, split at the last space, read
/// the count. `None` for blank or malformed lines.
pub open spec fn spec_parse_line(raw: Seq<u8>) -> Option<(Seq<u8>, u64)> {
    let t = spec_trim(raw);
    let j = last_space(t);
    if t.len() == 0 || j <= 0 {
        None
    } else {
        let k = t.take(j);
        let num = t.skip(j + 1);
        if num.len() == 0 || !all_digits(num) || dec_val(num) > u64::MAX {
            None
        } else {
            Some((k, dec_val(num) as u64))
        }
    }
}

/// Parse one folded line.
pub fn parse_line(raw: &[u8]) -> (r: Option<Entry>)
    ensures
        match r {
            Some(e) => spec_parse_line(raw@) == Some((e.key@, e.count)),
            None => spec_parse_line(raw@) is None,
        },
{
    let t = trim_bytes(raw);
    if t.len() == 0 {
        return None;
    }
    // scan for the last space
    let mut j: usize = t.len();
    while j > 0 && t[j - 1] != B_SPACE
        invariant
            0 <= j <= t@.len(),
            forall|i: int| j <= i < t@.len() ==> t@[i] != B_SPACE,
        decreases j,
    {
        j = j - 1;
    }
    if j <= 1 {
        // no space at all, or an empty key
        proof {
            if j == 0 {
                lemma_last_space_none(t@);
            } else {
                lemma_last_space_at(t@, 0);
            }
        }
        return None;
    }
    proof {
        lemma_last_space_at(t@, j - 1);
    }
    let key = copy_range(t.as_slice(), 0, j - 1);
    let num = copy_range(t.as_slice(), j, t.len());
    let parsed = parse_u64(num.as_slice());
    proof {
        assert(num@ =~= t@.skip(j as int));
    }
    match parsed {
        Some(v) => Some(Entry { key, count: v }),
        None => None,
    }
}

/// A sequence with no space has no last space.
pub proof fn lemma_last_space_none(s: Seq<u8>)
    requires
        forall|i: int| 0 <= i < s.len() ==> s[i] != B_SPACE,
    ensures
        last_space(s) == -1,
    decreases s.len(),
{
    if s.len() > 0 {
        lemma_last_space_none(s.drop_last());
    }
}

/// Round trip: a well-formed entry parses back from its own line.
pub proof fn lemma_format_parse(k: Seq<u8>, c: u64)
    requires
        wf_key(k),
    ensures
        spec_parse_line(spec_format_entry(k, c)) == Some((k, c)),
{
    let line = spec_format_entry(k, c);
    let digits = dec_repr(c as nat);
    lemma_dec_repr_digits(c as nat);
    lemma_dec_repr_val(c as nat);
    assert(line.len() == k.len() + 1 + digits.len());
    assert(line[0] == k[0]);
    assert(line.last() == digits.last());
    assert(!is_ws(line.last()));
    assert(trimmed(line));
    lemma_trim_id(line);
    assert(line[k.len() as int] == B_SPACE);
    assert forall|i: int| k.len() < i < line.len() implies line[i] != B_SPACE by {
        assert(line[i] == digits[i - k.len() - 1]);
    }
    lemma_last_space_at(line, k.len() as int);
    assert(line.take(k.len() as int) =~= k);
    assert(line.skip(k.len() as int + 1) =~= digits);
}

/// Frames of a stack key: the key split on `;`.
pub open spec fn spec_split_semi(k: Seq<u8>) -> Seq<Seq<u8>>
    decreases k.len() via spec_split_semi_decreases
{
    let p = first_semi(k);
    if p == k.len() {
        seq![k]
    } else {
        seq![k.take(p)] + spec_split_semi(k.skip(p + 1))
    }
}

#[via_fn]
proof fn spec_split_semi_decreases(k: Seq<u8>) {
    lemma_first_semi(k);
}

/// Index of the first `;` in `s`, or `s.len()` if there is none.
pub open spec fn first_semi(s: Seq<u8>) -> int
    decreases s.len(),
{
    if s.len() == 0 {
        0
    } else if s[0] == B_SEMI {
        0
    } else {
        1 + first_semi(s.drop_first())
    }
}

pub proof fn lemma_first_semi(s: Seq<u8>)
    ensures
        0 <= first_semi(s) <= s.len(),
        forall|i: int| 0 <= i < first_semi(s) ==> s[i] != B_SEMI,
        first_semi(s) < s.len() ==> s[first_semi(s)] == B_SEMI,
    decreases s.len(),
{
    if s.len() > 0 && s[0] != B_SEMI {
        lemma_first_semi(s.drop_first());
        assert forall|i: int| 0 <= i < first_semi(s) implies s[i] != B_SEMI by {
            if i > 0 {
                assert(s.drop_first()[i - 1] == s[i]);
            }
        }
    }
}

/// Split a stack key into its frames.
pub fn split_semi(k: &[u8]) -> (r: Vec<Vec<u8>>)
    ensures
        r@.map_values(|f: Vec<u8>| f@) == spec_split_semi(k@),
{
    let mut out: Vec<Vec<u8>> = Vec::new();
    let mut start: usize = 0;
    let mut i: usize = 0;
    proof {
        assert(k@.skip(0) =~= k@);
    }
    while i < k.len()
        invariant
            0 <= start <= i <= k@.len(),
            forall|x: int| start <= x < i ==> k@[x] != B_SEMI,
            spec_split_semi(k@) =~~= out@.map_values(|f: Vec<u8>| f@) + spec_split_semi(
                k@.skip(start as int),
            ),
        decreases k@.len() - i,
    {
        if k[i] == B_SEMI {
            let piece = copy_range(k, start, i);
            proof {
                let rest = k@.skip(start as int);
                assert(first_semi(rest) == i - start) by {
                    lemma_first_semi_at(rest, i - start);
                }
                assert(rest.take(i - start) =~= k@.subrange(start as int, i as int));
                assert(rest.skip(i - start + 1) =~= k@.skip(i + 1));
                assert(spec_split_semi(rest) =~~= seq![piece@] + spec_split_semi(k@.skip(i + 1)));
            }
            out.push(piece);
            proof {
                assert(spec_split_semi(k@) =~~= out@.map_values(|f: Vec<u8>| f@)
                    + spec_split_semi(k@.skip(i + 1)));
            }
            start = i + 1;
        }
        i = i + 1;
    }
    let piece = copy_range(k, start, k.len());
    proof {
        let rest = k@.skip(start as int);
        lemma_first_semi_none(rest);
        assert(rest.take(rest.len() as int) =~= rest);
        assert(spec_split_semi(rest) =~~= seq![piece@]);
        assert(piece@ =~= rest);
    }
    out.push(piece);
    proof {
        assert(out@.map_values(|f: Vec<u8>| f@) =~~= spec_split_semi(k@));
    }
    out
}

pub proof fn lemma_first_semi_at(s: Seq<u8>, p: int)
    requires
        0 <= p < s.len(),
        forall|i: int| 0 <= i < p ==> s[i] != B_SEMI,
        s[p] == B_SEMI,
    ensures
        first_semi(s) == p,
    decreases p,
{
    if p > 0 {
        lemma_first_semi_at(s.drop_first(), p - 1);
    }
}

pub proof fn lemma_first_semi_none(s: Seq<u8>)
    requires
        forall|i: int| 0 <= i < s.len() ==> s[i] != B_SEMI,
    ensures
        first_semi(s) == s.len(),
    decreases s.len(),
{
    if s.len() > 0 {
        lemma_first_semi_none(s.drop_first());
    }
}

/// The frames split out of a newline-free key satisfy the data model:
/// none holds `;` (by construction of the split) or a newline.
pub proof fn lemma_split_wf(k: Seq<u8>)
    requires
        no_nl(k),
    ensures
        wf_frames(spec_split_semi(k)),
    decreases k.len(),
{
    lemma_first_semi(k);
    let p = first_semi(k);
    if p == k.len() {
        assert(wf_frame(k));
        assert(forall|i: int|
            0 <= i < spec_split_semi(k).len() ==> spec_split_semi(k)[i] == k);
    } else {
        let head = k.take(p);
        assert(wf_frame(head)) by {
            assert(forall|i: int| 0 <= i < head.len() ==> head[i] == k[i]);
        }
        let rest = k.skip(p + 1);
        assert(no_nl(rest)) by {
            assert(forall|i: int| 0 <= i < rest.len() ==> rest[i] == k[i + p + 1]);
        }
        lemma_split_wf(rest);
        assert forall|i: int| 0 <= i < spec_split_semi(k).len() implies wf_frame(
            #[trigger] spec_split_semi(k)[i],
        ) by {
            if i == 0 {
                assert(spec_split_semi(k)[0] == head);
            } else {
                assert(spec_split_semi(k)[i] == spec_split_semi(rest)[i - 1]);
            }
        }
    }
}

/// Frames joined by `;`. Inverse of `spec_split_semi` on non-empty frame
/// lists whose frames hold no `;`.
pub open spec fn spec_join_semi(frames: Seq<Seq<u8>>) -> Seq<u8>
    decreases frames.len(),
{
    if frames.len() == 0 {
        Seq::empty()
    } else if frames.len() == 1 {
        frames[0]
    } else {
        frames[0] + seq![B_SEMI] + spec_join_semi(frames.drop_first())
    }
}

/// A frame name free of `;` and newline, as the data model requires.
pub open spec fn wf_frame(f: Seq<u8>) -> bool {
    forall|i: int| 0 <= i < f.len() ==> #[trigger] f[i] != B_SEMI && f[i] != B_NL
}

/// All frames of a list are well formed.
pub open spec fn wf_frames(frames: Seq<Seq<u8>>) -> bool {
    forall|i: int| 0 <= i < frames.len() ==> wf_frame(#[trigger] frames[i])
}

/// Splitting a joined key recovers the frames: the join is injective on
/// well-formed frame lists.
pub proof fn lemma_join_split(frames: Seq<Seq<u8>>)
    requires
        frames.len() > 0,
        wf_frames(frames),
    ensures
        spec_split_semi(spec_join_semi(frames)) == frames,
    decreases frames.len(),
{
    let k = spec_join_semi(frames);
    if frames.len() == 1 {
        lemma_first_semi_none(k);
        assert(spec_split_semi(k) =~~= frames);
    } else {
        let f0 = frames[0];
        let rest = spec_join_semi(frames.drop_first());
        assert(wf_frames(frames.drop_first())) by {
            assert(forall|i: int|
                0 <= i < frames.drop_first().len() ==> frames.drop_first()[i]
                    == frames[i + 1]);
        }
        lemma_join_split(frames.drop_first());
        assert(k =~= f0 + seq![B_SEMI] + rest);
        assert(k[f0.len() as int] == B_SEMI);
        lemma_first_semi_at(k, f0.len() as int);
        assert(k.take(f0.len() as int) =~= f0);
        assert(k.skip(f0.len() as int + 1) =~= rest);
        assert(spec_split_semi(k) =~~= frames);
    }
}

} // verus!
