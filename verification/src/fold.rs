//! Folded input end to end: split input bytes into lines, parse each
//! folded line, aggregate, and emit folded lines again.
//!
//! The exec functions here are pinned exactly to spec-level models, which
//! makes the two round-trip laws provable: aggregation preserves the sum
//! of counts, and refolding emitted output is the identity.

use vstd::prelude::*;
use crate::accum::{can_add, keys_unique, spec_add, total_of, FoldAcc, lemma_find_key, find_key};
use crate::folded::{
    entries_view, spec_format_entry, spec_parse_line, wf_entry, wf_key, Entry,
    format_entry, lemma_format_parse, parse_line,
};
use crate::util::{
    dec_repr, is_ws, lemma_dec_repr_digits, lemma_first_nl_from_prefix,
    no_nl, spec_lines, spec_trim, split_lines, B_NL, first_nl, lemma_first_nl,
};

verus! {

/// Why collapsing failed.
#[derive(Clone, Copy, Debug, PartialEq, Eq, Structural)]
pub enum FoldError {
    /// A single stack's 64-bit sample counter would overflow.
    CountOverflow,
}

/// Fold folded lines into an aggregation state, front to back. Malformed
/// lines and zero counts change nothing; `None` on counter overflow.
pub open spec fn spec_fold_lines(
    acc: Seq<(Seq<u8>, u64)>,
    lines: Seq<Seq<u8>>,
) -> Option<Seq<(Seq<u8>, u64)>>
    decreases lines.len(),
{
    if lines.len() == 0 {
        Some(acc)
    } else {
        match spec_parse_line(lines[0]) {
            Option::None => spec_fold_lines(acc, lines.drop_first()),
            Option::Some(e) => {
                if can_add(acc, e.0, e.1) {
                    spec_fold_lines(spec_add(acc, e.0, e.1), lines.drop_first())
                } else {
                    Option::None
                }
            },
        }
    }
}

/// The total sample weight carried by a list of folded lines: malformed
/// lines carry none.
pub open spec fn lines_weight(lines: Seq<Seq<u8>>) -> int
    decreases lines.len(),
{
    if lines.len() == 0 {
        0
    } else {
        (match spec_parse_line(lines[0]) {
            Option::Some(e) => e.1 as int,
            Option::None => 0,
        }) + lines_weight(lines.drop_first())
    }
}

/// Weight preservation: whenever folding succeeds, the mathematical sum
/// of the aggregated counts is exactly the sum of the parsed input
/// weights — aggregation loses and invents nothing.
pub proof fn lemma_fold_weight(acc: Seq<(Seq<u8>, u64)>, lines: Seq<Seq<u8>>)
    requires
        spec_fold_lines(acc, lines) is Some,
    ensures
        total_of(spec_fold_lines(acc, lines)->Some_0) == total_of(acc) + lines_weight(lines),
    decreases lines.len(),
{
    if lines.len() > 0 {
        match spec_parse_line(lines[0]) {
            Option::None => {
                lemma_fold_weight(acc, lines.drop_first());
            },
            Option::Some(e) => {
                crate::accum::lemma_add_total(acc, e.0, e.1);
                lemma_fold_weight(spec_add(acc, e.0, e.1), lines.drop_first());
            },
        }
    }
}

/// Trimming keeps a sequence newline-free.
pub proof fn lemma_trim_no_nl(s: Seq<u8>)
    requires
        no_nl(s),
    ensures
        no_nl(spec_trim(s)),
    decreases s.len(),
{
    if s.len() > 0 && is_ws(s[0]) {
        assert(forall|i: int|
            0 <= i < s.drop_first().len() ==> s.drop_first()[i] == s[i + 1]);
        lemma_trim_no_nl(s.drop_first());
    } else if s.len() > 0 && is_ws(s.last()) {
        assert(forall|i: int| 0 <= i < s.drop_last().len() ==> s.drop_last()[i] == s[i]);
        lemma_trim_no_nl(s.drop_last());
    }
}

/// A successfully parsed folded line from a newline-free line has a
/// well-formed key.
pub proof fn lemma_parse_line_wf(raw: Seq<u8>)
    requires
        no_nl(raw),
        spec_parse_line(raw) is Some,
    ensures
        wf_key(spec_parse_line(raw)->Some_0.0),
{
    let t = spec_trim(raw);
    crate::util::lemma_trim_trimmed(raw);
    lemma_trim_no_nl(raw);
    crate::folded::lemma_last_space(t);
    let j = crate::folded::last_space(t);
    assert(t.len() > 0 && 0 < j < t.len());
    let k = t.take(j);
    assert(k[0] == t[0]);
    assert(forall|i: int| 0 <= i < k.len() ==> k[i] == t[i]);
}

/// Every line that `spec_lines` produces is newline-free.
pub proof fn lemma_spec_lines_no_nl(s: Seq<u8>)
    ensures
        forall|i: int| 0 <= i < spec_lines(s).len() ==> no_nl(#[trigger] spec_lines(s)[i]),
    decreases s.len(),
{
    if s.len() > 0 {
        lemma_first_nl(s);
        let k = first_nl(s);
        if k == s.len() {
            assert(no_nl(s));
        } else {
            lemma_spec_lines_no_nl(s.skip(k + 1));
            assert(no_nl(s.take(k)));
            assert(forall|i: int|
                1 <= i < spec_lines(s).len() ==> spec_lines(s)[i] == spec_lines(s.skip(k + 1))[i
                    - 1]);
        }
    }
}

/// Fold a list of folded lines into `acc`.
pub fn fold_lines_into(acc: &mut FoldAcc, lines: &Vec<Vec<u8>>) -> (ok: bool)
    requires
        old(acc).wf(),
        forall|i: int| 0 <= i < lines@.len() ==> no_nl((#[trigger] lines@[i])@),
    ensures
        final(acc).wf(),
        ok ==> Some(final(acc)@) == spec_fold_lines(
            old(acc)@,
            lines@.map_values(|l: Vec<u8>| l@),
        ),
        !ok ==> spec_fold_lines(old(acc)@, lines@.map_values(|l: Vec<u8>| l@)) is None,
{
    let ghost lviews = lines@.map_values(|l: Vec<u8>| l@);
    let mut i: usize = 0;
    proof {
        assert(lviews.skip(0) =~= lviews);
    }
    while i < lines.len()
        invariant
            0 <= i <= lines@.len(),
            acc.wf(),
            lviews == lines@.map_values(|l: Vec<u8>| l@),
            forall|x: int| 0 <= x < lines@.len() ==> no_nl((#[trigger] lines@[x])@),
            spec_fold_lines(old(acc)@, lviews) == spec_fold_lines(acc@, lviews.skip(i as int)),
        decreases lines@.len() - i,
    {
        let parsed = parse_line(lines[i].as_slice());
        proof {
            assert(lviews.skip(i as int)[0] == lviews[i as int]);
            assert(lviews.skip(i as int).drop_first() =~= lviews.skip(i + 1));
        }
        match parsed {
            Option::Some(e) => {
                proof {
                    if e.count > 0 {
                        lemma_parse_line_wf(lviews[i as int]);
                    }
                }
                let ghost before = acc@;
                let ghost ekey = e.key@;
                let ghost ecount = e.count;
                let ok = acc.add(e.key, e.count);
                if !ok {
                    proof {
                        assert(spec_fold_lines(before, lviews.skip(i as int)) is None);
                    }
                    return false;
                }
            },
            Option::None => {},
        }
        i = i + 1;
    }
    proof {
        assert(lviews.skip(lviews.len() as int).len() == 0);
    }
    true
}

/// Read folded input bytes: split into lines, parse, aggregate.
///
/// On success the result is exactly the spec-level fold of the input's
/// lines; the error comes exactly when some stack's counter overflows.
pub fn collapse_folded(input: &[u8]) -> (r: Result<Vec<Entry>, FoldError>)
    ensures
        match r {
            Ok(es) => Some(entries_view(es@)) == spec_fold_lines(
                Seq::empty(),
                spec_lines(input@),
            ) && keys_unique(entries_view(es@)) && forall|i: int|
                0 <= i < es@.len() ==> wf_entry((#[trigger] entries_view(es@)[i]).0, entries_view(es@)[i].1),
            Err(e) => e == FoldError::CountOverflow && spec_fold_lines(
                Seq::empty(),
                spec_lines(input@),
            ) is None,
        },
{
    let lines = split_lines(input);
    proof {
        lemma_spec_lines_no_nl(input@);
        assert forall|i: int| 0 <= i < lines@.len() implies no_nl((#[trigger] lines@[i])@) by {
            assert(lines@.map_values(|l: Vec<u8>| l@)[i] == lines@[i]@);
        }
    }
    let mut acc = FoldAcc::new();
    let ok = fold_lines_into(&mut acc, &lines);
    if !ok {
        return Err(FoldError::CountOverflow);
    }
    let ghost accv = acc@;
    let es = acc.into_entries();
    proof {
        assert(forall|i: int|
            0 <= i < es@.len() ==> wf_entry((#[trigger] entries_view(es@)[i]).0, entries_view(es@)[i].1));
    }
    Ok(es)
}

/// The emitted folded document: one line and newline per entry.
pub open spec fn spec_emit(entries: Seq<(Seq<u8>, u64)>) -> Seq<u8>
    decreases entries.len(),
{
    if entries.len() == 0 {
        Seq::empty()
    } else {
        spec_format_entry(entries[0].0, entries[0].1) + seq![B_NL] + spec_emit(
            entries.drop_first(),
        )
    }
}

/// Emitting after appending one entry appends one line.
pub proof fn lemma_emit_push(entries: Seq<(Seq<u8>, u64)>, e: (Seq<u8>, u64))
    ensures
        spec_emit(entries.push(e)) == spec_emit(entries) + spec_format_entry(e.0, e.1)
            + seq![B_NL],
    decreases entries.len(),
{
    if entries.len() == 0 {
        assert(entries.push(e)[0] == e);
        assert(entries.push(e).drop_first() =~= Seq::<(Seq<u8>, u64)>::empty());
        assert(spec_emit(Seq::<(Seq<u8>, u64)>::empty()) == Seq::<u8>::empty());
        assert(spec_emit(entries.push(e)) =~= spec_format_entry(e.0, e.1) + seq![B_NL]);
        assert(spec_emit(entries) + spec_format_entry(e.0, e.1) + seq![B_NL]
            =~= spec_format_entry(e.0, e.1) + seq![B_NL]);
    } else {
        lemma_emit_push(entries.drop_first(), e);
        assert(entries.push(e).drop_first() =~= entries.drop_first().push(e));
        assert(entries.push(e)[0] == entries[0]);
        assert(spec_emit(entries.push(e)) =~= spec_emit(entries) + spec_format_entry(e.0, e.1)
            + seq![B_NL]);
    }
}

/// Emit the folded document for a list of entries.
pub fn emit_entries(entries: &Vec<Entry>) -> (r: Vec<u8>)
    ensures
        r@ == spec_emit(entries_view(entries@)),
{
    let ghost ev = entries_view(entries@);
    let mut out: Vec<u8> = Vec::new();
    let mut i: usize = 0;
    proof {
        assert(ev.take(0) =~= Seq::empty());
    }
    while i < entries.len()
        invariant
            0 <= i <= entries@.len(),
            ev == entries_view(entries@),
            out@ == spec_emit(ev.take(i as int)),
        decreases entries@.len() - i,
    {
        let line = format_entry(&entries[i]);
        let mut j: usize = 0;
        while j < line.len()
            invariant
                0 <= j <= line@.len(),
                out@ == spec_emit(ev.take(i as int)) + line@.take(j as int),
                i < entries@.len(),
                ev == entries_view(entries@),
                line@ == spec_format_entry(ev[i as int].0, ev[i as int].1),
            decreases line@.len() - j,
        {
            out.push(line[j]);
            proof {
                assert(line@.take(j + 1) =~= line@.take(j as int).push(line@[j as int]));
                assert(out@ =~= spec_emit(ev.take(i as int)) + line@.take(j + 1));
            }
            j = j + 1;
        }
        out.push(B_NL);
        proof {
            assert(line@.take(line@.len() as int) =~= line@);
            lemma_emit_push(ev.take(i as int), ev[i as int]);
            assert(ev.take(i as int).push(ev[i as int]) =~= ev.take(i + 1));
            assert(out@ =~= spec_emit(ev.take(i + 1)));
        }
        i = i + 1;
    }
    proof {
        assert(ev.take(ev.len() as int) =~= ev);
    }
    out
}

/// A folded line holds no newline.
pub proof fn lemma_format_no_nl(k: Seq<u8>, c: u64)
    requires
        no_nl(k),
    ensures
        no_nl(spec_format_entry(k, c)),
{
    lemma_dec_repr_digits(c as nat);
    let line = spec_format_entry(k, c);
    assert forall|i: int| 0 <= i < line.len() implies line[i] != B_NL by {
        if i < k.len() {
            assert(line[i] == k[i]);
        } else if i == k.len() {
        } else {
            assert(line[i] == dec_repr(c as nat)[i - k.len() - 1]);
            assert(crate::util::is_digit(dec_repr(c as nat)[i - k.len() - 1]));
        }
    }
}

/// Splitting a document that starts with a newline-free line and its
/// newline yields that line, then the lines of the rest.
pub proof fn lemma_lines_prepend(l: Seq<u8>, rest: Seq<u8>)
    requires
        no_nl(l),
    ensures
        spec_lines(l + seq![B_NL] + rest) == seq![l] + spec_lines(rest),
{
    let s = l + seq![B_NL] + rest;
    assert(s[l.len() as int] == B_NL);
    lemma_first_nl_from_prefix(s, l.len() as int);
    assert(s.take(l.len() as int) =~= l);
    assert(s.skip(l.len() as int + 1) =~= rest);
    assert(spec_lines(s) =~= seq![l] + spec_lines(rest));
}

/// The emitted document splits back into exactly the emitted lines.
pub proof fn lemma_emit_lines(entries: Seq<(Seq<u8>, u64)>)
    requires
        forall|i: int| 0 <= i < entries.len() ==> no_nl((#[trigger] entries[i]).0),
    ensures
        spec_lines(spec_emit(entries)) == entries.map_values(
            |e: (Seq<u8>, u64)| spec_format_entry(e.0, e.1),
        ),
    decreases entries.len(),
{
    if entries.len() == 0 {
        assert(spec_lines(spec_emit(entries)) =~= entries.map_values(
            |e: (Seq<u8>, u64)| spec_format_entry(e.0, e.1),
        ));
    } else {
        let e0 = entries[0];
        let line0 = spec_format_entry(e0.0, e0.1);
        lemma_format_no_nl(e0.0, e0.1);
        assert(forall|i: int|
            0 <= i < entries.drop_first().len() ==> entries.drop_first()[i] == entries[i + 1]);
        lemma_emit_lines(entries.drop_first());
        lemma_lines_prepend(line0, spec_emit(entries.drop_first()));
        assert(spec_emit(entries) =~= line0 + seq![B_NL] + spec_emit(entries.drop_first()));
        assert(spec_lines(spec_emit(entries)) =~= seq![line0] + spec_lines(
            spec_emit(entries.drop_first()),
        ));
        assert(spec_lines(spec_emit(entries)) =~= entries.map_values(
            |e: (Seq<u8>, u64)| spec_format_entry(e.0, e.1),
        ));
    }
}

/// Folding the formatted lines of well-formed unique entries onto `acc`
/// appends exactly those entries.
pub proof fn lemma_fold_formatted(acc: Seq<(Seq<u8>, u64)>, entries: Seq<(Seq<u8>, u64)>)
    requires
        keys_unique(acc + entries),
        forall|i: int| 0 <= i < entries.len() ==> wf_entry((#[trigger] entries[i]).0, entries[i].1),
    ensures
        spec_fold_lines(
            acc,
            entries.map_values(|e: (Seq<u8>, u64)| spec_format_entry(e.0, e.1)),
        ) == Some(acc + entries),
    decreases entries.len(),
{
    let lines = entries.map_values(|e: (Seq<u8>, u64)| spec_format_entry(e.0, e.1));
    if entries.len() == 0 {
        assert(acc + entries =~= acc);
    } else {
        let e0 = entries[0];
        lemma_format_parse(e0.0, e0.1);
        assert(lines[0] == spec_format_entry(e0.0, e0.1));
        lemma_find_key(acc, e0.0);
        let fk = find_key(acc, e0.0);
        if fk >= 0 {
            let all = acc + entries;
            assert(all[fk] == acc[fk]);
            assert(all[acc.len() as int] == e0);
            assert(false);
        }
        assert(spec_add(acc, e0.0, e0.1) =~= acc.push(e0));
        assert(acc.push(e0) + entries.drop_first() =~= acc + entries);
        assert(forall|i: int|
            0 <= i < entries.drop_first().len() ==> entries.drop_first()[i] == entries[i + 1]);
        lemma_fold_formatted(acc.push(e0), entries.drop_first());
        assert(lines.drop_first() =~= entries.drop_first().map_values(
            |e: (Seq<u8>, u64)| spec_format_entry(e.0, e.1),
        ));
    }
}

/// Output grammar law: every line of the emitted folded document of
/// well-formed entries parses back under the folded grammar, its count
/// is positive, and none of its frames holds `;` or a newline.
pub proof fn lemma_output_grammar(entries: Seq<(Seq<u8>, u64)>)
    requires
        forall|i: int| 0 <= i < entries.len() ==> wf_entry((#[trigger] entries[i]).0, entries[i].1),
    ensures
        forall|i: int|
            0 <= i < spec_lines(spec_emit(entries)).len() ==> {
                let parsed = spec_parse_line(#[trigger] spec_lines(spec_emit(entries))[i]);
                &&& parsed is Some
                &&& parsed->Some_0.1 > 0
                &&& crate::folded::wf_frames(
                    crate::folded::spec_split_semi(parsed->Some_0.0),
                )
            },
{
    lemma_emit_lines(entries);
    let lines = spec_lines(spec_emit(entries));
    assert forall|i: int| 0 <= i < lines.len() implies {
        let parsed = spec_parse_line(#[trigger] lines[i]);
        &&& parsed is Some
        &&& parsed->Some_0.1 > 0
        &&& crate::folded::wf_frames(crate::folded::spec_split_semi(parsed->Some_0.0))
    } by {
        let e = entries[i];
        assert(lines[i] == spec_format_entry(e.0, e.1));
        lemma_format_parse(e.0, e.1);
        crate::folded::lemma_split_wf(e.0);
    }
}

/// Refolding law: collapsing the emitted folded document of well-formed,
/// uniquely-keyed entries gives those entries back unchanged.
pub proof fn lemma_refold_identity(entries: Seq<(Seq<u8>, u64)>)
    requires
        keys_unique(entries),
        forall|i: int| 0 <= i < entries.len() ==> wf_entry((#[trigger] entries[i]).0, entries[i].1),
    ensures
        spec_fold_lines(Seq::empty(), spec_lines(spec_emit(entries))) == Some(entries),
{
    lemma_emit_lines(entries);
    assert(Seq::<(Seq<u8>, u64)>::empty() + entries =~= entries);
    lemma_fold_formatted(Seq::empty(), entries);
}

} // verus!
