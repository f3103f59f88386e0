//! The DTrace collapser: `ustack()`-style dumps to folded stacks.
//!
//! A record is a run of frame lines (leaf first), a count line (all
//! digits), and a blank separator. Frames are reversed to root-first
//! order, a `MODULE\u{60}` prefix is dropped, `+0x…` offsets are
//! stripped unless retention is requested, and identical stacks are
//! aggregated in first-occurrence order. Records missing their count
//! line, and count lines whose value does not fit in 64 bits, are
//! dropped, as malformed records must not abort collapsing.
//!
//! The collapser is pinned to a line-by-line specification
//! (`spec_dtrace_run`), so its entire output is a mathematical function
//! of the input bytes and the options.

use vstd::prelude::*;
use crate::accum::{can_add, keys_unique, spec_add, FoldAcc};
use crate::collapse::{
    join_frames, lemma_join_wf, reverse_frames, sanitize_frame, spec_sanitize,
    spec_strip_offset, strip_offset,
};
use crate::fold::FoldError;
use crate::folded::{entries_view, spec_join_semi, wf_entry, wf_frame, Entry};
use crate::util::{all_digits, dec_val, digit_byte, is_ws, spec_lines, spec_trim, split_lines,
    trim_bytes};

verus! {

/// ASCII backtick, the module/symbol separator in DTrace frames.
pub const B_BTICK: u8 = 96;

/// DTrace collapsing options.
pub struct DtraceOptions {
    /// Keep `+0x…` offsets on frame names.
    pub include_offset: bool,
}

impl Default for DtraceOptions {
    /// Offsets are stripped by default.
    fn default() -> (r: Self)
        ensures
            r.include_offset == false,
    {
        DtraceOptions { include_offset: false }
    }
}

/// A frame as the collapser stacks it: well formed, non-empty, and not
/// starting with whitespace, so joining yields a well-formed key.
pub open spec fn stacked_frame(f: Seq<u8>) -> bool {
    wf_frame(f) && f.len() > 0 && !is_ws(f[0])
}

/// Index of the first backtick in `s`, or `s.len()` if there is none.
pub open spec fn first_bq(s: Seq<u8>) -> int
    decreases s.len(),
{
    if s.len() == 0 {
        0
    } else if s[0] == B_BTICK {
        0
    } else {
        1 + first_bq(s.drop_first())
    }
}

pub proof fn lemma_first_bq_at(s: Seq<u8>, p: int)
    requires
        0 <= p < s.len(),
        forall|i: int| 0 <= i < p ==> s[i] != B_BTICK,
        s[p] == B_BTICK,
    ensures
        first_bq(s) == p,
    decreases p,
{
    if p > 0 {
        lemma_first_bq_at(s.drop_first(), p - 1);
    }
}

pub proof fn lemma_first_bq_none(s: Seq<u8>)
    requires
        forall|i: int| 0 <= i < s.len() ==> s[i] != B_BTICK,
    ensures
        first_bq(s) == s.len(),
    decreases s.len(),
{
    if s.len() > 0 {
        lemma_first_bq_none(s.drop_first());
    }
}

/// The finished frame name for one trimmed, non-blank frame line: the
/// symbol after a `MODULE\u{60}` prefix if that leaves anything, the
/// offset stripped unless kept, reserved bytes normalized.
pub open spec fn spec_dtrace_frame(t: Seq<u8>, include_offset: bool) -> Seq<u8> {
    let p = first_bq(t);
    let sym = if p < t.len() && p + 1 < t.len() && spec_trim(t.skip(p + 1)).len() > 0 {
        spec_trim(t.skip(p + 1))
    } else {
        t
    };
    let base = if include_offset {
        sym
    } else {
        spec_strip_offset(sym)
    };
    spec_sanitize(base)
}

/// One line's effect on the collapser state `(frames, acc)`. `None`
/// stands for a 64-bit counter overflow.
pub open spec fn spec_dtrace_step(
    fr: Seq<Seq<u8>>,
    acc: Seq<(Seq<u8>, u64)>,
    line: Seq<u8>,
    include_offset: bool,
) -> Option<(Seq<Seq<u8>>, Seq<(Seq<u8>, u64)>)> {
    let t = spec_trim(line);
    if t.len() == 0 {
        Some((Seq::empty(), acc))
    } else if all_digits(t) {
        if dec_val(t) <= u64::MAX {
            let c = dec_val(t) as u64;
            if fr.len() > 0 && c > 0 {
                let key = spec_join_semi(fr.reverse());
                if can_add(acc, key, c) {
                    Some((Seq::empty(), spec_add(acc, key, c)))
                } else {
                    None
                }
            } else {
                Some((Seq::empty(), acc))
            }
        } else {
            Some((Seq::empty(), acc))
        }
    } else {
        Some((fr.push(spec_dtrace_frame(t, include_offset)), acc))
    }
}

/// The collapser state after all lines, front to back.
pub open spec fn spec_dtrace_run(
    fr: Seq<Seq<u8>>,
    acc: Seq<(Seq<u8>, u64)>,
    lines: Seq<Seq<u8>>,
    include_offset: bool,
) -> Option<(Seq<Seq<u8>>, Seq<(Seq<u8>, u64)>)>
    decreases lines.len(),
{
    if lines.len() == 0 {
        Some((fr, acc))
    } else {
        match spec_dtrace_step(fr, acc, lines[0], include_offset) {
            Option::None => Option::None,
            Option::Some(st) => spec_dtrace_run(st.0, st.1, lines.drop_first(), include_offset),
        }
    }
}

/// The total sample weight the run will aggregate: the counts of all
/// well-formed records with at least one frame. The frame-state
/// transitions do not depend on the aggregation, so neither does the
/// weight.
pub open spec fn spec_dtrace_weight(fr: Seq<Seq<u8>>, lines: Seq<Seq<u8>>, inc: bool) -> int
    decreases lines.len(),
{
    if lines.len() == 0 {
        0
    } else {
        match spec_dtrace_step(fr, Seq::empty(), lines[0], inc) {
            Option::None => 0,
            Option::Some(st) => {
                let t = crate::util::spec_trim(lines[0]);
                (if t.len() > 0 && crate::util::all_digits(t) && crate::util::dec_val(t)
                    <= u64::MAX && fr.len() > 0 {
                    crate::util::dec_val(t) as int
                } else {
                    0
                }) + spec_dtrace_weight(st.0, lines.drop_first(), inc)
            },
        }
    }
}

/// Weight preservation: whenever the run succeeds, the mathematical sum
/// of the aggregated counts grows by exactly the record counts —
/// collapsing loses and invents no sample weight.
pub proof fn lemma_dtrace_run_weight(
    fr: Seq<Seq<u8>>,
    acc: Seq<(Seq<u8>, u64)>,
    lines: Seq<Seq<u8>>,
    inc: bool,
)
    requires
        spec_dtrace_run(fr, acc, lines, inc) is Some,
    ensures
        crate::accum::total_of(spec_dtrace_run(fr, acc, lines, inc)->Some_0.1)
            == crate::accum::total_of(acc) + spec_dtrace_weight(fr, lines, inc),
    decreases lines.len(),
{
    if lines.len() > 0 {
        let st = spec_dtrace_step(fr, acc, lines[0], inc)->Some_0;
        let t = crate::util::spec_trim(lines[0]);
        if t.len() > 0 && crate::util::all_digits(t) && crate::util::dec_val(t) <= u64::MAX {
            let c = crate::util::dec_val(t) as u64;
            if fr.len() > 0 && c > 0 {
                let key = crate::folded::spec_join_semi(fr.reverse());
                crate::accum::lemma_add_total(acc, key, c);
            }
        }
        let st0 = spec_dtrace_step(fr, Seq::empty(), lines[0], inc);
        assert(st0 is Some && st0->Some_0.0 == st.0);
        lemma_dtrace_run_weight(st.0, st.1, lines.drop_first(), inc);
    }
}

/// Every byte of `t` is a digit and there is at least one.
fn digits_only(t: &[u8]) -> (r: bool)
    ensures
        r == (t@.len() > 0 && all_digits(t@)),
{
    if t.len() == 0 {
        return false;
    }
    let mut i: usize = 0;
    while i < t.len()
        invariant
            0 <= i <= t@.len(),
            forall|x: int| 0 <= x < i ==> crate::util::is_digit(#[trigger] t@[x]),
        decreases t@.len() - i,
    {
        if !digit_byte(t[i]) {
            return false;
        }
        i = i + 1;
    }
    true
}

/// Build the finished frame for one trimmed, non-blank frame line.
fn dtrace_frame(t: &Vec<u8>, include_offset: bool) -> (r: Vec<u8>)
    requires
        t@.len() > 0,
        crate::util::trimmed(t@),
    ensures
        r@ == spec_dtrace_frame(t@, include_offset),
        stacked_frame(r@),
{
    let mut bt: usize = 0;
    let mut has_bt: bool = false;
    let mut x: usize = 0;
    while x < t.len()
        invariant
            0 <= x <= t@.len(),
            has_bt ==> bt < x && t@[bt as int] == B_BTICK,
            has_bt ==> forall|i: int| 0 <= i < bt ==> t@[i] != B_BTICK,
            !has_bt ==> forall|i: int| 0 <= i < x ==> t@[i] != B_BTICK,
        decreases t@.len() - x,
    {
        if !has_bt && t[x] == B_BTICK {
            bt = x;
            has_bt = true;
        }
        x = x + 1;
    }
    proof {
        if has_bt {
            lemma_first_bq_at(t@, bt as int);
        } else {
            lemma_first_bq_none(t@);
        }
    }
    let sym: Vec<u8> = if has_bt && bt + 1 < t.len() {
        let tail = crate::util::copy_range(t.as_slice(), bt + 1, t.len());
        proof {
            assert(tail@ =~= t@.skip(bt + 1));
        }
        let symt = trim_bytes(tail.as_slice());
        proof {
            crate::util::lemma_trim_trimmed(tail@);
        }
        if symt.len() > 0 {
            symt
        } else {
            crate::util::copy_range(t.as_slice(), 0, t.len())
        }
    } else {
        crate::util::copy_range(t.as_slice(), 0, t.len())
    };
    proof {
        assert(t@.subrange(0, t@.len() as int) =~= t@);
    }
    let base: Vec<u8> = if include_offset {
        sym
    } else {
        let ghost symv = sym@;
        let stripped = strip_offset(sym.as_slice());
        proof {
            if crate::collapse::has_offset_suffix(symv) {
                crate::collapse::lemma_last_plus(symv);
                assert(stripped@[0] == symv[0]);
            }
        }
        stripped
    };
    let frame = sanitize_frame(base.as_slice());
    proof {
        crate::collapse::lemma_sanitize_wf(base@);
        assert(frame@[0] == crate::collapse::norm_byte(base@[0]));
    }
    frame
}

/// Collapse a DTrace dump.
///
/// The result is pinned to the specification: on success the entries
/// are exactly the aggregation state that `spec_dtrace_run` computes
/// over the input's lines (well-formed, uniquely keyed, positive
/// counts); the error comes exactly when that run overflows a stack's
/// 64-bit counter.
pub fn collapse_dtrace(input: &[u8], opts: &DtraceOptions) -> (r: Result<
    Vec<Entry>,
    FoldError,
>)
    ensures
        match r {
            Ok(es) => {
                &&& spec_dtrace_run(
                    Seq::empty(),
                    Seq::empty(),
                    spec_lines(input@),
                    opts.include_offset,
                ) matches Some(st) && entries_view(es@) == st.1
                &&& keys_unique(entries_view(es@))
                &&& forall|i: int|
                    0 <= i < es@.len() ==> wf_entry(
                        (#[trigger] entries_view(es@)[i]).0,
                        entries_view(es@)[i].1,
                    )
            },
            Err(e) => e == FoldError::CountOverflow && spec_dtrace_run(
                Seq::empty(),
                Seq::empty(),
                spec_lines(input@),
                opts.include_offset,
            ) is None,
        },
{
    let lines = split_lines(input);
    let ghost lviews = lines@.map_values(|l: Vec<u8>| l@);
    let ghost inc = opts.include_offset;
    let mut acc = FoldAcc::new();
    let mut frames: Vec<Vec<u8>> = Vec::new();
    let mut li: usize = 0;
    proof {
        assert(lviews.skip(0) =~= lviews);
        assert(frames@.map_values(|f: Vec<u8>| f@) =~= Seq::<Seq<u8>>::empty());
    }
    while li < lines.len()
        invariant
            0 <= li <= lines@.len(),
            acc.wf(),
            lviews == lines@.map_values(|l: Vec<u8>| l@),
            lviews == spec_lines(input@),
            inc == opts.include_offset,
            forall|i: int| 0 <= i < frames@.len() ==> stacked_frame((#[trigger] frames@[i])@),
            spec_dtrace_run(Seq::empty(), Seq::empty(), lviews, inc) == spec_dtrace_run(
                frames@.map_values(|f: Vec<u8>| f@),
                acc@,
                lviews.skip(li as int),
                inc,
            ),
        decreases lines@.len() - li,
    {
        proof {
            assert(lviews.skip(li as int)[0] == lviews[li as int]);
            assert(lviews.skip(li as int).drop_first() =~= lviews.skip(li + 1));
            assert(lviews[li as int] == lines@[li as int]@);
        }
        let ghost fv = frames@.map_values(|f: Vec<u8>| f@);
        let t = trim_bytes(lines[li].as_slice());
        if t.len() == 0 {
            // record separator; an unterminated record is dropped
            frames = Vec::new();
            proof {
                assert(frames@.map_values(|f: Vec<u8>| f@) =~= Seq::<Seq<u8>>::empty());
            }
        } else if digits_only(t.as_slice()) {
            // count line: flush the pending record
            match crate::util::parse_u64(t.as_slice()) {
                Option::Some(c) => {
                    if frames.len() > 0 && c > 0 {
                        let rev = reverse_frames(&frames);
                        let key = join_frames(&rev);
                        proof {
                            let rv = rev@.map_values(|f: Vec<u8>| f@);
                            assert(rv == fv.reverse());
                            assert forall|i: int| 0 <= i < rv.len() implies stacked_frame(
                                #[trigger] rv[i],
                            ) by {
                                assert(rv[i] == rev@[i]@);
                                assert(rev@[i]@ == frames@[frames@.len() - 1 - i]@);
                            }
                            assert(rv[0].len() > 0 && !is_ws(rv[0][0]));
                            lemma_join_wf(rv);
                            assert(key@ == spec_join_semi(fv.reverse()));
                        }
                        let ok = acc.add(key, c);
                        if !ok {
                            return Err(FoldError::CountOverflow);
                        }
                    }
                    frames = Vec::new();
                    proof {
                        assert(frames@.map_values(|f: Vec<u8>| f@) =~= Seq::<Seq<u8>>::empty());
                    }
                },
                Option::None => {
                    // count does not fit in 64 bits: malformed record
                    frames = Vec::new();
                    proof {
                        assert(frames@.map_values(|f: Vec<u8>| f@) =~= Seq::<Seq<u8>>::empty());
                    }
                },
            }
        } else {
            // frame line
            proof {
                crate::util::lemma_trim_trimmed(lines@[li as int]@);
            }
            let frame = dtrace_frame(&t, opts.include_offset);
            frames.push(frame);
            proof {
                assert(frames@.map_values(|f: Vec<u8>| f@) =~= fv.push(
                    spec_dtrace_frame(t@, inc),
                ));
            }
        }
        li = li + 1;
    }
    proof {
        assert(lviews.skip(lviews.len() as int).len() == 0);
    }
    let es = acc.into_entries();
    Ok(es)
}

} // verus!
