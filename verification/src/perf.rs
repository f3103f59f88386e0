//! The perf collapser: `perf script` output to folded stacks.
//!
//! Input is a series of records: an unindented header line, indented
//! frame lines (leaf first), and a blank separator. The header names the
//! process, thread, sample period and event; options control synthetic
//! process/thread frames, address retention, kernel and JIT annotation,
//! and event filtering. When no filter is given the collapser locks onto
//! the first event seen so that mixed-event input is never merged.

use vstd::prelude::*;
use crate::accum::{keys_unique, vec_u8_eq, FoldAcc};
use crate::collapse::{
    join_frames, lemma_join_wf, norm_byte, reverse_frames, sanitize_frame, strip_offset,
};
use crate::dtrace::stacked_frame;
use crate::fold::FoldError;
use crate::folded::{entries_view, spec_join_semi, wf_entry, Entry};
use crate::util::{all_digits, dec_val, dec_repr, is_ws, parse_u64, spec_lines, spec_trim,
    split_lines, trim_bytes, ws_byte, B_SPACE};
use crate::collapse::{spec_sanitize, spec_strip_offset};
use crate::color::spec_has_suffix;
use crate::accum::{can_add, spec_add};

verus! {

/// ASCII bytes used when assembling synthetic frames and annotations.
pub const B_DASH: u8 = 45;
pub const B_SLASH: u8 = 47;
pub const B_LBRACK: u8 = 91;
pub const B_RBRACK: u8 = 93;
pub const B_LPAREN: u8 = 40;
pub const B_RPAREN: u8 = 41;
pub const B_UNDER: u8 = 95;
pub const B_LOW_K: u8 = 107;
pub const B_LOW_J: u8 = 106;
pub const B_AT: u8 = 64;

/// Perf collapsing options.
pub struct PerfOptions {
    /// Prepend a synthetic `COMM-PID` bottom frame.
    pub include_pid: bool,
    /// Prepend a synthetic `COMM-PID/TID` bottom frame.
    pub include_tid: bool,
    /// Keep the instruction pointer on each frame name.
    pub include_addrs: bool,
    /// Keep only records of this event; `None` locks onto the first
    /// event seen.
    pub event_filter: Option<Vec<u8>>,
    /// Append `_[k]` to kernel frames that lack it.
    pub annotate_kernel: bool,
    /// Append `_[j]` to JIT frames that lack it.
    pub annotate_jit: bool,
    /// Keep inlined frames as separate entries. Perf DWARF output
    /// already prints them separately, so collapsing is unaffected.
    pub show_inline: bool,
}

impl Default for PerfOptions {
    /// All options off: plain `COMM`-rooted stacks of every sample of
    /// the first event seen.
    fn default() -> (r: Self)
        ensures
            !r.include_pid && !r.include_tid && !r.include_addrs && !r.annotate_kernel
                && !r.annotate_jit && !r.show_inline && r.event_filter is None,
    {
        PerfOptions {
            include_pid: false,
            include_tid: false,
            include_addrs: false,
            event_filter: Option::None,
            annotate_kernel: false,
            annotate_jit: false,
            show_inline: false,
        }
    }
}

impl PerfOptions {
    /// Enable both kernel and JIT annotation, the `annotate_all`
    /// shorthand.
    pub fn set_annotate_all(&mut self)
        ensures
            final(self).annotate_kernel && final(self).annotate_jit,
            final(self).include_pid == old(self).include_pid,
            final(self).include_tid == old(self).include_tid,
            final(self).include_addrs == old(self).include_addrs,
            final(self).event_filter == old(self).event_filter,
            final(self).show_inline == old(self).show_inline,
    {
        self.annotate_kernel = true;
        self.annotate_jit = true;
    }
}

/// Index of the first whitespace byte of `s`, or `s.len()`.
pub open spec fn first_ws_idx(s: Seq<u8>) -> int
    decreases s.len(),
{
    if s.len() == 0 {
        0
    } else if is_ws(s[0]) {
        0
    } else {
        1 + first_ws_idx(s.drop_first())
    }
}

pub proof fn lemma_first_ws_idx(s: Seq<u8>)
    ensures
        0 <= first_ws_idx(s) <= s.len(),
        first_ws_idx(s) < s.len() ==> is_ws(s[first_ws_idx(s)]),
        forall|i: int| 0 <= i < first_ws_idx(s) ==> !is_ws(s[i]),
    decreases s.len(),
{
    if s.len() > 0 && !is_ws(s[0]) {
        lemma_first_ws_idx(s.drop_first());
        assert forall|i: int| 0 <= i < first_ws_idx(s) implies !is_ws(s[i]) by {
            if i > 0 {
                assert(s.drop_first()[i - 1] == s[i]);
            }
        }
    }
}

pub proof fn lemma_first_ws_idx_at(s: Seq<u8>, p: int)
    requires
        0 <= p <= s.len(),
        forall|i: int| 0 <= i < p ==> !is_ws(s[i]),
        p < s.len() ==> is_ws(s[p]),
    ensures
        first_ws_idx(s) == p,
    decreases p,
{
    if p > 0 {
        lemma_first_ws_idx_at(s.drop_first(), p - 1);
    }
}

/// The whitespace-separated tokens of a line.
pub open spec fn spec_split_ws(s: Seq<u8>) -> Seq<Seq<u8>>
    decreases s.len() via spec_split_ws_decreases
{
    if s.len() == 0 {
        Seq::empty()
    } else if is_ws(s[0]) {
        spec_split_ws(s.drop_first())
    } else {
        let k = first_ws_idx(s);
        seq![s.take(k)] + spec_split_ws(s.skip(k))
    }
}

#[via_fn]
proof fn spec_split_ws_decreases(s: Seq<u8>) {
    lemma_first_ws_idx(s);
    if s.len() > 0 && !is_ws(s[0]) {
        assert(first_ws_idx(s) >= 1);
    }
}

/// Every token is non-empty and free of whitespace.
pub proof fn lemma_split_ws_wf(s: Seq<u8>)
    ensures
        forall|i: int|
            0 <= i < spec_split_ws(s).len() ==> (#[trigger] spec_split_ws(s)[i]).len() > 0
                && forall|j: int|
                0 <= j < spec_split_ws(s)[i].len() ==> !is_ws(#[trigger] spec_split_ws(s)[i][j]),
    decreases s.len(),
{
    lemma_first_ws_idx(s);
    if s.len() == 0 {
    } else if is_ws(s[0]) {
        lemma_split_ws_wf(s.drop_first());
        assert(spec_split_ws(s) == spec_split_ws(s.drop_first()));
        assert forall|i: int|
            0 <= i < spec_split_ws(s).len() implies (#[trigger] spec_split_ws(s)[i]).len() > 0
            && forall|j: int|
            0 <= j < spec_split_ws(s)[i].len() ==> !is_ws(
                #[trigger] spec_split_ws(s)[i][j],
            ) by {
            assert(spec_split_ws(s)[i] == spec_split_ws(s.drop_first())[i]);
        }
    } else {
        let k = first_ws_idx(s);
        lemma_split_ws_wf(s.skip(k));
        let head = s.take(k);
        assert(head.len() > 0 && forall|j: int| 0 <= j < head.len() ==> !is_ws(head[j]));
        assert forall|i: int|
            0 <= i < spec_split_ws(s).len() implies (#[trigger] spec_split_ws(s)[i]).len() > 0
            && forall|j: int|
            0 <= j < spec_split_ws(s)[i].len() ==> !is_ws(
                #[trigger] spec_split_ws(s)[i][j],
            ) by {
            if i == 0 {
                assert(spec_split_ws(s)[0] == head);
            } else {
                assert(spec_split_ws(s)[i] == spec_split_ws(s.skip(k))[i - 1]);
            }
        }
    }
}

/// Split a line into whitespace-separated tokens.
fn split_ws(t: &[u8]) -> (r: Vec<Vec<u8>>)
    ensures
        r@.map_values(|f: Vec<u8>| f@) == spec_split_ws(t@),
        forall|i: int|
            0 <= i < r@.len() ==> (#[trigger] r@[i])@.len() > 0 && forall|j: int|
                0 <= j < r@[i]@.len() ==> !is_ws(#[trigger] r@[i]@[j]),
{
    let mut out: Vec<Vec<u8>> = Vec::new();
    let mut i: usize = 0;
    proof {
        assert(t@.skip(0) =~= t@);
    }
    while i < t.len()
        invariant
            0 <= i <= t@.len(),
            spec_split_ws(t@) =~~= out@.map_values(|f: Vec<u8>| f@) + spec_split_ws(
                t@.skip(i as int),
            ),
        decreases t@.len() - i,
    {
        if ws_byte(t[i]) {
            proof {
                assert(t@.skip(i as int).drop_first() =~= t@.skip(i + 1));
            }
            i = i + 1;
        } else {
            let start = i;
            let mut j: usize = i;
            while j < t.len() && !ws_byte(t[j])
                invariant
                    start <= j <= t@.len(),
                    forall|x: int| start <= x < j ==> !is_ws(t@[x]),
                decreases t@.len() - j,
            {
                j = j + 1;
            }
            let piece = crate::util::copy_range(t, start, j);
            proof {
                let rest = t@.skip(start as int);
                assert forall|x: int| 0 <= x < j - start implies !is_ws(rest[x]) by {
                    assert(rest[x] == t@[start + x]);
                }
                if j < t@.len() {
                    assert(is_ws(rest[j - start]));
                }
                lemma_first_ws_idx_at(rest, j - start);
                assert(rest.take(j - start) =~= t@.subrange(start as int, j as int));
                assert(rest.skip(j - start) =~= t@.skip(j as int));
                assert(spec_split_ws(rest) =~~= seq![piece@] + spec_split_ws(t@.skip(j as int)));
            }
            out.push(piece);
            proof {
                assert(spec_split_ws(t@) =~~= out@.map_values(|f: Vec<u8>| f@) + spec_split_ws(
                    t@.skip(j as int),
                ));
            }
            i = j;
        }
    }
    proof {
        assert(spec_split_ws(t@.skip(t@.len() as int)).len() == 0);
        assert(out@.map_values(|f: Vec<u8>| f@) =~~= spec_split_ws(t@));
        lemma_split_ws_wf(t@);
        assert forall|i: int| 0 <= i < out@.len() implies (#[trigger] out@[i])@.len() > 0
            && forall|j: int| 0 <= j < out@[i]@.len() ==> !is_ws(#[trigger] out@[i]@[j]) by {
            assert(out@.map_values(|f: Vec<u8>| f@)[i] == out@[i]@);
            assert(spec_split_ws(t@)[i] == out@[i]@);
        }
    }
    out
}

/// Whether `s` ends with the annotation suffix `_[c]`.
fn has_annotation(s: &Vec<u8>, c: u8) -> (r: bool)
    ensures
        r == spec_has_suffix(s@, c),
{
    if s.len() < 4 {
        return false;
    }
    let n = s.len();
    s[n - 4] == B_UNDER && s[n - 3] == B_LBRACK && s[n - 2] == c && s[n - 1] == B_RBRACK
}

/// Whether a token is the bracketed CPU marker.
pub open spec fn is_cpu_tok(tok: Seq<u8>) -> bool {
    tok.len() >= 3 && tok[0] == 91 && tok[tok.len() - 1] == 93
}

/// Index of the first CPU token, or `toks.len()`.
pub open spec fn first_cpu(toks: Seq<Seq<u8>>) -> int
    decreases toks.len(),
{
    if toks.len() == 0 {
        0
    } else if is_cpu_tok(toks[0]) {
        0
    } else {
        1 + first_cpu(toks.drop_first())
    }
}

pub proof fn lemma_first_cpu_at(toks: Seq<Seq<u8>>, p: int)
    requires
        0 <= p <= toks.len(),
        forall|i: int| 0 <= i < p ==> !is_cpu_tok(#[trigger] toks[i]),
        p < toks.len() ==> is_cpu_tok(toks[p]),
    ensures
        first_cpu(toks) == p,
    decreases p,
{
    if p > 0 {
        lemma_first_cpu_at(toks.drop_first(), p - 1);
    }
}

/// Index of the first `/` in `s`, or `s.len()`.
pub open spec fn first_slash(s: Seq<u8>) -> int
    decreases s.len(),
{
    if s.len() == 0 {
        0
    } else if s[0] == 47 {
        0
    } else {
        1 + first_slash(s.drop_first())
    }
}

pub proof fn lemma_first_slash_at(s: Seq<u8>, p: int)
    requires
        0 <= p <= s.len(),
        forall|i: int| 0 <= i < p ==> s[i] != 47,
        p < s.len() ==> s[p] == 47,
    ensures
        first_slash(s) == p,
    decreases p,
{
    if p > 0 {
        lemma_first_slash_at(s.drop_first(), p - 1);
    }
}

/// A decimal token as a 64-bit number, exactly `parse_u64`'s domain.
pub open spec fn spec_num(s: Seq<u8>) -> Option<u64> {
    if s.len() >= 1 && all_digits(s) && dec_val(s) <= u64::MAX {
        Some((dec_val(s)) as u64)
    } else {
        None
    }
}

/// The first `n` tokens joined with single spaces.
pub open spec fn spec_join_sp(toks: Seq<Seq<u8>>, n: int) -> Seq<u8>
    decreases n,
{
    if n <= 0 {
        Seq::empty()
    } else if n == 1 {
        toks[0]
    } else {
        spec_join_sp(toks, n - 1) + seq![32u8] + toks[n - 1]
    }
}

/// The parsed header of one record: the synthetic bottom frame under
/// the pid/tid options, the event name, and the period.
pub open spec fn spec_parse_header(t: Seq<u8>, ipid: bool, itid: bool) -> Option<
    (Seq<u8>, Seq<u8>, u64),
> {
    let toks = spec_split_ws(t);
    let ci = first_cpu(toks);
    if ci >= toks.len() || ci < 2 || toks.len() - ci < 3 {
        None
    } else {
        let comm = spec_join_sp(toks, ci - 1);
        let pt = toks[ci - 1];
        let sl = first_slash(pt);
        let tp: Option<(u64, u64)> = if sl < pt.len() {
            if sl == 0 || sl + 1 >= pt.len() {
                None
            } else {
                match (spec_num(pt.take(sl)), spec_num(pt.skip(sl + 1))) {
                    (Some(tv), Some(pv)) => Some((tv, pv)),
                    _ => None,
                }
            }
        } else {
            match spec_num(pt) {
                Some(v) => Some((v, v)),
                None => None,
            }
        };
        match tp {
            None => None,
            Some((tid, pid)) => {
                let period: u64 = if toks.len() - ci >= 4 {
                    match spec_num(toks[toks.len() - 2]) {
                        Some(v) => v,
                        None => 1,
                    }
                } else {
                    1
                };
                let evtok = toks[toks.len() - 1];
                let ev = if evtok.len() > 1 && evtok[evtok.len() - 1] == 58 {
                    evtok.drop_last()
                } else {
                    evtok
                };
                let bottom = if itid {
                    comm + seq![45u8] + dec_repr(pid as nat) + seq![47u8] + dec_repr(tid as nat)
                } else if ipid {
                    comm + seq![45u8] + dec_repr(pid as nat)
                } else {
                    comm
                };
                Some((spec_sanitize(bottom), ev, period))
            },
        }
    }
}

/// One parsed record header: the synthetic bottom frame it contributes,
/// the event name, and the sample period.
pub struct Header {
    pub bottom: Vec<u8>,
    pub event: Vec<u8>,
    pub period: u64,
}

/// Parse a header line (already trimmed and non-empty).
///
/// Recognized shapes are `COMM TID/PID [CPU] TS: PERIOD EVENT:` and the
/// older `COMM PID [CPU] TS: PERIOD EVENT:`; the period falls back to 1
/// when missing or unparsable. The result is exactly
/// `spec_parse_header`; anything unrecognized is `None`, which the
/// caller drops with its frames.
fn parse_header(t: &[u8], opts: &PerfOptions) -> (r: Option<Header>)
    ensures
        match r {
            Some(h) => spec_parse_header(t@, opts.include_pid, opts.include_tid) == Some(
                (h.bottom@, h.event@, h.period),
            ) && stacked_frame(h.bottom@),
            None => spec_parse_header(t@, opts.include_pid, opts.include_tid) is None,
        },
{
    let tokens = split_ws(t);
    let ghost tv = tokens@.map_values(|f: Vec<u8>| f@);
    // locate the bracketed CPU token
    let mut ci: usize = 0;
    let mut found: bool = false;
    let mut i: usize = 0;
    while i < tokens.len()
        invariant
            0 <= i <= tokens@.len(),
            tv == tokens@.map_values(|f: Vec<u8>| f@),
            found ==> ci < i && is_cpu_tok(tv[ci as int]),
            found ==> forall|x: int| 0 <= x < ci ==> !is_cpu_tok(#[trigger] tv[x]),
            !found ==> forall|x: int| 0 <= x < i ==> !is_cpu_tok(#[trigger] tv[x]),
            forall|x: int|
                0 <= x < tokens@.len() ==> (#[trigger] tokens@[x])@.len() > 0 && forall|j: int|
                    0 <= j < tokens@[x]@.len() ==> !is_ws(#[trigger] tokens@[x]@[j]),
        decreases tokens@.len() - i,
    {
        if !found {
            let tok = &tokens[i];
            proof {
                assert(tv[i as int] == tokens@[i as int]@);
            }
            if tok.len() >= 3 && tok[0] == B_LBRACK && tok[tok.len() - 1] == B_RBRACK {
                ci = i;
                found = true;
            }
        }
        i = i + 1;
    }
    proof {
        if found {
            lemma_first_cpu_at(tv, ci as int);
        } else {
            lemma_first_cpu_at(tv, tv.len() as int);
        }
    }
    if !found || ci < 2 || tokens.len() - ci < 3 {
        return None;
    }
    // COMM is everything before the pid token, joined by single spaces
    let mut comm: Vec<u8> = Vec::new();
    let mut k: usize = 0;
    while k < ci - 1
        invariant
            0 <= k <= ci - 1,
            ci - 1 < tokens@.len(),
            tv == tokens@.map_values(|f: Vec<u8>| f@),
            comm@ == spec_join_sp(tv, k as int),
            comm@.len() > 0 ==> !is_ws(comm@[0]),
            k > 0 ==> comm@.len() > 0,
            forall|x: int|
                0 <= x < tokens@.len() ==> (#[trigger] tokens@[x])@.len() > 0 && forall|j: int|
                    0 <= j < tokens@[x]@.len() ==> !is_ws(#[trigger] tokens@[x]@[j]),
        decreases ci - 1 - k,
    {
        if k > 0 {
            comm.push(B_SPACE);
        }
        let tok = &tokens[k];
        proof {
            assert(tv[k as int] == tokens@[k as int]@);
            assert(tok@.len() > 0 && !is_ws(tok@[0]));
        }
        let ghost base = comm@;
        let mut j: usize = 0;
        while j < tok.len()
            invariant
                0 <= j <= tok@.len(),
                tok@.len() > 0,
                !is_ws(tok@[0]),
                comm@ =~~= base + tok@.take(j as int),
                base.len() > 0 ==> !is_ws(base[0]),
                comm@.len() > 0 ==> !is_ws(comm@[0]),
            decreases tok@.len() - j,
        {
            comm.push(tok[j]);
            proof {
                assert(tok@.take(j + 1) =~= tok@.take(j as int).push(tok@[j as int]));
                assert(comm@ =~~= base + tok@.take(j + 1));
            }
            j = j + 1;
        }
        proof {
            assert(tok@.take(tok@.len() as int) =~= tok@);
            if k == 0 {
                assert(comm@ =~~= tv[0]);
            } else {
                assert(comm@ =~~= spec_join_sp(tv, k as int) + seq![32u8] + tv[k as int]);
            }
        }
        k = k + 1;
    }
    // TID/PID (or bare PID) directly before the CPU token
    let pidtok = &tokens[ci - 1];
    let ghost ptv = pidtok@;
    proof {
        assert(tv[ci - 1] == tokens@[ci - 1]@);
    }
    let mut slash: usize = 0;
    let mut has_slash: bool = false;
    let mut x: usize = 0;
    while x < pidtok.len()
        invariant
            0 <= x <= pidtok@.len(),
            ptv == pidtok@,
            has_slash ==> slash < x && ptv[slash as int] == B_SLASH,
            has_slash ==> forall|i: int| 0 <= i < slash ==> ptv[i] != B_SLASH,
            !has_slash ==> forall|i: int| 0 <= i < x ==> ptv[i] != B_SLASH,
        decreases pidtok@.len() - x,
    {
        if !has_slash && pidtok[x] == B_SLASH {
            slash = x;
            has_slash = true;
        }
        x = x + 1;
    }
    proof {
        if has_slash {
            lemma_first_slash_at(ptv, slash as int);
        } else {
            lemma_first_slash_at(ptv, ptv.len() as int);
        }
    }
    let (tid, pid): (u64, u64) = if has_slash {
        if slash == 0 || slash + 1 >= pidtok.len() {
            return None;
        }
        let tpart = crate::util::copy_range(pidtok.as_slice(), 0, slash);
        let ppart = crate::util::copy_range(pidtok.as_slice(), slash + 1, pidtok.len());
        proof {
            assert(tpart@ =~= ptv.take(slash as int));
            assert(ppart@ =~= ptv.skip(slash as int + 1));
        }
        match (parse_u64(tpart.as_slice()), parse_u64(ppart.as_slice())) {
            (Option::Some(tv2), Option::Some(pv)) => (tv2, pv),
            _ => {
                return None;
            },
        }
    } else {
        match parse_u64(pidtok.as_slice()) {
            Option::Some(v) => (v, v),
            Option::None => {
                return None;
            },
        }
    };
    // period: the token between the timestamp and the trailing event,
    // when present
    let period: u64 = if tokens.len() - ci >= 4 {
        proof {
            assert(tv[tv.len() - 2] == tokens@[tokens@.len() - 2]@);
        }
        match parse_u64(tokens[tokens.len() - 2].as_slice()) {
            Option::Some(v) => v,
            Option::None => 1,
        }
    } else {
        1
    };
    // event: the last token, with a trailing `:` removed
    let evtok = &tokens[tokens.len() - 1];
    proof {
        assert(tv[tv.len() - 1] == tokens@[tokens@.len() - 1]@);
    }
    let evend = if evtok[evtok.len() - 1] == crate::collapse::B_COLON && evtok.len() > 1 {
        evtok.len() - 1
    } else {
        evtok.len()
    };
    let event = crate::util::copy_range(evtok.as_slice(), 0, evend);
    proof {
        if evtok@.len() > 1 && evtok@[evtok@.len() - 1] == 58 {
            assert(event@ =~= evtok@.drop_last());
        } else {
            assert(event@ =~= evtok@);
        }
    }
    // assemble the synthetic bottom frame
    let mut bottom = comm;
    if opts.include_tid {
        bottom.push(B_DASH);
        crate::util::push_u64(&mut bottom, pid);
        bottom.push(B_SLASH);
        crate::util::push_u64(&mut bottom, tid);
        proof {
            assert(bottom@ =~~= spec_join_sp(tv, ci - 1) + seq![45u8] + dec_repr(pid as nat)
                + seq![47u8] + dec_repr(tid as nat));
        }
    } else if opts.include_pid {
        bottom.push(B_DASH);
        crate::util::push_u64(&mut bottom, pid);
        proof {
            assert(bottom@ =~~= spec_join_sp(tv, ci - 1) + seq![45u8] + dec_repr(pid as nat));
        }
    }
    let frame = sanitize_frame(bottom.as_slice());
    proof {
        crate::collapse::lemma_sanitize_wf(bottom@);
        assert(frame@[0] == norm_byte(bottom@[0]));
    }
    Some(Header { bottom: frame, event, period })
}

/// The finished frame name for one trimmed, non-blank frame line:
/// `ADDR SYMBOL[+0xOFF] [(MODULE)]`, with the offset stripped, the
/// address kept as `@ADDR` when requested, kernel (bracketed module
/// other than `[unknown]`) and JIT (module `[unknown]`) annotation
/// suffixes added when requested, and reserved bytes normalized.
pub open spec fn spec_parse_frame(t: Seq<u8>, iaddr: bool, akern: bool, ajit: bool) -> Option<
    Seq<u8>,
> {
    let k = first_ws_idx(t);
    if k == 0 || k >= t.len() {
        None
    } else {
        let addr = t.take(k);
        let rest = spec_trim(t.skip(k));
        if rest.len() == 0 {
            None
        } else {
            let lp = crate::palette_map::last_lparen(rest);
            let has_mod = rest[rest.len() - 1] == 41 && lp >= 1;
            let symend = if has_mod {
                lp
            } else {
                rest.len() as int
            };
            let module = if has_mod {
                rest.subrange(lp + 1, rest.len() - 1)
            } else {
                Seq::empty()
            };
            let symraw = spec_trim(rest.take(symend));
            if symraw.len() == 0 {
                None
            } else {
                let sym0 = spec_strip_offset(symraw);
                let sym1 = if iaddr {
                    sym0 + seq![64u8] + addr
                } else {
                    sym0
                };
                let unknown = has_mod && module == seq![91u8, 117, 110, 107, 110, 111, 119, 110,
                    93];
                let kernel = has_mod && !unknown && module.len() >= 2 && module[0] == 91
                    && module[module.len() - 1] == 93;
                let sym2 = if akern && kernel && !spec_has_suffix(sym1, 107) {
                    sym1 + seq![95u8, 91, 107, 93]
                } else {
                    sym1
                };
                let sym3 = if ajit && unknown && !spec_has_suffix(sym2, 106) {
                    sym2 + seq![95u8, 91, 106, 93]
                } else {
                    sym2
                };
                Some(spec_sanitize(sym3))
            }
        }
    }
}

/// Parse an indented frame line (already trimmed and non-empty). The
/// result is exactly `spec_parse_frame`; unrecognized lines are `None`
/// and tolerated by the caller.
#[verifier::rlimit(100)]
fn parse_frame_line(t: &[u8], opts: &PerfOptions) -> (r: Option<Vec<u8>>)
    ensures
        match r {
            Some(f) => spec_parse_frame(
                t@,
                opts.include_addrs,
                opts.annotate_kernel,
                opts.annotate_jit,
            ) == Some(f@) && stacked_frame(f@),
            None => spec_parse_frame(
                t@,
                opts.include_addrs,
                opts.annotate_kernel,
                opts.annotate_jit,
            ) is None,
        },
{
    // split at the first whitespace run: address, then the rest
    let mut i: usize = 0;
    while i < t.len() && !ws_byte(t[i])
        invariant
            0 <= i <= t@.len(),
            forall|x: int| 0 <= x < i ==> !is_ws(t@[x]),
        decreases t@.len() - i,
    {
        i = i + 1;
    }
    proof {
        lemma_first_ws_idx_at(t@, i as int);
    }
    if i == 0 || i >= t.len() {
        return None;
    }
    let addr = crate::util::copy_range(t, 0, i);
    let rest0 = crate::util::copy_range(t, i, t.len());
    let rest = trim_bytes(rest0.as_slice());
    proof {
        assert(addr@ =~= t@.take(i as int));
        assert(rest0@ =~= t@.skip(i as int));
    }
    if rest.len() == 0 {
        return None;
    }
    let ghost rv = rest@;
    proof {
        crate::palette_map::lemma_last_lparen(rv);
    }
    // detach a trailing parenthesized module
    let mut symend: usize = rest.len();
    let mut module: Vec<u8> = Vec::new();
    let mut has_module: bool = false;
    if rest[rest.len() - 1] == B_RPAREN {
        let mut q: usize = rest.len();
        let mut found: bool = false;
        while q > 0 && !found
            invariant
                0 <= q <= rest@.len(),
                rv == rest@,
                found ==> q >= 1 && rest@[q - 1] == B_LPAREN,
                forall|i2: int| q <= i2 < rest@.len() ==> rest@[i2] != B_LPAREN,
            decreases (if found {
                0int
            } else {
                q + 1
            }),
        {
            if rest[q - 1] == B_LPAREN {
                found = true;
            } else {
                q = q - 1;
            }
        }
        proof {
            if found {
                crate::palette_map::lemma_last_lparen_at(rv, q - 1);
            } else {
                crate::palette_map::lemma_last_lparen_none(rv);
            }
        }
        if found && q >= 2 {
            proof {
                assert(rest@[q - 1] == B_LPAREN);
                assert(rest@[rest@.len() - 1] == B_RPAREN);
                assert(q - 1 < rest@.len() - 1);
            }
            module = crate::util::copy_range(rest.as_slice(), q, rest.len() - 1);
            has_module = true;
            symend = q - 1;
            proof {
                assert(module@ =~= rv.subrange(crate::palette_map::last_lparen(rv) + 1,
                    rv.len() - 1));
            }
        }
    }
    proof {
        assert(has_module == (rv[rv.len() - 1] == 41 && crate::palette_map::last_lparen(rv)
            >= 1));
        if has_module {
            assert(symend as int == crate::palette_map::last_lparen(rv));
        }
    }
    let symraw0 = crate::util::copy_range(rest.as_slice(), 0, symend);
    let symraw = trim_bytes(symraw0.as_slice());
    proof {
        assert(symraw0@ =~= rv.take(symend as int));
    }
    if symraw.len() == 0 {
        return None;
    }
    let mut sym = strip_offset(symraw.as_slice());
    let ghost sym0 = sym@;
    proof {
        crate::util::lemma_trim_trimmed(symraw0@);
        if crate::collapse::has_offset_suffix(symraw@) {
            crate::collapse::lemma_last_plus(symraw@);
            assert(sym@[0] == symraw@[0]);
        }
    }
    if opts.include_addrs {
        sym.push(B_AT);
        let mut a: usize = 0;
        while a < addr.len()
            invariant
                0 <= a <= addr@.len(),
                sym@ =~~= sym0 + seq![64u8] + addr@.take(a as int),
                sym@.len() > 0,
                !is_ws(sym@[0]),
            decreases addr@.len() - a,
        {
            sym.push(addr[a]);
            proof {
                assert(addr@.take(a + 1) =~= addr@.take(a as int).push(addr@[a as int]));
            }
            a = a + 1;
        }
        proof {
            assert(addr@.take(addr@.len() as int) =~= addr@);
            assert(sym@ =~~= sym0 + seq![64u8] + addr@);
        }
    }
    let ghost sym1 = sym@;
    // annotations from the module
    let ghost useq = seq![91u8, 117, 110, 107, 110, 111, 119, 110, 93];
    let is_unknown_mod = has_module && module.len() == 9 && module[0] == B_LBRACK && module[1]
        == 117 && module[2] == 110 && module[3] == 107 && module[4] == 110 && module[5] == 111
        && module[6] == 119 && module[7] == 110 && module[8] == B_RBRACK;
    proof {
        if is_unknown_mod {
            assert(module@ =~= useq);
        } else if has_module && module@ == useq {
            assert(module@.len() == 9);
            assert(module@[0] == 91 && module@[1] == 117 && module@[2] == 110 && module@[3]
                == 107 && module@[4] == 110 && module@[5] == 111 && module@[6] == 119
                && module@[7] == 110 && module@[8] == 93);
            assert(false);
        }
    }
    let is_kernel_mod = has_module && !is_unknown_mod && module.len() >= 2 && module[0]
        == B_LBRACK && module[module.len() - 1] == B_RBRACK;
    if opts.annotate_kernel && is_kernel_mod && !has_annotation(&sym, B_LOW_K) {
        sym.push(B_UNDER);
        sym.push(B_LBRACK);
        sym.push(B_LOW_K);
        sym.push(B_RBRACK);
        proof {
            assert(sym@ =~~= sym1 + seq![95u8, 91, 107, 93]);
        }
    }
    let ghost sym2 = sym@;
    if opts.annotate_jit && is_unknown_mod && !has_annotation(&sym, B_LOW_J) {
        sym.push(B_UNDER);
        sym.push(B_LBRACK);
        sym.push(B_LOW_J);
        sym.push(B_RBRACK);
        proof {
            assert(sym@ =~~= sym2 + seq![95u8, 91, 106, 93]);
        }
    }
    let frame = sanitize_frame(sym.as_slice());
    proof {
        crate::collapse::lemma_sanitize_wf(sym@);
        assert(frame@[0] == norm_byte(sym@[0]));
    }
    Some(frame)
}

/// Converting the filter option to its mathematical value.
pub open spec fn filt_view(o: Option<Vec<u8>>) -> Option<Seq<u8>> {
    match o {
        Option::Some(v) => Some(v@),
        Option::None => None,
    }
}

/// Flush the running record into the aggregation: nothing without a
/// kept record and at least one frame; `None` on counter overflow.
pub open spec fn spec_perf_flush(
    cur: Option<(Seq<u8>, u64)>,
    frames: Seq<Seq<u8>>,
    acc: Seq<(Seq<u8>, u64)>,
) -> Option<Seq<(Seq<u8>, u64)>> {
    match cur {
        Option::Some(bp) => {
            if frames.len() > 0 {
                let key = spec_join_semi(seq![bp.0] + frames.reverse());
                if can_add(acc, key, bp.1) {
                    Some(spec_add(acc, key, bp.1))
                } else {
                    None
                }
            } else {
                Some(acc)
            }
        },
        Option::None => Some(acc),
    }
}

/// One line's effect on the collapser state: blank lines flush, indented
/// lines add a frame to a kept record, anything else starts a record
/// after flushing, subject to the event filter or the locked-on event.
pub open spec fn spec_perf_step(
    cur: Option<(Seq<u8>, u64)>,
    frames: Seq<Seq<u8>>,
    locked: Option<Seq<u8>>,
    acc: Seq<(Seq<u8>, u64)>,
    raw: Seq<u8>,
    ipid: bool,
    itid: bool,
    iaddr: bool,
    akern: bool,
    ajit: bool,
    efilt: Option<Seq<u8>>,
) -> Option<(Option<(Seq<u8>, u64)>, Seq<Seq<u8>>, Option<Seq<u8>>, Seq<(Seq<u8>, u64)>)> {
    let t = spec_trim(raw);
    if t.len() == 0 {
        match spec_perf_flush(cur, frames, acc) {
            Option::None => None,
            Option::Some(a2) => Some((None, Seq::empty(), locked, a2)),
        }
    } else if raw.len() > 0 && is_ws(raw[0]) {
        match cur {
            Option::Some(_) => {
                match spec_parse_frame(t, iaddr, akern, ajit) {
                    Option::Some(f) => Some((cur, frames.push(f), locked, acc)),
                    Option::None => Some((cur, frames, locked, acc)),
                }
            },
            Option::None => Some((cur, frames, locked, acc)),
        }
    } else {
        match spec_perf_flush(cur, frames, acc) {
            Option::None => None,
            Option::Some(a2) => {
                match spec_parse_header(t, ipid, itid) {
                    Option::None => Some((None, Seq::empty(), locked, a2)),
                    Option::Some(h) => {
                        match efilt {
                            Option::Some(f) => {
                                if h.1 == f {
                                    Some((Some((h.0, h.2)), Seq::empty(), locked, a2))
                                } else {
                                    Some((None, Seq::empty(), locked, a2))
                                }
                            },
                            Option::None => {
                                match locked {
                                    Option::Some(l) => {
                                        if h.1 == l {
                                            Some((Some((h.0, h.2)), Seq::empty(), locked, a2))
                                        } else {
                                            Some((None, Seq::empty(), locked, a2))
                                        }
                                    },
                                    Option::None => Some(
                                        (Some((h.0, h.2)), Seq::empty(), Some(h.1), a2),
                                    ),
                                }
                            },
                        }
                    },
                }
            },
        }
    }
}

/// The aggregation after running all lines and the final flush.
pub open spec fn spec_perf_run(
    cur: Option<(Seq<u8>, u64)>,
    frames: Seq<Seq<u8>>,
    locked: Option<Seq<u8>>,
    acc: Seq<(Seq<u8>, u64)>,
    lines: Seq<Seq<u8>>,
    ipid: bool,
    itid: bool,
    iaddr: bool,
    akern: bool,
    ajit: bool,
    efilt: Option<Seq<u8>>,
) -> Option<Seq<(Seq<u8>, u64)>>
    decreases lines.len(),
{
    if lines.len() == 0 {
        spec_perf_flush(cur, frames, acc)
    } else {
        match spec_perf_step(cur, frames, locked, acc, lines[0], ipid, itid, iaddr, akern, ajit,
            efilt) {
            Option::None => None,
            Option::Some(st) => spec_perf_run(st.0, st.1, st.2, st.3, lines.drop_first(), ipid,
                itid, iaddr, akern, ajit, efilt),
        }
    }
}

/// The weight a flush contributes: the period of a kept record with at
/// least one frame.
pub open spec fn flush_weight(cur: Option<(Seq<u8>, u64)>, frames: Seq<Seq<u8>>) -> int {
    match cur {
        Option::Some(bp) => {
            if frames.len() > 0 {
                bp.1 as int
            } else {
                0
            }
        },
        Option::None => 0,
    }
}

/// The total sample weight the run will aggregate: the sum of the
/// periods of all flushed kept records. The state transitions do not
/// depend on the aggregation, so neither does the weight.
pub open spec fn spec_perf_weight(
    cur: Option<(Seq<u8>, u64)>,
    frames: Seq<Seq<u8>>,
    locked: Option<Seq<u8>>,
    lines: Seq<Seq<u8>>,
    ipid: bool,
    itid: bool,
    iaddr: bool,
    akern: bool,
    ajit: bool,
    efilt: Option<Seq<u8>>,
) -> int
    decreases lines.len(),
{
    if lines.len() == 0 {
        flush_weight(cur, frames)
    } else {
        match spec_perf_step(cur, frames, locked, Seq::empty(), lines[0], ipid, itid, iaddr,
            akern, ajit, efilt) {
            Option::None => flush_weight(cur, frames),
            Option::Some(st) => {
                (if spec_trim(lines[0]).len() == 0 || !(lines[0].len() > 0 && is_ws(
                    lines[0][0],
                )) {
                    flush_weight(cur, frames)
                } else {
                    0
                }) + spec_perf_weight(st.0, st.1, st.2, lines.drop_first(), ipid, itid, iaddr,
                    akern, ajit, efilt)
            },
        }
    }
}

/// Weight preservation: whenever the run succeeds, the mathematical sum
/// of the aggregated counts grows by exactly the flushed periods —
/// collapsing loses and invents no sample weight.
pub proof fn lemma_perf_run_weight(
    cur: Option<(Seq<u8>, u64)>,
    frames: Seq<Seq<u8>>,
    locked: Option<Seq<u8>>,
    acc: Seq<(Seq<u8>, u64)>,
    lines: Seq<Seq<u8>>,
    ipid: bool,
    itid: bool,
    iaddr: bool,
    akern: bool,
    ajit: bool,
    efilt: Option<Seq<u8>>,
)
    requires
        spec_perf_run(cur, frames, locked, acc, lines, ipid, itid, iaddr, akern, ajit, efilt)
            is Some,
    ensures
        crate::accum::total_of(
            spec_perf_run(cur, frames, locked, acc, lines, ipid, itid, iaddr, akern, ajit,
                efilt)->Some_0,
        ) == crate::accum::total_of(acc) + spec_perf_weight(cur, frames, locked, lines, ipid,
            itid, iaddr, akern, ajit, efilt),
    decreases lines.len(),
{
    if lines.len() == 0 {
        match cur {
            Option::Some(bp) => {
                if frames.len() > 0 {
                    let key = spec_join_semi(seq![bp.0] + frames.reverse());
                    crate::accum::lemma_add_total(acc, key, bp.1);
                }
            },
            Option::None => {},
        }
    } else {
        let st = spec_perf_step(cur, frames, locked, acc, lines[0], ipid, itid, iaddr, akern,
            ajit, efilt)->Some_0;
        let t = spec_trim(lines[0]);
        if t.len() == 0 || !(lines[0].len() > 0 && is_ws(lines[0][0])) {
            // a flush happened: its weight moved into the aggregation
            match cur {
                Option::Some(bp) => {
                    if frames.len() > 0 {
                        let key = spec_join_semi(seq![bp.0] + frames.reverse());
                        crate::accum::lemma_add_total(acc, key, bp.1);
                    }
                },
                Option::None => {},
            }
        }
        let st0 = spec_perf_step(cur, frames, locked, Seq::empty(), lines[0], ipid, itid,
            iaddr, akern, ajit, efilt);
        assert(st0 is Some && (st0->Some_0.0, st0->Some_0.1, st0->Some_0.2) == (st.0, st.1,
            st.2));
        lemma_perf_run_weight(st.0, st.1, st.2, st.3, lines.drop_first(), ipid, itid, iaddr,
            akern, ajit, efilt);
    }
}

/// Collapse a `perf script` dump.
///
/// The result is pinned to the specification: on success the entries
/// are exactly the aggregation that `spec_perf_run` computes over the
/// input's lines under the options (well-formed, uniquely keyed,
/// positive counts, rooted in the record's `COMM` frame or its
/// `COMM-PID`/`COMM-PID/TID` variant); the error comes exactly when
/// that run overflows a stack's 64-bit counter.
pub fn collapse_perf(input: &[u8], opts: &PerfOptions) -> (r: Result<Vec<Entry>, FoldError>)
    ensures
        match r {
            Ok(es) => {
                &&& spec_perf_run(
                    None,
                    Seq::empty(),
                    None,
                    Seq::empty(),
                    spec_lines(input@),
                    opts.include_pid,
                    opts.include_tid,
                    opts.include_addrs,
                    opts.annotate_kernel,
                    opts.annotate_jit,
                    filt_view(opts.event_filter),
                ) == Some(entries_view(es@))
                &&& keys_unique(entries_view(es@))
                &&& forall|i: int|
                    0 <= i < es@.len() ==> wf_entry(
                        (#[trigger] entries_view(es@)[i]).0,
                        entries_view(es@)[i].1,
                    )
            },
            Err(e) => e == FoldError::CountOverflow && spec_perf_run(
                None,
                Seq::empty(),
                None,
                Seq::empty(),
                spec_lines(input@),
                opts.include_pid,
                opts.include_tid,
                opts.include_addrs,
                opts.annotate_kernel,
                opts.annotate_jit,
                filt_view(opts.event_filter),
            ) is None,
        },
{
    let lines = split_lines(input);
    let ghost lviews = lines@.map_values(|l: Vec<u8>| l@);
    let ghost ipid = opts.include_pid;
    let ghost itid = opts.include_tid;
    let ghost iaddr = opts.include_addrs;
    let ghost akern = opts.annotate_kernel;
    let ghost ajit = opts.annotate_jit;
    let ghost efilt = filt_view(opts.event_filter);
    let mut acc = FoldAcc::new();
    let mut in_record: bool = false;
    let mut keep: bool = false;
    let mut bottom: Vec<u8> = Vec::new();
    let mut period: u64 = 0;
    let mut frames: Vec<Vec<u8>> = Vec::new();
    let mut locked_event: Option<Vec<u8>> = Option::None;
    let mut li: usize = 0;
    proof {
        assert(lviews.skip(0) =~= lviews);
        assert(frames@.map_values(|f: Vec<u8>| f@) =~= Seq::<Seq<u8>>::empty());
    }
    while li < lines.len()
        invariant
            0 <= li <= lines@.len(),
            acc.wf(),
            lviews == lines@.map_values(|l: Vec<u8>| l@),
            lviews == spec_lines(input@),
            ipid == opts.include_pid,
            itid == opts.include_tid,
            iaddr == opts.include_addrs,
            akern == opts.annotate_kernel,
            ajit == opts.annotate_jit,
            efilt == filt_view(opts.event_filter),
            in_record && keep ==> stacked_frame(bottom@),
            forall|i: int| 0 <= i < frames@.len() ==> stacked_frame((#[trigger] frames@[i])@),
            spec_perf_run(
                None,
                Seq::empty(),
                None,
                Seq::empty(),
                lviews,
                ipid,
                itid,
                iaddr,
                akern,
                ajit,
                efilt,
            ) == spec_perf_run(
                (if in_record && keep {
                    Some((bottom@, period))
                } else {
                    None
                }),
                frames@.map_values(|f: Vec<u8>| f@),
                (match locked_event {
                    Option::Some(v) => Some(v@),
                    Option::None => None,
                }),
                acc@,
                lviews.skip(li as int),
                ipid,
                itid,
                iaddr,
                akern,
                ajit,
                efilt,
            ),
        decreases lines@.len() - li,
    {
        proof {
            assert(lviews.skip(li as int)[0] == lviews[li as int]);
            assert(lviews.skip(li as int).drop_first() =~= lviews.skip(li + 1));
            assert(lviews[li as int] == lines@[li as int]@);
        }
        let ghost gcur: Option<(Seq<u8>, u64)> = if in_record && keep {
            Some((bottom@, period))
        } else {
            None
        };
        let ghost gfr = frames@.map_values(|f: Vec<u8>| f@);
        let ghost glock: Option<Seq<u8>> = match &locked_event {
            Option::Some(v) => Some(v@),
            Option::None => None,
        };
        let raw = &lines[li];
        let t = trim_bytes(raw.as_slice());
        if t.len() == 0 {
            // end of record: flush
            if in_record && keep && frames.len() > 0 {
                let ok = flush_record(&mut acc, &bottom, &frames, period);
                if !ok {
                    return Err(FoldError::CountOverflow);
                }
            }
            in_record = false;
            keep = false;
            frames = Vec::new();
            proof {
                assert(frames@.map_values(|f: Vec<u8>| f@) =~= Seq::<Seq<u8>>::empty());
                assert(spec_perf_flush(gcur, gfr, acc@) == Some(acc@) || (gcur is Some
                    && gfr.len() > 0));
            }
        } else if raw.len() > 0 && ws_byte(raw[0]) {
            // indented: a frame line of the current record
            if in_record && keep {
                match parse_frame_line(t.as_slice(), opts) {
                    Option::Some(f) => {
                        frames.push(f);
                        proof {
                            assert(frames@.map_values(|f2: Vec<u8>| f2@) =~~= gfr.push(f@));
                        }
                    },
                    Option::None => {},  // tolerated: skip the line
                }
            }
        } else {
            // unindented: a new header; flush any running record first
            if in_record && keep && frames.len() > 0 {
                let ok = flush_record(&mut acc, &bottom, &frames, period);
                if !ok {
                    return Err(FoldError::CountOverflow);
                }
            }
            in_record = false;
            keep = false;
            frames = Vec::new();
            proof {
                assert(frames@.map_values(|f: Vec<u8>| f@) =~= Seq::<Seq<u8>>::empty());
            }
            match parse_header(t.as_slice(), opts) {
                Option::Some(h) => {
                    let mut lock_now: bool = false;
                    let accept: bool = match &opts.event_filter {
                        Option::Some(f) => vec_u8_eq(f, &h.event),
                        Option::None => {
                            match &locked_event {
                                Option::Some(first) => vec_u8_eq(first, &h.event),
                                Option::None => {
                                    lock_now = true;
                                    true
                                },
                            }
                        },
                    };
                    if lock_now {
                        locked_event = Option::Some(
                            crate::util::copy_range(h.event.as_slice(), 0, h.event.len()),
                        );
                        proof {
                            assert(match locked_event {
                                Option::Some(v) => v@,
                                Option::None => Seq::empty(),
                            } =~= h.event@);
                        }
                    }
                    in_record = true;
                    keep = accept;
                    bottom = h.bottom;
                    period = h.period;
                },
                Option::None => {},  // malformed header: discarded
            }
        }
        li = li + 1;
    }
    let ghost gcur: Option<(Seq<u8>, u64)> = if in_record && keep {
        Some((bottom@, period))
    } else {
        None
    };
    let ghost gfr = frames@.map_values(|f: Vec<u8>| f@);
    if in_record && keep && frames.len() > 0 {
        let ok = flush_record(&mut acc, &bottom, &frames, period);
        if !ok {
            proof {
                assert(lviews.skip(lviews.len() as int).len() == 0);
            }
            return Err(FoldError::CountOverflow);
        }
    }
    proof {
        assert(lviews.skip(lviews.len() as int).len() == 0);
        assert(spec_perf_flush(gcur, gfr, acc@) == Some(acc@) || (gcur is Some && gfr.len()
            > 0));
    }
    let es = acc.into_entries();
    Ok(es)
}

/// Reverse the leaf-first frames, root them under the synthetic bottom
/// frame, and aggregate the folded key with the record's period. The
/// effect is exactly the flush of the specification.
fn flush_record(acc: &mut FoldAcc, bottom: &Vec<u8>, frames: &Vec<Vec<u8>>, period: u64) -> (ok:
    bool)
    requires
        old(acc).wf(),
        stacked_frame(bottom@),
        forall|i: int| 0 <= i < frames@.len() ==> stacked_frame((#[trigger] frames@[i])@),
    ensures
        final(acc).wf(),
        ok == can_add(
            old(acc)@,
            spec_join_semi(seq![bottom@] + frames@.map_values(|f: Vec<u8>| f@).reverse()),
            period,
        ),
        ok ==> final(acc)@ == spec_add(
            old(acc)@,
            spec_join_semi(seq![bottom@] + frames@.map_values(|f: Vec<u8>| f@).reverse()),
            period,
        ),
        !ok ==> final(acc)@ == old(acc)@,
{
    let rev = reverse_frames(frames);
    let mut stack: Vec<Vec<u8>> = Vec::new();
    stack.push(crate::util::copy_range(bottom.as_slice(), 0, bottom.len()));
    let mut i: usize = 0;
    proof {
        assert(stack@[0]@ =~= bottom@);
        assert forall|x: int| 0 <= x < rev@.len() implies stacked_frame(
            (#[trigger] rev@[x])@,
        ) by {
            assert(rev@[x]@ == frames@[frames@.len() - 1 - x]@);
        }
    }
    while i < rev.len()
        invariant
            0 <= i <= rev@.len(),
            stack@.len() == i + 1,
            stack@[0]@ == bottom@,
            stacked_frame(bottom@),
            forall|x: int| 0 <= x < rev@.len() ==> stacked_frame((#[trigger] rev@[x])@),
            forall|x: int| 0 <= x < stack@.len() ==> stacked_frame((#[trigger] stack@[x])@),
            forall|x: int| 1 <= x < stack@.len() ==> (#[trigger] stack@[x])@ == rev@[x - 1]@,
        decreases rev@.len() - i,
    {
        stack.push(crate::util::copy_range(rev[i].as_slice(), 0, rev[i].len()));
        proof {
            assert(stack@[stack@.len() - 1]@ =~= rev@[i as int]@);
        }
        i = i + 1;
    }
    let key = join_frames(&stack);
    proof {
        let sv = stack@.map_values(|f: Vec<u8>| f@);
        let fv = frames@.map_values(|f: Vec<u8>| f@);
        assert forall|x: int| 0 <= x < sv.len() implies stacked_frame(#[trigger] sv[x]) by {
            assert(sv[x] == stack@[x]@);
        }
        assert(sv[0] == bottom@);
        lemma_join_wf(sv);
        assert(sv =~~= seq![bottom@] + fv.reverse()) by {
            assert(fv.reverse().len() == rev@.len());
            assert forall|x: int| 0 <= x < sv.len() implies sv[x] == (seq![bottom@]
                + fv.reverse())[x] by {
                if x >= 1 {
                    assert(sv[x] == stack@[x]@);
                    assert(stack@[x]@ == rev@[x - 1]@);
                    assert(rev@[x - 1]@ == frames@[frames@.len() - 1 - (x - 1)]@);
                    assert(fv.reverse()[x - 1] == fv[fv.len() - 1 - (x - 1)]);
                    assert(fv[fv.len() - 1 - (x - 1)] == frames@[frames@.len() - 1 - (x - 1)]@);
                }
            }
        }
        assert(key@ == spec_join_semi(seq![bottom@] + fv.reverse()));
    }
    acc.add(key, period)
}

} // verus!
