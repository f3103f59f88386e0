//! Pieces shared by the collapsers: frame-name normalization, offset
//! stripping, and joining a stack's frames into a folded key.
//!
//! Frame names come out of untrusted profiler dumps; normalization maps
//! the two bytes the folded grammar reserves (`;` and newline) to `:` so
//! that every emitted entry satisfies the grammar by construction.

use vstd::prelude::*;
use crate::folded::{spec_join_semi, wf_frame, wf_frames, wf_key};
use crate::util::{is_ws, no_nl, B_NL, B_SEMI};

verus! {

/// ASCII `:`, the replacement for reserved bytes, and `+`, `0`, `x` for
/// offset suffixes.
pub const B_COLON: u8 = 58;
pub const B_PLUS: u8 = 43;
pub const B_0: u8 = 48;
pub const B_X: u8 = 120;

/// Normalized frame byte: `;` and newline become `:`.
pub open spec fn norm_byte(b: u8) -> u8 {
    if b == B_SEMI || b == B_NL {
        B_COLON
    } else {
        b
    }
}

/// The normalized frame name.
pub open spec fn spec_sanitize(f: Seq<u8>) -> Seq<u8> {
    f.map_values(|b: u8| norm_byte(b))
}

/// Normalization yields a frame the folded grammar accepts.
pub proof fn lemma_sanitize_wf(f: Seq<u8>)
    ensures
        wf_frame(spec_sanitize(f)),
        spec_sanitize(f).len() == f.len(),
{
}

/// Normalization leaves an already well-formed frame unchanged.
pub proof fn lemma_sanitize_id(f: Seq<u8>)
    requires
        wf_frame(f),
    ensures
        spec_sanitize(f) == f,
{
    assert(spec_sanitize(f) =~= f);
}

/// Replace the bytes reserved by the folded grammar.
pub fn sanitize_frame(f: &[u8]) -> (r: Vec<u8>)
    ensures
        r@ == spec_sanitize(f@),
{
    let mut out: Vec<u8> = Vec::new();
    let mut i: usize = 0;
    while i < f.len()
        invariant
            0 <= i <= f@.len(),
            out@ =~= f@.take(i as int).map_values(|b: u8| norm_byte(b)),
        decreases f@.len() - i,
    {
        let b = f[i];
        if b == B_SEMI || b == B_NL {
            out.push(B_COLON);
        } else {
            out.push(b);
        }
        proof {
            assert(out@ =~= f@.take(i + 1).map_values(|b: u8| norm_byte(b)));
        }
        i = i + 1;
    }
    proof {
        assert(f@.take(f@.len() as int) =~= f@);
    }
    out
}

/// Index of the last `+` in `s`, or `-1`.
pub open spec fn last_plus(s: Seq<u8>) -> int
    decreases s.len(),
{
    if s.len() == 0 {
        -1
    } else if s.last() == B_PLUS {
        s.len() - 1
    } else {
        last_plus(s.drop_last())
    }
}

pub proof fn lemma_last_plus(s: Seq<u8>)
    ensures
        -1 <= last_plus(s) < s.len(),
        last_plus(s) >= 0 ==> s[last_plus(s)] == B_PLUS,
        forall|i: int| last_plus(s) < i < s.len() ==> s[i] != B_PLUS,
    decreases s.len(),
{
    if s.len() > 0 && s.last() != B_PLUS {
        lemma_last_plus(s.drop_last());
        assert forall|i: int| last_plus(s) < i < s.len() implies s[i] != B_PLUS by {
            if i < s.len() - 1 {
                assert(s.drop_last()[i] == s[i]);
            }
        }
    }
}

pub proof fn lemma_last_plus_at(s: Seq<u8>, j: int)
    requires
        0 <= j < s.len(),
        s[j] == B_PLUS,
        forall|i: int| j < i < s.len() ==> s[i] != B_PLUS,
    ensures
        last_plus(s) == j,
    decreases s.len(),
{
    if j < s.len() - 1 {
        lemma_last_plus_at(s.drop_last(), j);
    }
}

pub proof fn lemma_last_plus_none(s: Seq<u8>)
    requires
        forall|i: int| 0 <= i < s.len() ==> s[i] != B_PLUS,
    ensures
        last_plus(s) == -1,
    decreases s.len(),
{
    if s.len() > 0 {
        lemma_last_plus_none(s.drop_last());
    }
}

/// A frame carries a trailing `+0x…` offset when its last `+` is
/// followed by `0x` and is not the first byte.
pub open spec fn has_offset_suffix(f: Seq<u8>) -> bool {
    let p = last_plus(f);
    p >= 1 && p + 2 < f.len() && f[p + 1] == B_0 && f[p + 2] == B_X
}

/// The frame with its trailing `+0x…` offset removed, if it has one.
pub open spec fn spec_strip_offset(f: Seq<u8>) -> Seq<u8> {
    if has_offset_suffix(f) {
        f.take(last_plus(f))
    } else {
        f
    }
}

/// Remove a trailing `+0x…` offset from a frame name.
pub fn strip_offset(f: &[u8]) -> (r: Vec<u8>)
    ensures
        r@ == spec_strip_offset(f@),
{
    let mut j: usize = f.len();
    while j > 0 && f[j - 1] != B_PLUS
        invariant
            0 <= j <= f@.len(),
            forall|i: int| j <= i < f@.len() ==> f@[i] != B_PLUS,
        decreases j,
    {
        j = j - 1;
    }
    if j == 0 {
        proof {
            lemma_last_plus_none(f@);
        }
        return crate::util::copy_range(f, 0, f.len());
    }
    proof {
        lemma_last_plus_at(f@, j - 1);
    }
    let p = j - 1;
    if p >= 1 && f.len() - p > 2 && f[p + 1] == B_0 && f[p + 2] == B_X {
        crate::util::copy_range(f, 0, p)
    } else {
        crate::util::copy_range(f, 0, f.len())
    }
}

/// `v` reversed.
pub fn reverse_frames(v: &Vec<Vec<u8>>) -> (r: Vec<Vec<u8>>)
    ensures
        r@.map_values(|f: Vec<u8>| f@) == v@.map_values(|f: Vec<u8>| f@).reverse(),
        r@.len() == v@.len(),
        forall|i: int| 0 <= i < v@.len() ==> (#[trigger] r@[i])@ == v@[v@.len() - 1 - i]@,
{
    let ghost goal = v@.map_values(|f: Vec<u8>| f@).reverse();
    let mut out: Vec<Vec<u8>> = Vec::new();
    let mut i: usize = v.len();
    while i > 0
        invariant
            0 <= i <= v@.len(),
            goal == v@.map_values(|f: Vec<u8>| f@).reverse(),
            out@.map_values(|f: Vec<u8>| f@) =~= goal.take((v@.len() - i) as int),
        decreases i,
    {
        let ghost before = out@.map_values(|f: Vec<u8>| f@);
        let piece = crate::util::copy_range(v[i - 1].as_slice(), 0, v[i - 1].len());
        proof {
            assert(piece@ =~= v@[i - 1]@);
        }
        out.push(piece);
        proof {
            assert(out@.map_values(|f: Vec<u8>| f@) =~= before.push(v@[i - 1]@));
            assert(goal[(v@.len() - i) as int] == v@[i - 1]@);
            assert(out@.map_values(|f: Vec<u8>| f@) =~= goal.take((v@.len() - i + 1) as int));
        }
        i = i - 1;
    }
    proof {
        assert(goal.take(goal.len() as int) =~= goal);
        let m = out@.map_values(|f: Vec<u8>| f@);
        let vv = v@.map_values(|f: Vec<u8>| f@);
        assert(m == vv.reverse());
        if v@.len() > 0 {
            assert(vv.reverse() == Seq::new(vv.len(), |j: int| vv[vv.len() - 1 - j]));
        }
        assert forall|x: int| 0 <= x < v@.len() implies (#[trigger] out@[x])@ == v@[v@.len() - 1
            - x]@ by {
            assert(m[x] == out@[x]@);
            assert(m[x] == vv[vv.len() - 1 - x]);
            assert(vv[vv.len() - 1 - x] == v@[v@.len() - 1 - x]@);
        }
    }
    out
}

/// Join frames with `;` into a folded stack key.
pub fn join_frames(frames: &Vec<Vec<u8>>) -> (r: Vec<u8>)
    ensures
        r@ == spec_join_semi(frames@.map_values(|f: Vec<u8>| f@)),
{
    let ghost views = frames@.map_values(|f: Vec<u8>| f@);
    let mut out: Vec<u8> = Vec::new();
    if frames.len() == 0 {
        proof {
            assert(out@ =~= spec_join_semi(views));
        }
        return out;
    }
    let mut i: usize = 0;
    while i < frames.len()
        invariant
            0 <= i <= frames@.len(),
            frames@.len() > 0,
            views == frames@.map_values(|f: Vec<u8>| f@),
            out@ =~= spec_join_take(views, i as int),
        decreases frames@.len() - i,
    {
        if i > 0 {
            out.push(B_SEMI);
        }
        let f = &frames[i];
        let mut j: usize = 0;
        while j < f.len()
            invariant
                0 <= j <= f@.len(),
                i < frames@.len(),
                views == frames@.map_values(|f2: Vec<u8>| f2@),
                f@ == views[i as int],
                out@ =~= spec_join_take(views, i as int) + (if i > 0 {
                    seq![B_SEMI]
                } else {
                    Seq::<u8>::empty()
                }) + f@.take(j as int),
            decreases f@.len() - j,
        {
            out.push(f[j]);
            proof {
                assert(f@.take(j + 1) =~= f@.take(j as int).push(f@[j as int]));
            }
            j = j + 1;
        }
        proof {
            assert(f@.take(f@.len() as int) =~= f@);
            lemma_join_take_step(views, i as int);
        }
        i = i + 1;
    }
    proof {
        lemma_join_take_all(views);
    }
    out
}

/// The join of the first `n` frames.
pub open spec fn spec_join_take(frames: Seq<Seq<u8>>, n: int) -> Seq<u8>
    decreases n,
{
    if n <= 0 {
        Seq::empty()
    } else if n == 1 {
        frames[0]
    } else {
        spec_join_take(frames, n - 1) + seq![B_SEMI] + frames[n - 1]
    }
}

/// Extending the partial join by one frame appends `;frame`.
pub proof fn lemma_join_take_step(frames: Seq<Seq<u8>>, i: int)
    requires
        0 <= i < frames.len(),
    ensures
        i == 0 ==> spec_join_take(frames, 1) == frames[0],
        i > 0 ==> spec_join_take(frames, i + 1) == spec_join_take(frames, i) + seq![B_SEMI]
            + frames[i],
{
}

/// The full partial join equals the recursive join.
pub proof fn lemma_join_take_all(frames: Seq<Seq<u8>>)
    requires
        frames.len() > 0,
    ensures
        spec_join_take(frames, frames.len() as int) == spec_join_semi(frames),
    decreases frames.len(),
{
    lemma_join_prefix(frames, frames.len() as int);
    assert(frames.take(frames.len() as int) =~= frames);
}

/// Partial joins agree with the join of the prefix.
pub proof fn lemma_join_prefix(frames: Seq<Seq<u8>>, n: int)
    requires
        1 <= n <= frames.len(),
    ensures
        spec_join_take(frames, n) == spec_join_semi(frames.take(n)),
    decreases n,
{
    if n == 1 {
        assert(spec_join_semi(frames.take(1)) == frames.take(1)[0]);
    } else {
        lemma_join_prefix(frames, n - 1);
        lemma_join_snoc(frames.take(n - 1), frames[n - 1]);
        assert(frames.take(n - 1).push(frames[n - 1]) =~= frames.take(n));
    }
}

/// Joining after appending one frame appends `;frame`.
pub proof fn lemma_join_snoc(frames: Seq<Seq<u8>>, f: Seq<u8>)
    requires
        frames.len() >= 1,
    ensures
        spec_join_semi(frames.push(f)) == spec_join_semi(frames) + seq![B_SEMI] + f,
    decreases frames.len(),
{
    if frames.len() == 1 {
        let p = frames.push(f);
        assert(p[0] == frames[0]);
        assert(p.drop_first() =~= seq![f]);
        assert(spec_join_semi(seq![f]) == f);
        assert(spec_join_semi(p) =~= frames[0] + seq![B_SEMI] + f);
        assert(spec_join_semi(frames) == frames[0]);
    } else {
        lemma_join_snoc(frames.drop_first(), f);
        let p = frames.push(f);
        assert(p[0] == frames[0]);
        assert(p.drop_first() =~= frames.drop_first().push(f));
        assert(spec_join_semi(p) =~= spec_join_semi(frames) + seq![B_SEMI] + f);
    }
}

/// The join of well-formed frames holds no newline.
pub proof fn lemma_join_no_nl(frames: Seq<Seq<u8>>)
    requires
        wf_frames(frames),
    ensures
        no_nl(spec_join_semi(frames)),
    decreases frames.len(),
{
    let k = spec_join_semi(frames);
    if frames.len() <= 1 {
        if frames.len() == 1 {
            assert(wf_frame(frames[0]));
            assert(forall|i: int| 0 <= i < k.len() ==> k[i] == frames[0][i]);
        }
    } else {
        let rest = frames.drop_first();
        assert(wf_frames(rest)) by {
            assert(forall|i: int| 0 <= i < rest.len() ==> rest[i] == frames[i + 1]);
        }
        lemma_join_no_nl(rest);
        let f0 = frames[0];
        let kr = spec_join_semi(rest);
        assert(wf_frame(f0));
        assert forall|i: int| 0 <= i < k.len() implies k[i] != B_NL by {
            if i < f0.len() {
                assert(k[i] == f0[i]);
            } else if i > f0.len() {
                assert(k[i] == kr[i - f0.len() - 1]);
            }
        }
    }
}

/// A joined stack of well-formed non-empty frames, the first of which
/// does not start with whitespace, is a well-formed folded key.
pub proof fn lemma_join_wf(frames: Seq<Seq<u8>>)
    requires
        frames.len() > 0,
        wf_frames(frames),
        frames[0].len() > 0,
        !is_ws(frames[0][0]),
    ensures
        wf_key(spec_join_semi(frames)),
        spec_join_semi(frames)[0] == frames[0][0],
{
    lemma_join_no_nl(frames);
    let k = spec_join_semi(frames);
    if frames.len() == 1 {
        assert(k == frames[0]);
    } else {
        assert(k =~= frames[0] + seq![B_SEMI] + spec_join_semi(frames.drop_first()));
        assert(k[0] == frames[0][0]);
    }
}

} // verus!
