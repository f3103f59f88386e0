//! The layout engine: assign horizontal extent (in sample units), depth
//! and pixel geometry to every tree node, pruning frames narrower than
//! the configured minimum.
//!
//! Layout works in integer sample units and millipixels, so it is exact
//! and deterministic. A node is kept exactly when its pixel width
//! reaches the threshold: `count·inner ≥ min_width·total`, the
//! cross-multiplied form of `count·inner/total ≥ min_width`. Direction
//! only affects the final `y` mapping, never the rectangle set.
//!
//! Siblings are laid out in first-insertion order, the order the tree
//! builder keeps; that order is a deterministic function of the input,
//! so reproducibility holds, but it is not the alphabetical render-time
//! order that sorting would give.

use vstd::prelude::*;
use crate::tree::{sum_counts, wf_node, Node};
use crate::util::copy_range;

verus! {

broadcast use vstd::std_specs::vec::axiom_vec_index_decreases;

/// Horizontal padding on each side of the graph, in pixels.
pub const XPAD: u64 = 10;

/// Depth cap: a machine limit keeping depth arithmetic in 64 bits.
pub const DEPTH_CAP: u64 = 0xFFFF_FFFF;

/// One laid-out frame: name, depth, and horizontal extent in sample
/// units. Pixel geometry is a pure function of these and the options.
pub struct Rect {
    pub name: Vec<u8>,
    pub depth: u64,
    pub x_units: u64,
    pub w_units: u64,
}

/// Mathematical value of a rect.
pub open spec fn rect_view(r: Rect) -> (Seq<u8>, int, int, int) {
    (r.name@, r.depth as int, r.x_units as int, r.w_units as int)
}

pub open spec fn rects_view(rs: Seq<Rect>) -> Seq<(Seq<u8>, int, int, int)> {
    rs.map_values(|r: Rect| rect_view(r))
}

/// Whether a node of `c` samples is kept under the pruning threshold.
pub open spec fn spec_keep(c: int, inner: int, minw: int, total: int) -> bool {
    c * inner >= minw * total
}

/// The laid-out frames of the subtree at `n`, whose left edge is `x`
/// sample units and whose depth is `d`.
pub open spec fn spec_frames(n: Node, x: int, d: int, inner: int, minw: int, total: int) -> Seq<
    (Seq<u8>, int, int, int),
>
    decreases n, 1int, 0int,
{
    if spec_keep(n.count as int, inner, minw, total) && d <= DEPTH_CAP {
        seq![(n.name@, d, x, n.count as int)] + spec_kids(n, 0, x, d + 1, inner, minw, total)
    } else {
        Seq::empty()
    }
}

/// The frames of children `i..` of `n`, the `i`-th starting at `x`.
pub open spec fn spec_kids(
    n: Node,
    i: int,
    x: int,
    d: int,
    inner: int,
    minw: int,
    total: int,
) -> Seq<(Seq<u8>, int, int, int)>
    decreases n, 0int, n.children@.len() - i,
{
    if i < 0 || i >= n.children@.len() {
        Seq::empty()
    } else {
        spec_frames(n.children[i], x, d, inner, minw, total) + spec_kids(
            n,
            i + 1,
            x + n.children@[i].count,
            d,
            inner,
            minw,
            total,
        )
    }
}

/// Sums split around a prefix.
pub proof fn lemma_sum_take_succ(cs: Seq<Node>, i: int)
    requires
        0 <= i < cs.len(),
    ensures
        sum_counts(cs.take(i + 1)) == sum_counts(cs.take(i)) + cs[i].count,
{
    assert(cs.take(i + 1).drop_last() =~= cs.take(i));
    assert(cs.take(i + 1).last() == cs[i]);
}

pub proof fn lemma_sum_nonneg(cs: Seq<Node>)
    ensures
        sum_counts(cs) >= 0,
    decreases cs.len(),
{
    if cs.len() > 0 {
        lemma_sum_nonneg(cs.drop_last());
    }
}

/// A prefix sum never exceeds the whole sum.
pub proof fn lemma_sum_take_le(cs: Seq<Node>, i: int)
    requires
        0 <= i <= cs.len(),
    ensures
        sum_counts(cs.take(i)) <= sum_counts(cs),
    decreases cs.len() - i,
{
    if i == cs.len() {
        assert(cs.take(i) =~= cs);
    } else {
        lemma_sum_take_succ(cs, i);
        lemma_sum_take_le(cs, i + 1);
    }
}

/// Exec cross-multiplied comparison `a·b >= c·d` without overflow.
fn cross_ge(a: u64, b: u64, c: u64, d: u64) -> (r: bool)
    ensures
        r == (a as int * b as int >= c as int * d as int),
{
    proof {
        assert((a as u128) * (b as u128) < 0x1_0000_0000_0000_0000_0000_0000_0000_0000)
            by (nonlinear_arith)
            requires
                a < 0x1_0000_0000_0000_0000,
                b < 0x1_0000_0000_0000_0000,
        ;
        assert((c as u128) * (d as u128) < 0x1_0000_0000_0000_0000_0000_0000_0000_0000)
            by (nonlinear_arith)
            requires
                c < 0x1_0000_0000_0000_0000,
                d < 0x1_0000_0000_0000_0000,
        ;
    }
    let left: u128 = (a as u128) * (b as u128);
    let right: u128 = (c as u128) * (d as u128);
    left >= right
}

/// Lay out the subtree at `n`, appending its rects in prefix order.
pub fn layout_node(
    out: &mut Vec<Rect>,
    n: &Node,
    x: u64,
    d: u64,
    inner: u64,
    minw: u64,
    total: u64,
)
    requires
        wf_node(*n),
        x + n.count <= total,
    ensures
        rects_view(final(out)@) == rects_view(old(out)@) + spec_frames(
            *n,
            x as int,
            d as int,
            inner as int,
            minw as int,
            total as int,
        ),
    decreases *n,
{
    let keep = cross_ge(n.count, inner, minw, total);
    if !keep || d > DEPTH_CAP {
        proof {
            assert(rects_view(out@) =~~= rects_view(old(out)@) + spec_frames(
                *n,
                x as int,
                d as int,
                inner as int,
                minw as int,
                total as int,
            ));
        }
        return ;
    }
    let ghost base = rects_view(old(out)@);
    let own = Rect {
        name: copy_range(n.name.as_slice(), 0, n.name.len()),
        depth: d,
        x_units: x,
        w_units: n.count,
    };
    proof {
        assert(own.name@ =~= n.name@);
    }
    out.push(own);
    let ghost goal = spec_frames(
        *n,
        x as int,
        d as int,
        inner as int,
        minw as int,
        total as int,
    );
    proof {
        assert(rects_view(out@) =~~= base + seq![(n.name@, d as int, x as int, n.count as int)]);
    }
    let mut xi: u64 = x;
    let mut i: usize = 0;
    proof {
        assert(n.children@.take(0) =~= Seq::<Node>::empty());
        lemma_sum_nonneg(n.children@);
    }
    while i < n.children.len()
        invariant
            0 <= i <= n.children@.len(),
            wf_node(*n),
            x + n.count <= total,
            d <= DEPTH_CAP,
            xi == x + sum_counts(n.children@.take(i as int)),
            goal == spec_frames(
                *n,
                x as int,
                d as int,
                inner as int,
                minw as int,
                total as int,
            ),
            spec_keep(n.count as int, inner as int, minw as int, total as int),
            rects_view(out@) + spec_kids(
                *n,
                i as int,
                xi as int,
                d + 1,
                inner as int,
                minw as int,
                total as int,
            ) == base + goal,
        decreases n.children@.len() - i,
    {
        let child = &n.children[i];
        proof {
            lemma_sum_take_succ(n.children@, i as int);
            lemma_sum_take_le(n.children@, i + 1);
            lemma_sum_nonneg(n.children@.take(i as int));
            assert(sum_counts(n.children@) + n.self_count == n.count);
            assert(xi + child.count <= x + n.count);
            assert(wf_node(*child));
        }
        layout_node(out, child, xi, d + 1, inner, minw, total);
        proof {
            assert(spec_kids(
                *n,
                i as int,
                xi as int,
                d + 1,
                inner as int,
                minw as int,
                total as int,
            ) == spec_frames(
                n.children[i as int],
                xi as int,
                d + 1,
                inner as int,
                minw as int,
                total as int,
            ) + spec_kids(
                *n,
                i + 1,
                xi + child.count,
                d + 1,
                inner as int,
                minw as int,
                total as int,
            ));
        }
        xi = xi + child.count;
        i = i + 1;
    }
    proof {
        assert(spec_kids(
            *n,
            n.children@.len() as int,
            xi as int,
            d + 1,
            inner as int,
            minw as int,
            total as int,
        ) =~= Seq::<(Seq<u8>, int, int, int)>::empty());
        assert(rects_view(out@) =~~= base + goal);
    }
}

/// Pixel width (millipixels) of `u` sample units.
pub open spec fn spec_px(u: int, inner: int, total: int) -> int {
    u * inner / total
}

/// Exec pixel mapping.
pub fn px_of(u: u64, inner: u64, total: u64) -> (r: u64)
    requires
        1 <= total,
        u <= total,
    ensures
        r == spec_px(u as int, inner as int, total as int),
        r <= inner,
{
    proof {
        assert((u as u128) * (inner as u128) < 0x1_0000_0000_0000_0000_0000_0000_0000_0000)
            by (nonlinear_arith)
            requires
                u < 0x1_0000_0000_0000_0000,
                inner < 0x1_0000_0000_0000_0000,
        ;
        vstd::arithmetic::mul::lemma_mul_inequality(u as int, total as int, inner as int);
        vstd::arithmetic::div_mod::lemma_div_is_ordered(
            u as int * inner as int,
            total as int * inner as int,
            total as int,
        );
        vstd::arithmetic::div_mod::lemma_div_multiples_vanish(inner as int, total as int);
        vstd::arithmetic::div_mod::lemma_div_pos_is_pos(u as int * inner as int, total as int);
        assert(u as int * inner as int >= 0) by (nonlinear_arith)
            requires
                u >= 0,
                inner >= 0,
        ;
    }
    let r128: u128 = (u as u128) * (inner as u128) / (total as u128);
    r128 as u64
}

/// The root frame spans the full inner width exactly: its width in
/// pixels is `image_width - 2·XPAD`, with no rounding loss.
pub proof fn lemma_root_full_width(inner: int, total: int)
    requires
        total >= 1,
    ensures
        spec_px(total, inner, total) == inner,
{
    vstd::arithmetic::div_mod::lemma_div_multiples_vanish(inner, total);
}

/// Vertical pixel position of a frame at `depth`.
pub open spec fn spec_y(depth: int, inverted: bool, max_depth: int, fh: int, pad_top: int) -> int {
    if inverted {
        pad_top + depth * fh
    } else {
        pad_top + (max_depth - depth) * fh
    }
}

/// Compute a frame's vertical position.
pub fn y_of(depth: u64, inverted: bool, max_depth: u64, fh: u64, pad_top: u64) -> (r: u64)
    requires
        depth <= max_depth,
        max_depth <= 0xFFFF_FFFF,
        fh <= 0xFFFF,
        pad_top <= 0xFFFF_FFFF,
    ensures
        r == spec_y(depth as int, inverted, max_depth as int, fh as int, pad_top as int),
        r <= pad_top + max_depth * fh,
{
    let row: u64 = if inverted {
        depth
    } else {
        max_depth - depth
    };
    proof {
        assert(row * fh <= 0xFFFF_FFFF * 0xFFFF) by (nonlinear_arith)
            requires
                row <= 0xFFFF_FFFF,
                fh <= 0xFFFF,
        ;
        vstd::arithmetic::mul::lemma_mul_inequality(row as int, max_depth as int, fh as int);
    }
    pad_top + row * fh
}

/// Inversion reflects each frame's `y` about the graph's vertical
/// middle: the two directions' positions always sum to the same
/// constant, and the rectangle set itself does not depend on the
/// direction at all (`spec_frames` takes none).
pub proof fn lemma_inversion_reflection(depth: int, max_depth: int, fh: int, pad_top: int)
    ensures
        spec_y(depth, false, max_depth, fh, pad_top) + spec_y(depth, true, max_depth, fh, pad_top)
            == 2 * pad_top + max_depth * fh,
{
    assert((max_depth - depth) * fh + depth * fh == max_depth * fh) by (nonlinear_arith);
}

/// Membership in a concatenation.
pub proof fn lemma_contains_concat<A>(a: Seq<A>, b: Seq<A>, e: A)
    ensures
        (a + b).contains(e) <==> a.contains(e) || b.contains(e),
{
    if (a + b).contains(e) {
        let i = choose|i: int| 0 <= i < (a + b).len() && (a + b)[i] == e;
        if i < a.len() {
            assert(a[i] == e);
        } else {
            assert(b[i - a.len()] == e);
        }
    }
    if a.contains(e) {
        let i = choose|i: int| 0 <= i < a.len() && a[i] == e;
        assert((a + b)[i] == e);
    }
    if b.contains(e) {
        let i = choose|i: int| 0 <= i < b.len() && b[i] == e;
        assert((a + b)[a.len() + i] == e);
    }
}

/// Pruning is monotone: every rectangle rendered under a threshold is
/// still rendered under any smaller threshold.
pub proof fn lemma_prune_monotone(
    n: Node,
    x: int,
    d: int,
    inner: int,
    m1: int,
    m2: int,
    total: int,
    e: (Seq<u8>, int, int, int),
)
    requires
        0 <= m1 <= m2,
        total >= 0,
        inner >= 0,
        spec_frames(n, x, d, inner, m2, total).contains(e),
    ensures
        spec_frames(n, x, d, inner, m1, total).contains(e),
    decreases n, 1int, 0int,
{
    vstd::arithmetic::mul::lemma_mul_inequality(m1, m2, total);
    let own = seq![(n.name@, d, x, n.count as int)];
    lemma_contains_concat(own, spec_kids(n, 0, x, d + 1, inner, m2, total), e);
    lemma_contains_concat(own, spec_kids(n, 0, x, d + 1, inner, m1, total), e);
    if !own.contains(e) {
        lemma_prune_monotone_kids(n, 0, x, d + 1, inner, m1, m2, total, e);
    }
}

pub proof fn lemma_prune_monotone_kids(
    n: Node,
    i: int,
    x: int,
    d: int,
    inner: int,
    m1: int,
    m2: int,
    total: int,
    e: (Seq<u8>, int, int, int),
)
    requires
        0 <= m1 <= m2,
        total >= 0,
        inner >= 0,
        spec_kids(n, i, x, d, inner, m2, total).contains(e),
    ensures
        spec_kids(n, i, x, d, inner, m1, total).contains(e),
    decreases n, 0int, n.children@.len() - i,
{
    if 0 <= i < n.children@.len() {
        let hd2 = spec_frames(n.children[i], x, d, inner, m2, total);
        let tl2 = spec_kids(n, i + 1, x + n.children@[i].count, d, inner, m2, total);
        lemma_contains_concat(hd2, tl2, e);
        if hd2.contains(e) {
            lemma_prune_monotone(n.children[i], x, d, inner, m1, m2, total, e);
        } else {
            lemma_prune_monotone_kids(n, i + 1, x + n.children@[i].count, d, inner, m1, m2, total, e);
        }
        lemma_contains_concat(
            spec_frames(n.children[i], x, d, inner, m1, total),
            spec_kids(n, i + 1, x + n.children@[i].count, d, inner, m1, total),
            e,
        );
    }
}

/// Lay out a whole graph: the synthetic root carries no rectangle of
/// its own, so the root-level frames are its children, at depth 0.
/// Returns the rects in prefix order and the maximum depth among them.
pub fn layout_graph(root: &Node, inner: u64, minw: u64) -> (r: (Vec<Rect>, u64))
    requires
        wf_node(*root),
    ensures
        rects_view(r.0@) == spec_kids(
            *root,
            0,
            0,
            0,
            inner as int,
            minw as int,
            root.count as int,
        ),
        forall|i: int| 0 <= i < r.0@.len() ==> (#[trigger] r.0@[i]).depth <= r.1,
{
    let mut out: Vec<Rect> = Vec::new();
    let total: u64 = root.count;
    let ghost goal = spec_kids(*root, 0, 0, 0, inner as int, minw as int, total as int);
    proof {
        assert(rects_view(out@) =~= Seq::<(Seq<u8>, int, int, int)>::empty());
        assert(root.children@.take(0) =~= Seq::<Node>::empty());
        lemma_sum_nonneg(root.children@);
    }
    let mut xi: u64 = 0;
    let mut i: usize = 0;
    while i < root.children.len()
        invariant
            0 <= i <= root.children@.len(),
            wf_node(*root),
            total == root.count,
            xi == sum_counts(root.children@.take(i as int)),
            xi <= total,
            goal == spec_kids(*root, 0, 0, 0, inner as int, minw as int, total as int),
            rects_view(out@) + spec_kids(
                *root,
                i as int,
                xi as int,
                0,
                inner as int,
                minw as int,
                total as int,
            ) == goal,
        decreases root.children@.len() - i,
    {
        let child = &root.children[i];
        proof {
            lemma_sum_take_succ(root.children@, i as int);
            lemma_sum_take_le(root.children@, i + 1);
            lemma_sum_nonneg(root.children@.take(i as int));
            assert(sum_counts(root.children@) + root.self_count == root.count);
            lemma_sum_take_le(root.children@, root.children@.len() as int);
            assert(root.children@.take(root.children@.len() as int) =~= root.children@);
            assert(xi + child.count <= total);
            assert(wf_node(*child));
        }
        layout_node(&mut out, child, xi, 0, inner, minw, total);
        proof {
            assert(spec_kids(
                *root,
                i as int,
                xi as int,
                0,
                inner as int,
                minw as int,
                total as int,
            ) == spec_frames(
                root.children[i as int],
                xi as int,
                0,
                inner as int,
                minw as int,
                total as int,
            ) + spec_kids(
                *root,
                i + 1,
                xi + child.count,
                0,
                inner as int,
                minw as int,
                total as int,
            ));
        }
        xi = xi + child.count;
        i = i + 1;
    }
    proof {
        assert(spec_kids(
            *root,
            root.children@.len() as int,
            xi as int,
            0,
            inner as int,
            minw as int,
            total as int,
        ) =~= Seq::<(Seq<u8>, int, int, int)>::empty());
        assert(rects_view(out@) =~~= goal);
    }
    let mut maxd: u64 = 0;
    let mut i: usize = 0;
    while i < out.len()
        invariant
            0 <= i <= out@.len(),
            forall|x: int| 0 <= x < i ==> (#[trigger] out@[x]).depth <= maxd,
        decreases out@.len() - i,
    {
        if out[i].depth > maxd {
            maxd = out[i].depth;
        }
        i = i + 1;
    }
    (out, maxd)
}

} // verus!
