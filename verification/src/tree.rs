//! The frame tree: folded entries prefix-merged into a tree whose nodes
//! carry aggregated sample counts.
//!
//! The counting invariant of the data model is carried as
//! well-formedness: every node's count is exactly the sum of its
//! children's counts plus its own terminating samples, child names are
//! unique, and every child holds at least one sample. The root is the
//! synthetic `all` frame, whose count is the scaled total of the input.
//!
//! Building is pinned to a relational specification: `adds_stack` says
//! exactly how inserting one stack transforms a tree, and `merged` folds
//! it over the entries, so the built tree's shape is fixed by the input.

use vstd::prelude::*;
use crate::accum::vec_u8_eq;
use crate::fold::FoldError;
use crate::folded::{entries_view, spec_split_semi, Entry};
use crate::util::copy_range;

verus! {

broadcast use vstd::std_specs::vec::axiom_vec_index_decreases;

/// One merged frame: its name, total count, samples terminating here,
/// and the children in first-insertion order.
pub struct Node {
    pub name: Vec<u8>,
    pub count: u64,
    pub self_count: u64,
    pub children: Vec<Node>,
}

/// Sum of the counts of a list of nodes.
pub open spec fn sum_counts(cs: Seq<Node>) -> int
    decreases cs.len(),
{
    if cs.len() == 0 {
        0
    } else {
        sum_counts(cs.drop_last()) + cs.last().count
    }
}

/// Child names are pairwise distinct.
pub open spec fn unique_names(cs: Seq<Node>) -> bool {
    forall|i: int, j: int| 0 <= i < j < cs.len() ==> cs[i].name@ != cs[j].name@
}

/// The tree invariant: counts add up, children are uniquely named and
/// each carries at least one sample.
pub open spec fn wf_node(n: Node) -> bool
    decreases n,
{
    &&& n.count == sum_counts(n.children@) + n.self_count
    &&& unique_names(n.children@)
    &&& forall|i: int| 0 <= i < n.children@.len() ==> (#[trigger] n.children@[i]).count >= 1
    &&& forall|i: int| 0 <= i < n.children@.len() ==> wf_node(#[trigger] n.children[i as int])
}

/// Updating one node shifts the sum by the count difference.
pub proof fn lemma_sum_update(cs: Seq<Node>, i: int, e: Node)
    requires
        0 <= i < cs.len(),
    ensures
        sum_counts(cs.update(i, e)) == sum_counts(cs) - cs[i].count + e.count,
    decreases cs.len(),
{
    if i == cs.len() - 1 {
        assert(cs.update(i, e).drop_last() =~= cs.drop_last());
        assert(cs.update(i, e).last() == e);
    } else {
        lemma_sum_update(cs.drop_last(), i, e);
        assert(cs.update(i, e).drop_last() =~= cs.drop_last().update(i, e));
        assert(cs.update(i, e).last() == cs.last());
    }
}

pub proof fn lemma_sum_push(cs: Seq<Node>, e: Node)
    ensures
        sum_counts(cs.push(e)) == sum_counts(cs) + e.count,
{
    assert(cs.push(e).drop_last() =~= cs);
    assert(cs.push(e).last() == e);
}

pub proof fn lemma_sum_nonneg_nodes(cs: Seq<Node>)
    ensures
        sum_counts(cs) >= 0,
    decreases cs.len(),
{
    if cs.len() > 0 {
        lemma_sum_nonneg_nodes(cs.drop_last());
    }
}

/// No element exceeds the sum.
pub proof fn lemma_sum_ge_elem(cs: Seq<Node>, i: int)
    requires
        0 <= i < cs.len(),
    ensures
        cs[i].count <= sum_counts(cs),
    decreases cs.len(),
{
    if i == cs.len() - 1 {
        lemma_sum_nonneg_nodes(cs.drop_last());
    } else {
        lemma_sum_ge_elem(cs.drop_last(), i);
        assert(cs.drop_last()[i] == cs[i]);
    }
}

/// Index of the child named `name`, or `-1`.
pub open spec fn find_child(cs: Seq<Node>, name: Seq<u8>) -> int
    decreases cs.len(),
{
    if cs.len() == 0 {
        -1
    } else if cs[0].name@ == name {
        0
    } else {
        let r = find_child(cs.drop_first(), name);
        if r == -1 {
            -1
        } else {
            1 + r
        }
    }
}

pub proof fn lemma_find_child(cs: Seq<Node>, name: Seq<u8>)
    ensures
        -1 <= find_child(cs, name) < cs.len(),
        find_child(cs, name) >= 0 ==> cs[find_child(cs, name)].name@ == name,
        find_child(cs, name) == -1 ==> forall|i: int| 0 <= i < cs.len() ==> cs[i].name@ != name,
    decreases cs.len(),
{
    if cs.len() > 0 && cs[0].name@ != name {
        lemma_find_child(cs.drop_first(), name);
        assert(forall|i: int| 1 <= i < cs.len() ==> cs[i] == cs.drop_first()[i - 1]);
    }
}

/// If `cs[i]` is named `name` and nothing before it is, it is found.
pub proof fn lemma_find_child_at(cs: Seq<Node>, name: Seq<u8>, i: int)
    requires
        0 <= i < cs.len(),
        cs[i].name@ == name,
        forall|x: int| 0 <= x < i ==> cs[x].name@ != name,
    ensures
        find_child(cs, name) == i,
    decreases i,
{
    if i > 0 {
        lemma_find_child_at(cs.drop_first(), name, i - 1);
        assert(forall|x: int| 0 <= x < cs.drop_first().len() ==> cs.drop_first()[x] == cs[x
            + 1]);
    }
}

/// A freshly created child: named, empty, no samples yet.
pub open spec fn is_fresh_node(n: Node, name: Seq<u8>) -> bool {
    n.name@ == name && n.count == 0 && n.self_count == 0 && n.children@.len() == 0
}

/// How inserting `count` samples along `frames[i..]` transforms a tree:
/// the path's nodes each gain `count`, the final node gains it as
/// terminating samples, missing children are appended as fresh nodes,
/// and every sibling off the path is untouched.
pub open spec fn adds_stack(
    pre: Node,
    post: Node,
    frames: Seq<Seq<u8>>,
    i: int,
    count: u64,
) -> bool
    decreases frames.len() - i,
{
    &&& post.name@ == pre.name@
    &&& post.count == pre.count + count
    &&& if i < 0 || i >= frames.len() {
        post.self_count == pre.self_count + count && post.children@ == pre.children@
    } else {
        let fi = find_child(pre.children@, frames[i]);
        &&& post.self_count == pre.self_count
        &&& if fi >= 0 {
            &&& post.children@.len() == pre.children@.len()
            &&& forall|x: int|
                0 <= x < pre.children@.len() && x != fi ==> post.children@[x]
                    == pre.children@[x]
            &&& adds_stack(pre.children@[fi], post.children@[fi], frames, i + 1, count)
        } else {
            &&& post.children@.len() == pre.children@.len() + 1
            &&& post.children@.take(pre.children@.len() as int) == pre.children@
            &&& exists|fresh: Node|
                is_fresh_node(fresh, frames[i]) && adds_stack(
                    fresh,
                    #[trigger] post.children@.last(),
                    frames,
                    i + 1,
                    count,
                )
        }
    }
}

/// Add `count` samples along the frame path `frames[i..]` below `node`.
///
/// The transformation is exactly `adds_stack`; the caller guarantees the
/// node's counter has room, which the tree invariant propagates to every
/// deeper counter, so insertion cannot fail.
pub fn add_stack(node: Node, frames: &Vec<Vec<u8>>, i: usize, count: u64) -> (r: Node)
    requires
        wf_node(node),
        count >= 1,
        i <= frames@.len(),
        node.count + count <= u64::MAX,
    ensures
        wf_node(r),
        r.count == node.count + count,
        adds_stack(node, r, frames@.map_values(|f: Vec<u8>| f@), i as int, count),
    decreases frames@.len() - i,
{
    let ghost fviews = frames@.map_values(|f: Vec<u8>| f@);
    let mut node = node;
    let ghost oldnode = node;
    node.count = node.count + count;
    if i == frames.len() {
        proof {
            lemma_sum_nonneg_nodes(oldnode.children@);
        }
        node.self_count = node.self_count + count;
        proof {
            assert(node.children@ =~= oldnode.children@);
            assert(wf_node(node)) by {
                assert(forall|x: int|
                    0 <= x < node.children@.len() ==> node.children[x] == oldnode.children[x]);
            }
        }
        return node;
    }
    // find the child with this frame name
    let mut idx: usize = 0;
    let mut found: bool = false;
    let mut j: usize = 0;
    while j < node.children.len()
        invariant
            0 <= j <= node.children@.len(),
            found ==> idx < j && node.children@[idx as int].name@ == frames@[i as int]@,
            found ==> forall|x: int|
                0 <= x < idx ==> (#[trigger] node.children@[x]).name@ != frames@[i as int]@,
            !found ==> forall|x: int|
                0 <= x < j ==> (#[trigger] node.children@[x]).name@ != frames@[i as int]@,
            i < frames@.len(),
        decreases node.children@.len() - j,
    {
        if !found {
            let hit = vec_u8_eq(&node.children[j].name, &frames[i]);
            if hit {
                idx = j;
                found = true;
            }
        }
        j = j + 1;
    }
    proof {
        assert(fviews[i as int] == frames@[i as int]@);
        if found {
            lemma_find_child_at(oldnode.children@, fviews[i as int], idx as int);
        } else {
            lemma_find_child(oldnode.children@, fviews[i as int]);
            if find_child(oldnode.children@, fviews[i as int]) >= 0 {
                assert(false);
            }
        }
    }
    if !found {
        let fresh = Node {
            name: copy_range(frames[i].as_slice(), 0, frames[i].len()),
            count: 0,
            self_count: 0,
            children: Vec::new(),
        };
        let ghost gfresh = fresh;
        proof {
            assert(fresh.children@ =~= Seq::<Node>::empty());
            assert(sum_counts(fresh.children@) == 0);
            assert(wf_node(fresh));
            assert(fresh.name@ =~= frames@[i as int]@);
            assert(is_fresh_node(gfresh, fviews[i as int]));
        }
        let sub = add_stack(fresh, frames, i + 1, count);
        let ghost before = node.children@;
        node.children.push(sub);
        proof {
            lemma_sum_push(before, sub);
            assert(sub.name@ == frames@[i as int]@);
            assert(wf_node(node)) by {
                assert(forall|x: int|
                    0 <= x < before.len() ==> node.children[x] == oldnode.children[x]);
                assert(node.children[before.len() as int] == sub);
                assert forall|x: int, y: int|
                    0 <= x < y < node.children@.len() implies node.children@[x].name@
                    != node.children@[y].name@ by {
                    if y < before.len() {
                        assert(oldnode.children@[x].name@ != oldnode.children@[y].name@);
                    }
                }
            }
            assert(node.children@.take(before.len() as int) =~= before);
            assert(node.children@.last() == sub);
            assert(adds_stack(gfresh, sub, fviews, i + 1, count));
            assert(adds_stack(oldnode, node, fviews, i as int, count));
        }
        node
    } else {
        let child = node.children.remove(idx);
        let ghost before = oldnode.children@;
        proof {
            lemma_sum_ge_elem(before, idx as int);
            assert(sum_counts(before) + oldnode.self_count == oldnode.count);
            lemma_sum_nonneg_nodes(before);
            assert(child.count + count <= u64::MAX);
        }
        let sub = add_stack(child, frames, i + 1, count);
        node.children.insert(idx, sub);
        proof {
            assert(node.children@ =~= before.update(idx as int, sub));
            lemma_sum_update(before, idx as int, sub);
            assert(sub.count == before[idx as int].count + count);
            assert(wf_node(node)) by {
                assert(forall|x: int|
                    0 <= x < node.children@.len() && x != idx ==> node.children[x]
                        == oldnode.children[x]);
                assert(node.children[idx as int] == sub);
                assert(sub.name@ == before[idx as int].name@);
                assert forall|x: int, y: int|
                    0 <= x < y < node.children@.len() implies node.children@[x].name@
                    != node.children@[y].name@ by {
                    assert(oldnode.children@[x].name@ != oldnode.children@[y].name@);
                }
            }
            assert(adds_stack(oldnode, node, fviews, i as int, count));
        }
        node
    }
}

/// A count scaled by the factor, in thousandths.
pub open spec fn spec_scaled(c: u64, factor_milli: u64) -> int {
    c * factor_milli / 1000
}

/// Total scaled weight of an entry list.
pub open spec fn total_scaled(es: Seq<(Seq<u8>, u64)>, factor_milli: u64) -> int
    decreases es.len(),
{
    if es.len() == 0 {
        0
    } else {
        total_scaled(es.drop_last(), factor_milli) + if spec_scaled(es.last().1, factor_milli)
            > 0 {
            spec_scaled(es.last().1, factor_milli)
        } else {
            0
        }
    }
}

/// Prefix totals never exceed the whole total.
pub proof fn lemma_total_scaled_take_le(es: Seq<(Seq<u8>, u64)>, factor_milli: u64, i: int)
    requires
        0 <= i <= es.len(),
    ensures
        total_scaled(es.take(i), factor_milli) <= total_scaled(es, factor_milli),
    decreases es.len() - i,
{
    if i == es.len() {
        assert(es.take(i) =~= es);
    } else {
        assert(es.take(i + 1).drop_last() =~= es.take(i));
        assert(es.take(i + 1).last() == es[i]);
        lemma_total_scaled_take_le(es, factor_milli, i + 1);
    }
}

/// Some entry's scaled count does not fit in 64 bits.
pub open spec fn scaled_overflows(es: Seq<(Seq<u8>, u64)>, factor_milli: u64) -> bool {
    exists|j: int| 0 <= j < es.len() && spec_scaled((#[trigger] es[j]).1, factor_milli)
        > u64::MAX
}

/// The built tree: entries prefix-merged front to back into `post`,
/// starting from `pre`; zero scaled counts are dropped.
pub open spec fn merged(
    pre: Node,
    es: Seq<(Seq<u8>, u64)>,
    factor_milli: u64,
    post: Node,
) -> bool
    decreases es.len(),
{
    if es.len() == 0 {
        post == pre
    } else {
        let sc = spec_scaled(es[0].1, factor_milli);
        if sc == 0 {
            merged(pre, es.drop_first(), factor_milli, post)
        } else {
            exists|mid: Node|
                #[trigger] adds_stack(pre, mid, spec_split_semi(es[0].0), 0, sc as u64)
                    && merged(mid, es.drop_first(), factor_milli, post)
        }
    }
}

/// Extending a merge by one entry at the back.
pub proof fn lemma_merged_snoc(
    pre: Node,
    es: Seq<(Seq<u8>, u64)>,
    e: (Seq<u8>, u64),
    factor_milli: u64,
    mid: Node,
    post: Node,
)
    requires
        merged(pre, es, factor_milli, mid),
        spec_scaled(e.1, factor_milli) == 0 ==> post == mid,
        spec_scaled(e.1, factor_milli) > 0 ==> adds_stack(
            mid,
            post,
            spec_split_semi(e.0),
            0,
            spec_scaled(e.1, factor_milli) as u64,
        ),
        0 <= spec_scaled(e.1, factor_milli) <= u64::MAX,
    ensures
        merged(pre, es.push(e), factor_milli, post),
    decreases es.len(),
{
    if es.len() == 0 {
        assert(es.push(e)[0] == e);
        assert(es.push(e).drop_first() =~= Seq::<(Seq<u8>, u64)>::empty());
        assert(mid == pre);
        let sc = spec_scaled(e.1, factor_milli);
        if sc == 0 {
            assert(merged(pre, es.push(e).drop_first(), factor_milli, post));
        } else {
            assert(adds_stack(pre, post, spec_split_semi(es.push(e)[0].0), 0, sc as u64));
            assert(merged(post, es.push(e).drop_first(), factor_milli, post));
        }
    } else {
        let sc0 = spec_scaled(es[0].1, factor_milli);
        assert(es.push(e)[0] == es[0]);
        assert(es.push(e).drop_first() =~= es.drop_first().push(e));
        if sc0 == 0 {
            lemma_merged_snoc(pre, es.drop_first(), e, factor_milli, mid, post);
        } else {
            let m1 = choose|m1: Node|
                #[trigger] adds_stack(pre, m1, spec_split_semi(es[0].0), 0, sc0 as u64)
                    && merged(m1, es.drop_first(), factor_milli, mid);
            lemma_merged_snoc(m1, es.drop_first(), e, factor_milli, mid, post);
            assert(adds_stack(pre, m1, spec_split_semi(es.push(e)[0].0), 0, sc0 as u64)
                && merged(m1, es.push(e).drop_first(), factor_milli, post));
        }
    }
}

/// Build the frame tree from folded entries, scaling counts by the
/// factor at read time. Entries whose scaled count is zero are dropped,
/// as the builder only accepts positive counts.
///
/// On success the root is the synthetic `all` frame, satisfies the tree
/// invariant, counts exactly the total scaled weight of the input, and
/// is the prefix-merge of the entries. The error comes exactly when a
/// scaled count, or the scaled total, exceeds the 64-bit counter.
pub fn build_tree(entries: &Vec<Entry>, factor_milli: u64) -> (r: Result<Node, FoldError>)
    ensures
        match r {
            Ok(root) => {
                &&& wf_node(root)
                &&& root.count == total_scaled(entries_view(entries@), factor_milli)
                &&& root.name@ == seq![97u8, 108, 108]
                &&& !scaled_overflows(entries_view(entries@), factor_milli)
                &&& total_scaled(entries_view(entries@), factor_milli) <= u64::MAX
                &&& exists|r0: Node|
                    is_fresh_node(r0, seq![97u8, 108, 108]) && merged(
                        r0,
                        entries_view(entries@),
                        factor_milli,
                        root,
                    )
            },
            Err(e) => e == FoldError::CountOverflow && (scaled_overflows(
                entries_view(entries@),
                factor_milli,
            ) || total_scaled(entries_view(entries@), factor_milli) > u64::MAX),
        },
{
    let mut root = Node { name: all_name(), count: 0, self_count: 0, children: Vec::new() };
    let ghost r0 = root;
    proof {
        assert(root.children@ =~= Seq::<Node>::empty());
        assert(sum_counts(root.children@) == 0);
        assert(wf_node(root));
        assert(is_fresh_node(r0, seq![97u8, 108, 108]));
        assert(entries_view(entries@).take(0) =~= Seq::<(Seq<u8>, u64)>::empty());
        assert(merged(r0, entries_view(entries@).take(0), factor_milli, root));
    }
    let ghost ev = entries_view(entries@);
    let mut i: usize = 0;
    while i < entries.len()
        invariant
            0 <= i <= entries@.len(),
            ev == entries_view(entries@),
            wf_node(root),
            root.name@ == r0.name@,
            is_fresh_node(r0, seq![97u8, 108, 108]),
            root.count == total_scaled(ev.take(i as int), factor_milli),
            merged(r0, ev.take(i as int), factor_milli, root),
            forall|x: int| 0 <= x < i ==> spec_scaled((#[trigger] ev[x]).1, factor_milli)
                <= u64::MAX,
        decreases entries@.len() - i,
    {
        let e = &entries[i];
        let a: u128 = e.count as u128;
        let b: u128 = factor_milli as u128;
        proof {
            assert(a * b < 0x1_0000_0000_0000_0000_0000_0000_0000_0000) by (nonlinear_arith)
                requires
                    a < 0x1_0000_0000_0000_0000,
                    b < 0x1_0000_0000_0000_0000,
            ;
        }
        let scaled128: u128 = a * b / 1000;
        proof {
            assert(ev[i as int] == (entries@[i as int].key@, entries@[i as int].count));
            assert(ev.take(i + 1).drop_last() =~= ev.take(i as int));
            assert(ev.take(i + 1).last() == ev[i as int]);
        }
        if scaled128 > u64::MAX as u128 {
            proof {
                assert(spec_scaled(ev[i as int].1, factor_milli) > u64::MAX);
                assert(scaled_overflows(ev, factor_milli));
            }
            return Err(FoldError::CountOverflow);
        }
        let scaled: u64 = scaled128 as u64;
        let ghost prev_root = root;
        if scaled > 0 {
            if root.count > u64::MAX - scaled {
                proof {
                    lemma_total_scaled_take_le(ev, factor_milli, i + 1);
                }
                return Err(FoldError::CountOverflow);
            }
            let frames = crate::folded::split_semi(e.key.as_slice());
            let moved = take_node(&mut root);
            let n2 = add_stack(moved, &frames, 0, scaled);
            root = n2;
            proof {
                assert(frames@.map_values(|f: Vec<u8>| f@) == spec_split_semi(
                    ev[i as int].0,
                ));
                lemma_merged_snoc(r0, ev.take(i as int), ev[i as int], factor_milli, prev_root,
                    root);
                assert(ev.take(i as int).push(ev[i as int]) =~= ev.take(i + 1));
            }
        } else {
            proof {
                lemma_merged_snoc(r0, ev.take(i as int), ev[i as int], factor_milli, prev_root,
                    root);
                assert(ev.take(i as int).push(ev[i as int]) =~= ev.take(i + 1));
            }
        }
        i = i + 1;
    }
    proof {
        assert(ev.take(ev.len() as int) =~= ev);
        if scaled_overflows(ev, factor_milli) {
            let j = choose|j: int|
                0 <= j < ev.len() && spec_scaled((#[trigger] ev[j]).1, factor_milli) > u64::MAX;
            assert(spec_scaled(ev[j].1, factor_milli) <= u64::MAX);
        }
    }
    Ok(root)
}

/// Move the tree out of a mutable slot, leaving an empty placeholder.
fn take_node(slot: &mut Node) -> (r: Node)
    ensures
        r == *old(slot),
{
    let mut tmp = Node { name: Vec::new(), count: 0, self_count: 0, children: Vec::new() };
    core::mem::swap(&mut tmp, slot);
    tmp
}

/// The synthetic root frame name, `all`.
fn all_name() -> (r: Vec<u8>)
    ensures
        r@ =~= seq![97u8, 108, 108],
{
    let mut v: Vec<u8> = Vec::new();
    v.push(97);
    v.push(108);
    v.push(108);
    v
}

} // verus!
