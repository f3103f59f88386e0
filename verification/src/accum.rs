//! Aggregation of folded stacks: a mapping from stack key to summed
//! count, kept in first-occurrence order so that output is diff-stable.
//!
//! Both collapsers and the renderer's folded-input reader funnel their
//! samples through [`FoldAcc`]. Aggregation is weight preserving: the
//! mathematical sum of all stored counts equals the sum of all counts
//! ever added (stated by `lemma_add_total` and carried as an `ensures`
//! of [`FoldAcc::add`]).

use vstd::prelude::*;
use crate::folded::{entries_view, eview, wf_entry, wf_key, Entry};

verus! {

/// Sum of the counts of an entry list, as an unbounded integer.
pub open spec fn total_of(s: Seq<(Seq<u8>, u64)>) -> int
    decreases s.len(),
{
    if s.len() == 0 {
        0
    } else {
        total_of(s.drop_last()) + s.last().1
    }
}

/// No two entries share a stack key.
pub open spec fn keys_unique(s: Seq<(Seq<u8>, u64)>) -> bool {
    forall|i: int, j: int| 0 <= i < j < s.len() ==> s[i].0 != s[j].0
}

/// Index of `k` in the entry list, or `-1` if absent.
pub open spec fn find_key(s: Seq<(Seq<u8>, u64)>, k: Seq<u8>) -> int
    decreases s.len(),
{
    if s.len() == 0 {
        -1
    } else if s[0].0 == k {
        0
    } else {
        let r = find_key(s.drop_first(), k);
        if r == -1 {
            -1
        } else {
            1 + r
        }
    }
}

pub proof fn lemma_find_key(s: Seq<(Seq<u8>, u64)>, k: Seq<u8>)
    ensures
        -1 <= find_key(s, k) < s.len(),
        find_key(s, k) >= 0 ==> s[find_key(s, k)].0 == k,
        find_key(s, k) == -1 ==> forall|i: int| 0 <= i < s.len() ==> s[i].0 != k,
        find_key(s, k) >= 0 ==> forall|i: int| 0 <= i < find_key(s, k) ==> s[i].0 != k,
    decreases s.len(),
{
    if s.len() > 0 && s[0].0 != k {
        lemma_find_key(s.drop_first(), k);
        assert(forall|i: int| 1 <= i < s.len() ==> s[i] == s.drop_first()[i - 1]);
    }
}

/// Whether adding `c` under key `k` stays within the 64-bit counter.
pub open spec fn can_add(s: Seq<(Seq<u8>, u64)>, k: Seq<u8>, c: u64) -> bool {
    find_key(s, k) >= 0 ==> s[find_key(s, k)].1 + c <= u64::MAX
}

/// The entry list after adding `c` under `k`: a zero count is dropped,
/// an existing key is bumped in place, a new key is appended.
pub open spec fn spec_add(s: Seq<(Seq<u8>, u64)>, k: Seq<u8>, c: u64) -> Seq<(Seq<u8>, u64)> {
    if c == 0 {
        s
    } else {
        let i = find_key(s, k);
        if i >= 0 {
            s.update(i, (k, (s[i].1 + c) as u64))
        } else {
            s.push((k, c))
        }
    }
}

/// Aggregation preserves the mathematical sum of counts.
pub proof fn lemma_add_total(s: Seq<(Seq<u8>, u64)>, k: Seq<u8>, c: u64)
    requires
        can_add(s, k, c),
    ensures
        total_of(spec_add(s, k, c)) == total_of(s) + c,
{
    if c == 0 {
    } else {
        let i = find_key(s, k);
        lemma_find_key(s, k);
        if i >= 0 {
            lemma_total_update(s, i, (k, (s[i].1 + c) as u64));
        } else {
            assert(s.push((k, c)).drop_last() =~= s);
        }
    }
}

/// Updating one entry shifts the total by the difference of counts.
pub proof fn lemma_total_update(s: Seq<(Seq<u8>, u64)>, i: int, e: (Seq<u8>, u64))
    requires
        0 <= i < s.len(),
    ensures
        total_of(s.update(i, e)) == total_of(s) - s[i].1 + e.1,
    decreases s.len(),
{
    if i == s.len() - 1 {
        assert(s.update(i, e).drop_last() =~= s.drop_last());
        assert(s.update(i, e).last() == e);
    } else {
        lemma_total_update(s.drop_last(), i, e);
        assert(s.update(i, e).drop_last() =~= s.drop_last().update(i, e));
        assert(s.update(i, e).last() == s.last());
    }
}

/// Aggregation preserves key uniqueness and entry well-formedness.
pub proof fn lemma_add_wf(s: Seq<(Seq<u8>, u64)>, k: Seq<u8>, c: u64)
    requires
        keys_unique(s),
        forall|i: int| 0 <= i < s.len() ==> wf_entry((#[trigger] s[i]).0, s[i].1),
        c > 0 ==> wf_key(k),
        can_add(s, k, c),
    ensures
        keys_unique(spec_add(s, k, c)),
        forall|i: int|
            0 <= i < spec_add(s, k, c).len() ==> wf_entry(
                (#[trigger] spec_add(s, k, c)[i]).0,
                spec_add(s, k, c)[i].1,
            ),
{
    if c > 0 {
        let i = find_key(s, k);
        lemma_find_key(s, k);
        if i >= 0 {
            let t = s.update(i, (k, (s[i].1 + c) as u64));
            assert forall|x: int, y: int| 0 <= x < y < t.len() implies t[x].0 != t[y].0 by {
                assert(s[x].0 != s[y].0);
            }
        }
    }
}

/// The running aggregation map of a collapser.
pub struct FoldAcc {
    pub entries: Vec<Entry>,
}

impl FoldAcc {
    /// Mathematical value: the ordered entry list.
    pub open spec fn view(&self) -> Seq<(Seq<u8>, u64)> {
        entries_view(self.entries@)
    }

    /// All stored entries are well formed and their keys unique.
    pub open spec fn wf(&self) -> bool {
        &&& keys_unique(self@)
        &&& forall|i: int| 0 <= i < self@.len() ==> wf_entry((#[trigger] self@[i]).0, self@[i].1)
    }

    pub fn new() -> (r: FoldAcc)
        ensures
            r@ =~= Seq::<(Seq<u8>, u64)>::empty(),
            r.wf(),
    {
        FoldAcc { entries: Vec::new() }
    }

    /// Add `count` samples of the stack `key`. Returns `false` exactly
    /// when the 64-bit counter for that stack would overflow, leaving
    /// the accumulator unchanged.
    pub fn add(&mut self, key: Vec<u8>, count: u64) -> (r: bool)
        requires
            old(self).wf(),
            count > 0 ==> wf_key(key@),
        ensures
            final(self).wf(),
            r == can_add(old(self)@, key@, count),
            r ==> final(self)@ == spec_add(old(self)@, key@, count),
            r ==> total_of(final(self)@) == total_of(old(self)@) + count,
            !r ==> final(self)@ == old(self)@,
    {
        proof {
            lemma_find_key(self@, key@);
        }
        if count == 0 {
            return true;
        }
        let ghost prev = self@;
        let mut i: usize = 0;
        while i < self.entries.len()
            invariant
                0 <= i <= self.entries@.len(),
                self@ == prev,
                prev == old(self)@,
                old(self).wf(),
                count > 0 && wf_key(key@),
                forall|x: int| 0 <= x < i ==> (#[trigger] prev[x]).0 != key@,
            decreases self.entries@.len() - i,
        {
            let hit = {
                let e = &self.entries[i];
                vec_u8_eq(&e.key, &key)
            };
            if hit {
                proof {
                    assert(prev[i as int].0 == key@);
                    assert(find_key(prev, key@) == i as int) by {
                        lemma_find_key_at(prev, key@, i as int);
                    }
                }
                let old_count = self.entries[i].count;
                proof {
                    assert(prev[i as int] == eview(self.entries@[i as int]));
                    assert(prev[i as int].1 == old_count);
                }
                if old_count > u64::MAX - count {
                    return false;
                }
                let updated = Entry { key, count: old_count + count };
                self.entries.set(i, updated);
                proof {
                    assert(self@ =~~= spec_add(prev, key@, count));
                    lemma_add_total(prev, key@, count);
                    lemma_add_wf(prev, key@, count);
                }
                return true;
            }
            i = i + 1;
        }
        proof {
            lemma_find_key(prev, key@);
            assert(find_key(prev, key@) == -1);
        }
        let ghost kview = key@;
        self.entries.push(Entry { key, count });
        proof {
            assert(self@ =~~= spec_add(prev, kview, count));
            lemma_add_total(prev, kview, count);
            lemma_add_wf(prev, kview, count);
        }
        true
    }

    /// Hand the aggregated entries out, in first-occurrence order.
    pub fn into_entries(self) -> (r: Vec<Entry>)
        ensures
            entries_view(r@) == self@,
    {
        self.entries
    }
}

/// If `s[i]` has key `k` and nothing before it does, `i` is the find index.
pub proof fn lemma_find_key_at(s: Seq<(Seq<u8>, u64)>, k: Seq<u8>, i: int)
    requires
        0 <= i < s.len(),
        s[i].0 == k,
        forall|x: int| 0 <= x < i ==> s[x].0 != k,
    ensures
        find_key(s, k) == i,
    decreases i,
{
    if i > 0 {
        lemma_find_key_at(s.drop_first(), k, i - 1);
        assert(forall|x: int| 0 <= x < s.drop_first().len() ==> s.drop_first()[x] == s[x + 1]);
    }
}

/// Byte-vector equality, reflected into the views.
pub fn vec_u8_eq(a: &Vec<u8>, b: &Vec<u8>) -> (r: bool)
    ensures
        r == (a@ == b@),
{
    if a.len() != b.len() {
        proof {
            assert(a@ != b@) by {
                assert(a@.len() != b@.len());
            }
        }
        return false;
    }
    let mut i: usize = 0;
    while i < a.len()
        invariant
            0 <= i <= a@.len(),
            a@.len() == b@.len(),
            forall|x: int| 0 <= x < i ==> a@[x] == b@[x],
        decreases a@.len() - i,
    {
        if a[i] != b[i] {
            return false;
        }
        i = i + 1;
    }
    proof {
        assert(a@ =~= b@);
    }
    true
}

} // verus!
