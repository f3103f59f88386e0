//! Per-frame attribute sidecar: a mapping from frame name to extra SVG
//! attributes for that frame's group element.
//!
//! Each input line is `NAME<TAB>KEY=VALUE(<TAB>KEY=VALUE)*`. Only the
//! documented keys are kept: `href`, `target`, `title`, `class`,
//! `style`, `g_extra`; pairs with other keys, and lines without a
//! single valid pair, are skipped. Parsing is pinned to a spec model of
//! this grammar, so the loaded map is a function of the file bytes.

use vstd::prelude::*;
use crate::util::{copy_range, spec_lines, split_lines, B_TAB};

verus! {

/// ASCII `=`.
pub const B_EQ: u8 = 61;

/// The recognized attribute keys.
pub open spec fn is_recognized_key(k: Seq<u8>) -> bool {
    ||| k == seq![104u8, 114, 101, 102]  // href
    ||| k == seq![116u8, 97, 114, 103, 101, 116]  // target
    ||| k == seq![116u8, 105, 116, 108, 101]  // title
    ||| k == seq![99u8, 108, 97, 115, 115]  // class
    ||| k == seq![115u8, 116, 121, 108, 101]  // style
    ||| k == seq![103u8, 95, 101, 120, 116, 114, 97]  // g_extra
}

/// Exec check for a recognized key.
fn recognized_key(k: &[u8]) -> (r: bool)
    ensures
        r == is_recognized_key(k@),
{
    if k.len() == 4 && k[0] == 104 && k[1] == 114 && k[2] == 101 && k[3] == 102 {
        proof {
            assert(k@ =~= seq![104u8, 114, 101, 102]);
        }
        return true;
    }
    if k.len() == 6 && k[0] == 116 && k[1] == 97 && k[2] == 114 && k[3] == 103 && k[4] == 101
        && k[5] == 116 {
        proof {
            assert(k@ =~= seq![116u8, 97, 114, 103, 101, 116]);
        }
        return true;
    }
    if k.len() == 5 && k[0] == 116 && k[1] == 105 && k[2] == 116 && k[3] == 108 && k[4] == 101 {
        proof {
            assert(k@ =~= seq![116u8, 105, 116, 108, 101]);
        }
        return true;
    }
    if k.len() == 5 && k[0] == 99 && k[1] == 108 && k[2] == 97 && k[3] == 115 && k[4] == 115 {
        proof {
            assert(k@ =~= seq![99u8, 108, 97, 115, 115]);
        }
        return true;
    }
    if k.len() == 5 && k[0] == 115 && k[1] == 116 && k[2] == 121 && k[3] == 108 && k[4] == 101 {
        proof {
            assert(k@ =~= seq![115u8, 116, 121, 108, 101]);
        }
        return true;
    }
    if k.len() == 7 && k[0] == 103 && k[1] == 95 && k[2] == 101 && k[3] == 120 && k[4] == 116
        && k[5] == 114 && k[6] == 97 {
        proof {
            assert(k@ =~= seq![103u8, 95, 101, 120, 116, 114, 97]);
        }
        return true;
    }
    proof {
        if is_recognized_key(k@) {
            assert(false);
        }
    }
    false
}

/// Index of the first tab in `s`, or `s.len()` if there is none.
pub open spec fn first_tab(s: Seq<u8>) -> int
    decreases s.len(),
{
    if s.len() == 0 {
        0
    } else if s[0] == B_TAB {
        0
    } else {
        1 + first_tab(s.drop_first())
    }
}

pub proof fn lemma_first_tab(s: Seq<u8>)
    ensures
        0 <= first_tab(s) <= s.len(),
        first_tab(s) < s.len() ==> s[first_tab(s)] == B_TAB,
        forall|i: int| 0 <= i < first_tab(s) ==> s[i] != B_TAB,
    decreases s.len(),
{
    if s.len() > 0 && s[0] != B_TAB {
        lemma_first_tab(s.drop_first());
        assert forall|i: int| 0 <= i < first_tab(s) implies s[i] != B_TAB by {
            if i > 0 {
                assert(s.drop_first()[i - 1] == s[i]);
            }
        }
    }
}

pub proof fn lemma_first_tab_at(s: Seq<u8>, p: int)
    requires
        0 <= p < s.len(),
        forall|i: int| 0 <= i < p ==> s[i] != B_TAB,
        s[p] == B_TAB,
    ensures
        first_tab(s) == p,
    decreases p,
{
    if p > 0 {
        lemma_first_tab_at(s.drop_first(), p - 1);
    }
}

pub proof fn lemma_first_tab_none(s: Seq<u8>)
    requires
        forall|i: int| 0 <= i < s.len() ==> s[i] != B_TAB,
    ensures
        first_tab(s) == s.len(),
    decreases s.len(),
{
    if s.len() > 0 {
        lemma_first_tab_none(s.drop_first());
    }
}

/// A line split on tabs, every segment kept.
pub open spec fn spec_split_tabs(s: Seq<u8>) -> Seq<Seq<u8>>
    decreases s.len() via spec_split_tabs_decreases
{
    let p = first_tab(s);
    if p == s.len() {
        seq![s]
    } else {
        seq![s.take(p)] + spec_split_tabs(s.skip(p + 1))
    }
}

#[via_fn]
proof fn spec_split_tabs_decreases(s: Seq<u8>) {
    lemma_first_tab(s);
}

/// Split one line on tabs.
fn split_tabs(t: &[u8]) -> (r: Vec<Vec<u8>>)
    ensures
        r@.map_values(|f: Vec<u8>| f@) == spec_split_tabs(t@),
{
    let mut out: Vec<Vec<u8>> = Vec::new();
    let mut start: usize = 0;
    let mut i: usize = 0;
    proof {
        assert(t@.skip(0) =~= t@);
    }
    while i < t.len()
        invariant
            0 <= start <= i <= t@.len(),
            forall|x: int| start <= x < i ==> t@[x] != B_TAB,
            spec_split_tabs(t@) =~~= out@.map_values(|f: Vec<u8>| f@) + spec_split_tabs(
                t@.skip(start as int),
            ),
        decreases t@.len() - i,
    {
        if t[i] == B_TAB {
            let piece = copy_range(t, start, i);
            proof {
                let rest = t@.skip(start as int);
                assert(first_tab(rest) == i - start) by {
                    lemma_first_tab_at(rest, i - start);
                }
                assert(rest.take(i - start) =~= t@.subrange(start as int, i as int));
                assert(rest.skip(i - start + 1) =~= t@.skip(i + 1));
                assert(spec_split_tabs(rest) =~~= seq![piece@] + spec_split_tabs(t@.skip(i + 1)));
            }
            out.push(piece);
            proof {
                assert(spec_split_tabs(t@) =~~= out@.map_values(|f: Vec<u8>| f@)
                    + spec_split_tabs(t@.skip(i + 1)));
            }
            start = i + 1;
        }
        i = i + 1;
    }
    let piece = copy_range(t, start, t.len());
    proof {
        let rest = t@.skip(start as int);
        lemma_first_tab_none(rest);
        assert(rest.take(rest.len() as int) =~= rest);
        assert(spec_split_tabs(rest) =~~= seq![piece@]);
        assert(piece@ =~= rest);
    }
    out.push(piece);
    proof {
        assert(out@.map_values(|f: Vec<u8>| f@) =~~= spec_split_tabs(t@));
    }
    out
}

/// Index of the first `=` in `s`, or `s.len()` if there is none.
pub open spec fn first_eq(s: Seq<u8>) -> int
    decreases s.len(),
{
    if s.len() == 0 {
        0
    } else if s[0] == B_EQ {
        0
    } else {
        1 + first_eq(s.drop_first())
    }
}

pub proof fn lemma_first_eq(s: Seq<u8>)
    ensures
        0 <= first_eq(s) <= s.len(),
        first_eq(s) < s.len() ==> s[first_eq(s)] == B_EQ,
        forall|i: int| 0 <= i < first_eq(s) ==> s[i] != B_EQ,
    decreases s.len(),
{
    if s.len() > 0 && s[0] != B_EQ {
        lemma_first_eq(s.drop_first());
        assert forall|i: int| 0 <= i < first_eq(s) implies s[i] != B_EQ by {
            if i > 0 {
                assert(s.drop_first()[i - 1] == s[i]);
            }
        }
    }
}

pub proof fn lemma_first_eq_at(s: Seq<u8>, p: int)
    requires
        0 <= p < s.len(),
        forall|i: int| 0 <= i < p ==> s[i] != B_EQ,
        s[p] == B_EQ,
    ensures
        first_eq(s) == p,
    decreases p,
{
    if p > 0 {
        lemma_first_eq_at(s.drop_first(), p - 1);
    }
}

pub proof fn lemma_first_eq_none(s: Seq<u8>)
    requires
        forall|i: int| 0 <= i < s.len() ==> s[i] != B_EQ,
    ensures
        first_eq(s) == s.len(),
    decreases s.len(),
{
    if s.len() > 0 {
        lemma_first_eq_none(s.drop_first());
    }
}

/// A `KEY=VALUE` field: split at the first `=`, the key non-empty.
pub open spec fn spec_pair(f: Seq<u8>) -> Option<(Seq<u8>, Seq<u8>)> {
    let e = first_eq(f);
    if 0 < e < f.len() {
        Some((f.take(e), f.skip(e + 1)))
    } else {
        None
    }
}

/// The recognized pairs among fields `i..`, in order.
pub open spec fn spec_pairs(fields: Seq<Seq<u8>>, i: int) -> Seq<(Seq<u8>, Seq<u8>)>
    decreases fields.len() - i,
{
    if i < 0 || i >= fields.len() {
        Seq::empty()
    } else {
        match spec_pair(fields[i]) {
            Option::Some(p) => {
                if is_recognized_key(p.0) {
                    seq![p] + spec_pairs(fields, i + 1)
                } else {
                    spec_pairs(fields, i + 1)
                }
            },
            Option::None => spec_pairs(fields, i + 1),
        }
    }
}

/// One sidecar line: a frame name, a tab, and at least one recognized
/// pair; anything else contributes nothing.
pub open spec fn spec_attr_line(line: Seq<u8>) -> Option<(Seq<u8>, Seq<(Seq<u8>, Seq<u8>)>)> {
    let fields = spec_split_tabs(line);
    if fields.len() >= 2 && fields[0].len() > 0 {
        let ps = spec_pairs(fields, 1);
        if ps.len() > 0 {
            Some((fields[0], ps))
        } else {
            None
        }
    } else {
        None
    }
}

/// The parsed sidecar: accepted lines in order.
pub open spec fn spec_attr_lines(lines: Seq<Seq<u8>>) -> Seq<(Seq<u8>, Seq<(Seq<u8>, Seq<u8>)>)>
    decreases lines.len(),
{
    if lines.len() == 0 {
        Seq::empty()
    } else {
        (match spec_attr_line(lines[0]) {
            Option::Some(e) => seq![e],
            Option::None => Seq::empty(),
        }) + spec_attr_lines(lines.drop_first())
    }
}

/// Mathematical value of stored pairs.
pub open spec fn pairs_view(ps: Seq<(Vec<u8>, Vec<u8>)>) -> Seq<(Seq<u8>, Seq<u8>)> {
    ps.map_values(|p: (Vec<u8>, Vec<u8>)| (p.0@, p.1@))
}

/// Mathematical value of the whole map.
pub open spec fn attrs_view(es: Seq<(Vec<u8>, Vec<(Vec<u8>, Vec<u8>)>)>) -> Seq<
    (Seq<u8>, Seq<(Seq<u8>, Seq<u8>)>),
> {
    es.map_values(|e: (Vec<u8>, Vec<(Vec<u8>, Vec<u8>)>)| (e.0@, pairs_view(e.1@)))
}

/// Attributes for the frames of particular functions.
pub struct FrameAttrs {
    pub entries: Vec<(Vec<u8>, Vec<(Vec<u8>, Vec<u8>)>)>,
}

impl FrameAttrs {
    /// Every stored pair uses a recognized key.
    pub open spec fn wf(&self) -> bool {
        forall|i: int, j: int|
            0 <= i < self.entries@.len() && 0 <= j < (#[trigger] self.entries@[i]).1@.len()
                ==> is_recognized_key((#[trigger] self.entries@[i].1@[j]).0@)
    }

    /// An empty attribute map.
    pub fn new() -> (r: FrameAttrs)
        ensures
            r.wf(),
            r.entries@.len() == 0,
    {
        FrameAttrs { entries: Vec::new() }
    }

    /// Index of the first entry for `name`: `None` exactly when no
    /// entry bears the name.
    pub fn find(&self, name: &[u8]) -> (r: Option<usize>)
        ensures
            match r {
                Some(i) => i < self.entries@.len() && self.entries@[i as int].0@ == name@
                    && forall|x: int| 0 <= x < i ==> (#[trigger] self.entries@[x]).0@ != name@,
                None => forall|x: int|
                    0 <= x < self.entries@.len() ==> (#[trigger] self.entries@[x]).0@ != name@,
            },
    {
        let mut i: usize = 0;
        while i < self.entries.len()
            invariant
                0 <= i <= self.entries@.len(),
                forall|x: int| 0 <= x < i ==> (#[trigger] self.entries@[x]).0@ != name@,
            decreases self.entries@.len() - i,
        {
            let hit = crate::palette_map::slice_eq(self.entries[i].0.as_slice(), name);
            if hit {
                return Some(i);
            }
            i = i + 1;
        }
        None
    }
}

/// Parse a sidecar file: exactly the accepted lines, in input order.
pub fn parse_frame_attrs(input: &[u8]) -> (r: FrameAttrs)
    ensures
        r.wf(),
        attrs_view(r.entries@) == spec_attr_lines(spec_lines(input@)),
{
    let lines = split_lines(input);
    let ghost lviews = lines@.map_values(|l: Vec<u8>| l@);
    let mut out = FrameAttrs { entries: Vec::new() };
    let mut li: usize = 0;
    proof {
        assert(lviews.skip(0) =~= lviews);
        assert(attrs_view(out.entries@) =~~= Seq::<(Seq<u8>, Seq<(Seq<u8>, Seq<u8>)>)>::empty());
    }
    while li < lines.len()
        invariant
            0 <= li <= lines@.len(),
            out.wf(),
            lviews == lines@.map_values(|l: Vec<u8>| l@),
            spec_attr_lines(lviews) =~~= attrs_view(out.entries@) + spec_attr_lines(
                lviews.skip(li as int),
            ),
        decreases lines@.len() - li,
    {
        proof {
            assert(lviews.skip(li as int)[0] == lviews[li as int]);
            assert(lviews.skip(li as int).drop_first() =~= lviews.skip(li + 1));
            assert(lviews[li as int] == lines@[li as int]@);
        }
        let fields = split_tabs(lines[li].as_slice());
        let ghost fv = fields@.map_values(|f: Vec<u8>| f@);
        if fields.len() >= 2 && fields[0].len() > 0 {
            let mut pairs: Vec<(Vec<u8>, Vec<u8>)> = Vec::new();
            let mut fi: usize = 1;
            proof {
                assert(pairs_view(pairs@) =~~= Seq::<(Seq<u8>, Seq<u8>)>::empty());
            }
            while fi < fields.len()
                invariant
                    1 <= fi <= fields@.len(),
                    fv == fields@.map_values(|f: Vec<u8>| f@),
                    spec_pairs(fv, 1) =~~= pairs_view(pairs@) + spec_pairs(fv, fi as int),
                    forall|j: int|
                        0 <= j < pairs@.len() ==> is_recognized_key(
                            (#[trigger] pairs@[j]).0@,
                        ),
                decreases fields@.len() - fi,
            {
                let f = &fields[fi];
                proof {
                    assert(fv[fi as int] == fields@[fi as int]@);
                    lemma_first_eq(f@);
                }
                // split at the first `=`
                let mut eq: usize = 0;
                let mut has_eq: bool = false;
                let mut x: usize = 0;
                while x < f.len()
                    invariant
                        0 <= x <= f@.len(),
                        has_eq ==> eq < x && f@[eq as int] == B_EQ,
                        has_eq ==> forall|i: int| 0 <= i < eq ==> f@[i] != B_EQ,
                        !has_eq ==> forall|i: int| 0 <= i < x ==> f@[i] != B_EQ,
                    decreases f@.len() - x,
                {
                    if !has_eq && f[x] == B_EQ {
                        eq = x;
                        has_eq = true;
                    }
                    x = x + 1;
                }
                proof {
                    if has_eq {
                        lemma_first_eq_at(f@, eq as int);
                    } else {
                        lemma_first_eq_none(f@);
                    }
                }
                let ghost before = pairs@;
                if has_eq && eq > 0 {
                    let key = copy_range(f.as_slice(), 0, eq);
                    let value = copy_range(f.as_slice(), eq + 1, f.len());
                    proof {
                        assert(key@ =~= f@.take(eq as int));
                        assert(value@ =~= f@.skip(eq as int + 1));
                    }
                    if recognized_key(key.as_slice()) {
                        pairs.push((key, value));
                        proof {
                            assert(pairs_view(pairs@) =~~= pairs_view(before) + seq![
                                (f@.take(eq as int), f@.skip(eq as int + 1)),
                            ]);
                        }
                    }
                }
                proof {
                    assert(spec_pairs(fv, 1) =~~= pairs_view(pairs@) + spec_pairs(fv, fi + 1));
                }
                fi = fi + 1;
            }
            proof {
                assert(spec_pairs(fv, fields@.len() as int) =~~= Seq::<
                    (Seq<u8>, Seq<u8>),
                >::empty());
                assert(spec_pairs(fv, 1) =~~= pairs_view(pairs@));
            }
            if pairs.len() > 0 {
                let name = copy_range(fields[0].as_slice(), 0, fields[0].len());
                let ghost before = out.entries@;
                proof {
                    assert(name@ =~= fv[0]);
                    assert(fv[0] == fields@[0]@);
                }
                out.entries.push((name, pairs));
                proof {
                    assert(attrs_view(out.entries@) =~~= attrs_view(before) + seq![
                        (fv[0], spec_pairs(fv, 1)),
                    ]);
                    assert(spec_attr_line(lviews[li as int]) == Some(
                        (fv[0], spec_pairs(fv, 1)),
                    ));
                    assert forall|i: int, j: int|
                        0 <= i < out.entries@.len() && 0 <= j < (
                        #[trigger] out.entries@[i]).1@.len() implies is_recognized_key(
                        (#[trigger] out.entries@[i].1@[j]).0@,
                    ) by {
                        if i < before.len() {
                            assert(out.entries@[i] == before[i]);
                        }
                    }
                }
            } else {
                proof {
                    assert(spec_attr_line(lviews[li as int]) is None);
                }
            }
        } else {
            proof {
                assert(spec_attr_line(lviews[li as int]) is None);
            }
        }
        proof {
            assert(spec_attr_lines(lviews.skip(li as int)) =~~= (match spec_attr_line(
                lviews[li as int],
            ) {
                Option::Some(e) => seq![e],
                Option::None => Seq::<(Seq<u8>, Seq<(Seq<u8>, Seq<u8>)>)>::empty(),
            }) + spec_attr_lines(lviews.skip(li + 1)));
            assert(spec_attr_lines(lviews) =~~= attrs_view(out.entries@) + spec_attr_lines(
                lviews.skip(li + 1),
            ));
        }
        li = li + 1;
    }
    proof {
        assert(spec_attr_lines(lviews.skip(lviews.len() as int)).len() == 0);
        assert(attrs_view(out.entries@) =~~= spec_attr_lines(lviews));
        assert(attrs_view(out.entries@) =~~= spec_attr_lines(spec_lines(input@)));
    }
    out
}

} // verus!
