//! The persistable palette map: frame name to RGB triple, loaded before
//! a render, consulted and extended during it, and saved afterwards so
//! that colors stay consistent across graphs.
//!
//! The file format is one entry per line, `NAME->rgb(R,G,B)` with each
//! component written as exactly three digits; lines in any other shape
//! are ignored on load. Saving and loading are exact inverses on
//! well-formed maps, and a resolved color is stable: once a frame has a
//! color in the map, later resolutions return it unchanged.

use vstd::prelude::*;
use crate::color::Rgb;
use crate::util::{is_digit, no_nl, B_NL, spec_lines, split_lines};

verus! {

/// `->rgb(` then three 3-digit components separated by commas, closed by
/// `)`: 18 bytes after the name.
pub open spec fn spec_d3(n: u8) -> Seq<u8> {
    seq![(48 + n / 100) as u8, (48 + (n / 10) % 10) as u8, (48 + n % 10) as u8]
}

/// The serialized palette-map line for one entry.
pub open spec fn spec_pline(name: Seq<u8>, c: Rgb) -> Seq<u8> {
    name + seq![45u8, 62, 114, 103, 98, 40] + spec_d3(c.red) + seq![44u8] + spec_d3(c.green)
        + seq![44u8] + spec_d3(c.blue) + seq![41u8]
}

/// Value of three digit bytes.
pub open spec fn spec_d3_val(a: u8, b: u8, c: u8) -> int {
    (a - 48) * 100 + (b - 48) * 10 + (c - 48)
}

/// Index of the last `(` in `s`, or `-1` if there is none.
pub open spec fn last_lparen(s: Seq<u8>) -> int
    decreases s.len(),
{
    if s.len() == 0 {
        -1
    } else if s.last() == 40 {
        s.len() - 1
    } else {
        last_lparen(s.drop_last())
    }
}

pub proof fn lemma_last_lparen(s: Seq<u8>)
    ensures
        -1 <= last_lparen(s) < s.len(),
        last_lparen(s) >= 0 ==> s[last_lparen(s)] == 40,
        forall|i: int| last_lparen(s) < i < s.len() ==> s[i] != 40,
    decreases s.len(),
{
    if s.len() > 0 && s.last() != 40 {
        lemma_last_lparen(s.drop_last());
        assert forall|i: int| last_lparen(s) < i < s.len() implies s[i] != 40 by {
            if i < s.len() - 1 {
                assert(s.drop_last()[i] == s[i]);
            }
        }
    }
}

pub proof fn lemma_last_lparen_at(s: Seq<u8>, j: int)
    requires
        0 <= j < s.len(),
        s[j] == 40,
        forall|i: int| j < i < s.len() ==> s[i] != 40,
    ensures
        last_lparen(s) == j,
    decreases s.len(),
{
    if j < s.len() - 1 {
        lemma_last_lparen_at(s.drop_last(), j);
    }
}

pub proof fn lemma_last_lparen_none(s: Seq<u8>)
    requires
        forall|i: int| 0 <= i < s.len() ==> s[i] != 40,
    ensures
        last_lparen(s) == -1,
    decreases s.len(),
{
    if s.len() > 0 {
        lemma_last_lparen_none(s.drop_last());
    }
}

/// Index of the first `,` in `s`, or `s.len()` if there is none.
pub open spec fn first_comma(s: Seq<u8>) -> int
    decreases s.len(),
{
    if s.len() == 0 {
        0
    } else if s[0] == 44 {
        0
    } else {
        1 + first_comma(s.drop_first())
    }
}

pub proof fn lemma_first_comma(s: Seq<u8>)
    ensures
        0 <= first_comma(s) <= s.len(),
        first_comma(s) < s.len() ==> s[first_comma(s)] == 44,
        forall|i: int| 0 <= i < first_comma(s) ==> s[i] != 44,
    decreases s.len(),
{
    if s.len() > 0 && s[0] != 44 {
        lemma_first_comma(s.drop_first());
        assert forall|i: int| 0 <= i < first_comma(s) implies s[i] != 44 by {
            if i > 0 {
                assert(s.drop_first()[i - 1] == s[i]);
            }
        }
    }
}

pub proof fn lemma_first_comma_at(s: Seq<u8>, j: int)
    requires
        0 <= j < s.len(),
        s[j] == 44,
        forall|i: int| 0 <= i < j ==> s[i] != 44,
    ensures
        first_comma(s) == j,
    decreases j,
{
    if j > 0 {
        lemma_first_comma_at(s.drop_first(), j - 1);
    }
}

pub proof fn lemma_first_comma_none(s: Seq<u8>)
    requires
        forall|i: int| 0 <= i < s.len() ==> s[i] != 44,
    ensures
        first_comma(s) == s.len(),
    decreases s.len(),
{
    if s.len() > 0 {
        lemma_first_comma_none(s.drop_first());
    }
}

/// One color component: one or more digits valued at most 255.
pub open spec fn spec_comp(s: Seq<u8>) -> Option<u8> {
    if s.len() >= 1 && crate::util::all_digits(s) && crate::util::dec_val(s) <= 255 {
        Some(crate::util::dec_val(s) as u8)
    } else {
        None
    }
}

/// Exact parse of one palette-map line, `NAME->rgb(R,G,B)` with each
/// component one to three digits in `0..=255`: split at the last `(`,
/// which must close the `->rgb` marker, and at the commas between the
/// components. Everything before the marker is the name.
pub open spec fn spec_parse_pline(line: Seq<u8>) -> Option<(Seq<u8>, Rgb)> {
    let n = line.len() as int;
    let q = last_lparen(line);
    if n < 12 || q < 5 || line[q - 5] != 45 || line[q - 4] != 62 || line[q - 3] != 114
        || line[q - 2] != 103 || line[q - 1] != 98 || line[n - 1] != 41 {
        None
    } else {
        let mid = line.subrange(q + 1, n - 1);
        let c1 = first_comma(mid);
        if c1 >= mid.len() {
            None
        } else {
            let rest = mid.skip(c1 + 1);
            let c2 = first_comma(rest);
            if c2 >= rest.len() {
                None
            } else {
                match (spec_comp(mid.take(c1)), spec_comp(rest.take(c2)), spec_comp(
                    rest.skip(c2 + 1),
                )) {
                    (Some(r), Some(g), Some(b)) => Some(
                        (line.take(q - 5), Rgb { red: r, green: g, blue: b }),
                    ),
                    _ => None,
                }
            }
        }
    }
}

/// Three-digit decomposition evaluates back to the component.
pub proof fn lemma_d3_val(n: u8)
    ensures
        spec_d3_val((48 + n / 100) as u8, (48 + (n / 10) % 10) as u8, (48 + n % 10) as u8)
            == n,
        is_digit((48 + n / 100) as u8),
        is_digit((48 + (n / 10) % 10) as u8),
        is_digit((48 + n % 10) as u8),
{
    assert(n == 100 * (n / 100) + 10 * ((n / 10) % 10) + n % 10) by {
        assert(n / 10 == 10 * (n / 100) + (n / 10) % 10) by {
            assert(n / 10 / 10 == n / 100) by (nonlinear_arith);
            assert(n / 10 == 10 * (n / 10 / 10) + (n / 10) % 10) by (nonlinear_arith);
        }
        assert(n == 10 * (n / 10) + n % 10) by (nonlinear_arith);
    }
}

/// A canonical three-digit component evaluates to its value.
pub proof fn lemma_d3_dec(n: u8)
    ensures
        crate::util::all_digits(spec_d3(n)),
        crate::util::dec_val(spec_d3(n)) == n,
        spec_d3(n).len() == 3,
{
    lemma_d3_val(n);
    let s = spec_d3(n);
    let a = (48 + n / 100) as u8;
    let b = (48 + (n / 10) % 10) as u8;
    let c = (48 + n % 10) as u8;
    assert(a == 48 + n / 100 && b == 48 + (n / 10) % 10 && c == 48 + n % 10);
    assert(s.drop_last() =~= seq![a, b]);
    assert(seq![a, b].drop_last() =~= seq![a]);
    assert(seq![a].drop_last() =~= Seq::<u8>::empty());
    assert(crate::util::dec_val(Seq::<u8>::empty()) == 0);
    assert(crate::util::dec_val(seq![a].drop_last()) == 0);
    assert(seq![a].last() == a);
    assert(crate::util::dec_val(seq![a]) == a - 48);
    assert(crate::util::dec_val(seq![a, b]) == (a - 48) * 10 + (b - 48));
    assert(crate::util::dec_val(s) == ((a - 48) * 10 + (b - 48)) * 10 + (c - 48));
    assert(spec_d3_val(a, b, c) == n);
}

/// A serialized line parses back to its entry.
pub proof fn lemma_pline_roundtrip(name: Seq<u8>, c: Rgb)
    requires
        name.len() >= 1,
    ensures
        spec_parse_pline(spec_pline(name, c)) == Some((name, c)),
{
    let line = spec_pline(name, c);
    lemma_d3_dec(c.red);
    lemma_d3_dec(c.green);
    lemma_d3_dec(c.blue);
    let n = line.len() as int;
    assert(n == name.len() + 18);
    let q = name.len() as int + 5;
    assert(line[q] == 40);
    assert forall|i: int| q < i < n implies line[i] != 40 by {
        if i < q + 4 {
            assert(line[i] == spec_d3(c.red)[i - q - 1]);
            assert(crate::util::is_digit(line[i]));
        } else if i == q + 4 {
        } else if i < q + 8 {
            assert(line[i] == spec_d3(c.green)[i - q - 5]);
            assert(crate::util::is_digit(line[i]));
        } else if i == q + 8 {
        } else if i < q + 12 {
            assert(line[i] == spec_d3(c.blue)[i - q - 9]);
            assert(crate::util::is_digit(line[i]));
        }
    }
    lemma_last_lparen_at(line, q);
    let mid = line.subrange(q + 1, n - 1);
    assert(mid =~= spec_d3(c.red) + seq![44u8] + spec_d3(c.green) + seq![44u8] + spec_d3(
        c.blue,
    ));
    assert(mid[3] == 44);
    assert forall|i: int| 0 <= i < 3 implies mid[i] != 44 by {
        assert(mid[i] == spec_d3(c.red)[i]);
        assert(crate::util::is_digit(mid[i]));
    }
    lemma_first_comma_at(mid, 3);
    assert(mid.take(3) =~= spec_d3(c.red));
    let rest = mid.skip(4);
    assert(rest =~= spec_d3(c.green) + seq![44u8] + spec_d3(c.blue));
    assert(rest[3] == 44);
    assert forall|i: int| 0 <= i < 3 implies rest[i] != 44 by {
        assert(rest[i] == spec_d3(c.green)[i]);
        assert(crate::util::is_digit(rest[i]));
    }
    lemma_first_comma_at(rest, 3);
    assert(rest.take(3) =~= spec_d3(c.green));
    assert(rest.skip(4) =~= spec_d3(c.blue));
    assert(line.take(q - 5) =~= name);
}

/// A serialized line holds no newline when the name holds none.
pub proof fn lemma_pline_no_nl(name: Seq<u8>, c: Rgb)
    requires
        no_nl(name),
    ensures
        no_nl(spec_pline(name, c)),
{
    let line = spec_pline(name, c);
    assert forall|i: int| 0 <= i < line.len() implies line[i] != B_NL by {
        if i < name.len() {
            assert(line[i] == name[i]);
        }
    }
}

/// Index of `name` in the entry list, or `-1`.
pub open spec fn pm_find(s: Seq<(Seq<u8>, Rgb)>, name: Seq<u8>) -> int
    decreases s.len(),
{
    if s.len() == 0 {
        -1
    } else if s[0].0 == name {
        0
    } else {
        let r = pm_find(s.drop_first(), name);
        if r == -1 {
            -1
        } else {
            1 + r
        }
    }
}

pub proof fn lemma_pm_find(s: Seq<(Seq<u8>, Rgb)>, name: Seq<u8>)
    ensures
        -1 <= pm_find(s, name) < s.len(),
        pm_find(s, name) >= 0 ==> s[pm_find(s, name)].0 == name,
        pm_find(s, name) == -1 ==> forall|i: int| 0 <= i < s.len() ==> s[i].0 != name,
    decreases s.len(),
{
    if s.len() > 0 && s[0].0 != name {
        lemma_pm_find(s.drop_first(), name);
        assert(forall|i: int| 1 <= i < s.len() ==> s[i] == s.drop_first()[i - 1]);
    }
}

/// Resolving a frame: the stored color wins; a new frame is added with
/// the computed color.
pub open spec fn spec_resolve(s: Seq<(Seq<u8>, Rgb)>, name: Seq<u8>, computed: Rgb) -> (
    Rgb,
    Seq<(Seq<u8>, Rgb)>,
) {
    let i = pm_find(s, name);
    if i >= 0 {
        (s[i].1, s)
    } else {
        (computed, s.push((name, computed)))
    }
}

/// `m2` extends `m1`: all of `m1`'s entries stand unchanged at their
/// positions. Rendering only ever appends to the palette map.
pub open spec fn pm_extends(m2: Seq<(Seq<u8>, Rgb)>, m1: Seq<(Seq<u8>, Rgb)>) -> bool {
    m1.len() <= m2.len() && forall|i: int| 0 <= i < m1.len() ==> m2[i] == m1[i]
}

/// A key found in a map is found at the same place in every extension.
pub proof fn lemma_pm_find_extends(m2: Seq<(Seq<u8>, Rgb)>, m1: Seq<(Seq<u8>, Rgb)>, name: Seq<u8>)
    requires
        pm_extends(m2, m1),
        pm_find(m1, name) >= 0,
    ensures
        pm_find(m2, name) == pm_find(m1, name),
        m2[pm_find(m2, name)] == m1[pm_find(m1, name)],
{
    let i = pm_find(m1, name);
    lemma_pm_find(m1, name);
    assert forall|x: int| 0 <= x < i implies m2[x].0 != name by {
        lemma_pm_find_first(m1, name, x);
    }
    lemma_pm_find_at(m2, name, i);
}

/// Consistent-palette round trip: a frame resolved during one render
/// keeps its color in every later render whose map extends the one the
/// first render produced — in particular after the map is saved and
/// loaded again, whatever color the palette would newly compute.
pub proof fn lemma_consistent_round_trip(
    m: Seq<(Seq<u8>, Rgb)>,
    m2: Seq<(Seq<u8>, Rgb)>,
    name: Seq<u8>,
    c1: Rgb,
    c2: Rgb,
)
    requires
        pm_extends(m2, spec_resolve(m, name, c1).1),
    ensures
        spec_resolve(m2, name, c2).0 == spec_resolve(m, name, c1).0,
{
    let i = pm_find(m, name);
    lemma_pm_find(m, name);
    if i >= 0 {
        lemma_pm_find_extends(m2, m, name);
    } else {
        let m1 = m.push((name, c1));
        assert forall|x: int| 0 <= x < m.len() implies m1[x].0 != name by {
            assert(m1[x] == m[x]);
        }
        lemma_pm_find_at(m1, name, m.len() as int);
        lemma_pm_find_extends(m2, m1, name);
        assert(m1[m.len() as int].1 == c1);
    }
}

/// Entries before the found index never match.
pub proof fn lemma_pm_find_first(s: Seq<(Seq<u8>, Rgb)>, name: Seq<u8>, x: int)
    requires
        0 <= x < pm_find(s, name),
    ensures
        s[x].0 != name,
    decreases s.len(),
{
    lemma_pm_find(s, name);
    if s.len() > 0 && s[0].0 != name && x > 0 {
        lemma_pm_find(s.drop_first(), name);
        lemma_pm_find_first(s.drop_first(), name, x - 1);
        assert(s.drop_first()[x - 1] == s[x]);
    }
}

/// A matching entry anywhere means the find succeeds.
pub proof fn lemma_pm_find_hit(s: Seq<(Seq<u8>, Rgb)>, name: Seq<u8>, j: int)
    requires
        0 <= j < s.len(),
        s[j].0 == name,
    ensures
        pm_find(s, name) >= 0,
    decreases j,
{
    if s.len() > 0 && s[0].0 != name {
        lemma_pm_find_hit(s.drop_first(), name, j - 1);
    }
}

/// The in-memory palette map.
pub struct PaletteMap {
    pub entries: Vec<(Vec<u8>, Rgb)>,
}

impl PaletteMap {
    /// Mathematical value: the ordered entry list.
    pub open spec fn view(&self) -> Seq<(Seq<u8>, Rgb)> {
        self.entries@.map_values(|e: (Vec<u8>, Rgb)| (e.0@, e.1))
    }

    /// Names are non-empty, newline-free, and unique.
    pub open spec fn wf(&self) -> bool {
        &&& forall|i: int|
            0 <= i < self@.len() ==> (#[trigger] self@[i]).0.len() > 0 && no_nl(self@[i].0)
        &&& forall|i: int, j: int| 0 <= i < j < self@.len() ==> self@[i].0 != self@[j].0
    }

    pub fn new() -> (r: PaletteMap)
        ensures
            r@ =~= Seq::<(Seq<u8>, Rgb)>::empty(),
            r.wf(),
    {
        PaletteMap { entries: Vec::new() }
    }

    /// Resolve the color of `name`: the stored color if present,
    /// otherwise `computed`, which is then remembered.
    pub fn resolve(&mut self, name: &[u8], computed: Rgb) -> (r: Rgb)
        requires
            old(self).wf(),
            name@.len() > 0,
            no_nl(name@),
        ensures
            final(self).wf(),
            (r, final(self)@) == spec_resolve(old(self)@, name@, computed),
            pm_extends(final(self)@, old(self)@),
    {
        proof {
            lemma_pm_find(self@, name@);
        }
        let ghost prev = self@;
        let mut i: usize = 0;
        while i < self.entries.len()
            invariant
                0 <= i <= self.entries@.len(),
                self@ == prev,
                prev == old(self)@,
                old(self).wf(),
                name@.len() > 0 && no_nl(name@),
                forall|x: int| 0 <= x < i ==> (#[trigger] prev[x]).0 != name@,
            decreases self.entries@.len() - i,
        {
            let hit = slice_eq(self.entries[i].0.as_slice(), name);
            if hit {
                proof {
                    assert(prev[i as int] == (self.entries@[i as int].0@, self.entries@[
                        i as int].1));
                    lemma_pm_find_at(prev, name@, i as int);
                }
                return self.entries[i].1;
            }
            i = i + 1;
        }
        proof {
            lemma_pm_find(prev, name@);
            assert(pm_find(prev, name@) == -1);
        }
        let mut owned: Vec<u8> = Vec::new();
        let mut k: usize = 0;
        while k < name.len()
            invariant
                0 <= k <= name@.len(),
                owned@ =~= name@.take(k as int),
            decreases name@.len() - k,
        {
            owned.push(name[k]);
            k = k + 1;
        }
        proof {
            assert(owned@ =~= name@);
        }
        self.entries.push((owned, computed));
        proof {
            assert(self@ =~~= prev.push((name@, computed)));
        }
        computed
    }

    /// Serialize the map, one canonical line per entry.
    pub fn save(&self) -> (r: Vec<u8>)
        requires
            self.wf(),
        ensures
            r@ == spec_save(self@),
    {
        let mut out: Vec<u8> = Vec::new();
        let mut i: usize = 0;
        proof {
            assert(self@.take(0) =~= Seq::<(Seq<u8>, Rgb)>::empty());
        }
        while i < self.entries.len()
            invariant
                0 <= i <= self.entries@.len(),
                out@ == spec_save(self@.take(i as int)),
            decreases self.entries@.len() - i,
        {
            let ghost before = out@;
            let name = &self.entries[i].0;
            let c = self.entries[i].1;
            let mut k: usize = 0;
            while k < name.len()
                invariant
                    0 <= k <= name@.len(),
                    out@ =~= before + name@.take(k as int),
                decreases name@.len() - k,
            {
                out.push(name[k]);
                k = k + 1;
            }
            out.push(45);
            out.push(62);
            out.push(114);
            out.push(103);
            out.push(98);
            out.push(40);
            push_d3(&mut out, c.red);
            out.push(44);
            push_d3(&mut out, c.green);
            out.push(44);
            push_d3(&mut out, c.blue);
            out.push(41);
            out.push(B_NL);
            proof {
                assert(name@.take(name@.len() as int) =~= name@);
                assert(self@[i as int] == (name@, c));
                assert(out@ =~= before + spec_pline(name@, c) + seq![B_NL]);
                lemma_save_push(self@.take(i as int), self@[i as int]);
                assert(self@.take(i as int).push(self@[i as int]) =~= self@.take(i + 1));
            }
            i = i + 1;
        }
        proof {
            assert(self@.take(self@.len() as int) =~= self@);
        }
        out
    }
}

/// Push a component as exactly three digits.
fn push_d3(out: &mut Vec<u8>, n: u8)
    ensures
        final(out)@ == old(out)@ + spec_d3(n),
{
    out.push(48 + n / 100);
    out.push(48 + (n / 10) % 10);
    out.push(48 + n % 10);
    proof {
        assert(out@ =~= old(out)@ + spec_d3(n));
    }
}

/// Byte-slice equality.
pub fn slice_eq(a: &[u8], b: &[u8]) -> (r: bool)
    ensures
        r == (a@ == b@),
{
    if a.len() != b.len() {
        proof {
            assert(a@.len() != b@.len());
        }
        return false;
    }
    let mut i: usize = 0;
    while i < a.len()
        invariant
            0 <= i <= a@.len(),
            a@.len() == b@.len(),
            forall|x: int| 0 <= x < i ==> a@[x] == b@[x],
        decreases a@.len() - i,
    {
        if a[i] != b[i] {
            return false;
        }
        i = i + 1;
    }
    proof {
        assert(a@ =~= b@);
    }
    true
}

/// The serialized palette-map document.
pub open spec fn spec_save(entries: Seq<(Seq<u8>, Rgb)>) -> Seq<u8>
    decreases entries.len(),
{
    if entries.len() == 0 {
        Seq::empty()
    } else {
        spec_save(entries.drop_last()) + spec_pline(entries.last().0, entries.last().1)
            + seq![B_NL]
    }
}

pub proof fn lemma_save_push(entries: Seq<(Seq<u8>, Rgb)>, e: (Seq<u8>, Rgb))
    ensures
        spec_save(entries.push(e)) == spec_save(entries) + spec_pline(e.0, e.1) + seq![B_NL],
{
    assert(entries.push(e).drop_last() =~= entries);
    assert(entries.push(e).last() == e);
}

/// Loading folds parsed lines left to right, first entry of a name wins.
pub open spec fn spec_load_lines(
    acc: Seq<(Seq<u8>, Rgb)>,
    lines: Seq<Seq<u8>>,
) -> Seq<(Seq<u8>, Rgb)>
    decreases lines.len(),
{
    if lines.len() == 0 {
        acc
    } else {
        match spec_parse_pline(lines[0]) {
            Option::None => spec_load_lines(acc, lines.drop_first()),
            Option::Some(e) => {
                if e.0.len() == 0 || pm_find(acc, e.0) >= 0 {
                    spec_load_lines(acc, lines.drop_first())
                } else {
                    spec_load_lines(acc.push(e), lines.drop_first())
                }
            },
        }
    }
}

/// Parse one palette-map line.
pub fn parse_pline(line: &[u8]) -> (r: Option<(Vec<u8>, Rgb)>)
    ensures
        match r {
            Some(e) => spec_parse_pline(line@) == Some((e.0@, e.1)),
            None => spec_parse_pline(line@) is None,
        },
{
    let n = line.len();
    proof {
        lemma_last_lparen(line@);
    }
    if n < 12 {
        return None;
    }
    // find the last `(`
    let mut j: usize = n;
    while j > 0 && line[j - 1] != 40
        invariant
            0 <= j <= line@.len(),
            forall|i: int| j <= i < line@.len() ==> line@[i] != 40,
        decreases j,
    {
        j = j - 1;
    }
    if j == 0 {
        proof {
            lemma_last_lparen_none(line@);
        }
        return None;
    }
    let q = j - 1;
    proof {
        lemma_last_lparen_at(line@, q as int);
    }
    if !(q >= 5 && line[q - 5] == 45 && line[q - 4] == 62 && line[q - 3] == 114 && line[q - 2]
        == 103 && line[q - 1] == 98 && line[n - 1] == 41) {
        return None;
    }
    if q + 1 > n - 1 {
        // `(` is the closing byte itself; no component region
        proof {
            assert(line@[n - 1] == 40 && line@[n - 1] == 41);
        }
        return None;
    }
    let mid = crate::util::copy_range(line, q + 1, n - 1);
    proof {
        lemma_first_comma(mid@);
    }
    // first comma
    let mut c1: usize = 0;
    while c1 < mid.len() && mid[c1] != 44
        invariant
            0 <= c1 <= mid@.len(),
            forall|i: int| 0 <= i < c1 ==> mid@[i] != 44,
        decreases mid@.len() - c1,
    {
        c1 = c1 + 1;
    }
    if c1 >= mid.len() {
        proof {
            lemma_first_comma_none(mid@);
        }
        return None;
    }
    proof {
        lemma_first_comma_at(mid@, c1 as int);
    }
    let r_part = crate::util::copy_range(mid.as_slice(), 0, c1);
    let rest = crate::util::copy_range(mid.as_slice(), c1 + 1, mid.len());
    proof {
        assert(rest@ =~= mid@.skip(c1 + 1));
        lemma_first_comma(rest@);
    }
    let mut c2: usize = 0;
    while c2 < rest.len() && rest[c2] != 44
        invariant
            0 <= c2 <= rest@.len(),
            forall|i: int| 0 <= i < c2 ==> rest@[i] != 44,
        decreases rest@.len() - c2,
    {
        c2 = c2 + 1;
    }
    if c2 >= rest.len() {
        proof {
            lemma_first_comma_none(rest@);
        }
        return None;
    }
    proof {
        lemma_first_comma_at(rest@, c2 as int);
    }
    let g_part = crate::util::copy_range(rest.as_slice(), 0, c2);
    let b_part = crate::util::copy_range(rest.as_slice(), c2 + 1, rest.len());
    proof {
        assert(b_part@ =~= rest@.skip(c2 + 1));
    }
    let red = match comp_value(r_part.as_slice()) {
        Option::Some(v) => v,
        Option::None => {
            return None;
        },
    };
    let green = match comp_value(g_part.as_slice()) {
        Option::Some(v) => v,
        Option::None => {
            return None;
        },
    };
    let blue = match comp_value(b_part.as_slice()) {
        Option::Some(v) => v,
        Option::None => {
            return None;
        },
    };
    let name = crate::util::copy_range(line, 0, q - 5);
    Some((name, Rgb { red, green, blue }))
}

/// Evaluate one color component.
fn comp_value(s: &[u8]) -> (r: Option<u8>)
    ensures
        r == spec_comp(s@),
{
    match crate::util::parse_u64(s) {
        Option::Some(v) => {
            if v <= 255 {
                Some(v as u8)
            } else {
                None
            }
        },
        Option::None => None,
    }
}

/// Load a palette map from file bytes. Unknown lines are ignored; on
/// duplicate names the first entry wins.
pub fn load_palette_map(input: &[u8]) -> (r: PaletteMap)
    ensures
        r@ == spec_load_lines(Seq::empty(), spec_lines(input@)),
        r.wf(),
{
    let lines = split_lines(input);
    let ghost lviews = lines@.map_values(|l: Vec<u8>| l@);
    let mut map = PaletteMap { entries: Vec::new() };
    let mut i: usize = 0;
    proof {
        assert(lviews.skip(0) =~= lviews);
        assert(map@ =~= Seq::<(Seq<u8>, Rgb)>::empty());
    }
    while i < lines.len()
        invariant
            0 <= i <= lines@.len(),
            lviews == lines@.map_values(|l: Vec<u8>| l@),
            lviews == spec_lines(input@),
            map.wf(),
            spec_load_lines(Seq::empty(), lviews) == spec_load_lines(
                map@,
                lviews.skip(i as int),
            ),
        decreases lines@.len() - i,
    {
        proof {
            assert(lviews.skip(i as int)[0] == lviews[i as int]);
            assert(lviews.skip(i as int).drop_first() =~= lviews.skip(i + 1));
            assert(lviews[i as int] == lines@[i as int]@);
        }
        match parse_pline(lines[i].as_slice()) {
            Option::Some(e) => {
                let ghost prev = map@;
                if e.0.len() > 0 {
                    let absent = pm_lookup_absent(&map, e.0.as_slice());
                    proof {
                        lemma_pm_find(prev, e.0@);
                    }
                    if absent {
                        proof {
                            crate::fold::lemma_spec_lines_no_nl(input@);
                            assert(lviews == spec_lines(input@));
                            assert(lviews[i as int] == spec_lines(input@)[i as int]);
                            assert(no_nl(lviews[i as int]));
                            lemma_parsed_name_no_nl(lviews[i as int]);
                        }
                        map.entries.push((e.0, e.1));
                        proof {
                            assert(map@ =~~= prev.push((e.0@, e.1)));
                            lemma_pm_find(prev, e.0@);
                            assert forall|x: int, y: int|
                                0 <= x < y < map@.len() implies map@[x].0 != map@[y].0 by {
                                if y < prev.len() {
                                    assert(prev[x] == map@[x] && prev[y] == map@[y]);
                                }
                            }
                        }
                    }
                }
            },
            Option::None => {},
        }
        i = i + 1;
    }
    proof {
        assert(lviews.skip(lviews.len() as int).len() == 0);
    }
    map
}

/// The name parsed from a newline-free line holds no newline.
pub proof fn lemma_parsed_name_no_nl(line: Seq<u8>)
    requires
        no_nl(line),
        spec_parse_pline(line) is Some,
    ensures
        no_nl(spec_parse_pline(line)->Some_0.0),
{
    lemma_last_lparen(line);
    let q = last_lparen(line);
    let name = line.take(q - 5);
    assert(forall|i: int| 0 <= i < name.len() ==> name[i] == line[i]);
}

/// Whether `name` is absent from the map.
fn pm_lookup_absent(map: &PaletteMap, name: &[u8]) -> (r: bool)
    ensures
        r == (pm_find(map@, name@) == -1),
{
    proof {
        lemma_pm_find(map@, name@);
    }
    let mut i: usize = 0;
    while i < map.entries.len()
        invariant
            0 <= i <= map.entries@.len(),
            forall|x: int| 0 <= x < i ==> (#[trigger] map@[x]).0 != name@,
        decreases map.entries@.len() - i,
    {
        let hit = slice_eq(map.entries[i].0.as_slice(), name);
        if hit {
            proof {
                assert(map@[i as int] == (map.entries@[i as int].0@, map.entries@[i as int].1));
                lemma_pm_find_at(map@, name@, i as int);
            }
            return false;
        }
        i = i + 1;
    }
    proof {
        lemma_pm_find(map@, name@);
        if pm_find(map@, name@) >= 0 {
            lemma_pm_find(map@, name@);
            assert(map@[pm_find(map@, name@)].0 == name@);
            assert(false);
        }
    }
    true
}

/// If `s[i]` matches and nothing before does, the find index is `i`.
pub proof fn lemma_pm_find_at(s: Seq<(Seq<u8>, Rgb)>, name: Seq<u8>, i: int)
    requires
        0 <= i < s.len(),
        s[i].0 == name,
        forall|x: int| 0 <= x < i ==> s[x].0 != name,
    ensures
        pm_find(s, name) == i,
    decreases i,
{
    if i > 0 {
        lemma_pm_find_at(s.drop_first(), name, i - 1);
        assert(forall|x: int| 0 <= x < s.drop_first().len() ==> s.drop_first()[x] == s[x + 1]);
    }
}

/// Load after save is the identity on well-formed maps.
pub proof fn lemma_load_save_identity(entries: Seq<(Seq<u8>, Rgb)>)
    requires
        forall|i: int|
            0 <= i < entries.len() ==> (#[trigger] entries[i]).0.len() > 0 && no_nl(
                entries[i].0,
            ),
        forall|i: int, j: int| 0 <= i < j < entries.len() ==> entries[i].0 != entries[j].0,
    ensures
        spec_load_lines(Seq::empty(), spec_lines(spec_save(entries))) == entries,
{
    lemma_save_lines(entries);
    assert(Seq::<(Seq<u8>, Rgb)>::empty() + entries =~= entries);
    lemma_load_plines(Seq::empty(), entries);
}

/// The saved document splits back into the entry lines.
pub proof fn lemma_save_lines(entries: Seq<(Seq<u8>, Rgb)>)
    requires
        forall|i: int| 0 <= i < entries.len() ==> no_nl((#[trigger] entries[i]).0),
    ensures
        spec_lines(spec_save(entries)) == entries.map_values(
            |e: (Seq<u8>, Rgb)| spec_pline(e.0, e.1),
        ),
    decreases entries.len(),
{
    if entries.len() == 0 {
        assert(spec_lines(spec_save(entries)) =~= entries.map_values(
            |e: (Seq<u8>, Rgb)| spec_pline(e.0, e.1),
        ));
    } else {
        let pre = entries.drop_last();
        let e = entries.last();
        assert(forall|i: int| 0 <= i < pre.len() ==> pre[i] == entries[i]);
        lemma_save_lines(pre);
        lemma_pline_no_nl(e.0, e.1);
        lemma_save_doc_no_nl(pre);
        lemma_lines_append_line(spec_save(pre), spec_pline(e.0, e.1));
        assert(spec_lines(spec_save(entries)) =~= entries.map_values(
            |x: (Seq<u8>, Rgb)| spec_pline(x.0, x.1),
        ));
    }
}

/// A saved document consists of full lines, each newline-terminated, so
/// appending `line + NL` appends one split line.
pub proof fn lemma_lines_append_line(doc: Seq<u8>, line: Seq<u8>)
    requires
        no_nl(line),
        spec_lines(doc).len() >= 0,
        doc.len() == 0 || doc.last() == B_NL,
    ensures
        spec_lines(doc + line + seq![B_NL]) == spec_lines(doc).push(line),
    decreases doc.len(),
{
    if doc.len() == 0 {
        assert(doc + line + seq![B_NL] =~= line + seq![B_NL]);
        crate::fold::lemma_lines_prepend(line, Seq::empty());
        assert(line + seq![B_NL] + Seq::<u8>::empty() =~= line + seq![B_NL]);
        assert(spec_lines(Seq::<u8>::empty()).len() == 0);
        assert(spec_lines(line + seq![B_NL]) =~= seq![line]);
        assert(spec_lines(doc).push(line) =~= seq![line]);
    } else {
        crate::util::lemma_first_nl(doc);
        let k = crate::util::first_nl(doc);
        assert(k < doc.len());
        let whole = doc + line + seq![B_NL];
        assert(whole.len() == doc.len() + line.len() + 1);
        crate::util::lemma_first_nl_from_prefix(whole, k);
        assert(whole.take(k) =~= doc.take(k));
        assert(whole.skip(k + 1) =~= doc.skip(k + 1) + line + seq![B_NL]);
        if doc.skip(k + 1).len() == 0 {
            assert(k == doc.len() - 1);
            assert(doc.skip(k + 1) + line + seq![B_NL] =~= line + seq![B_NL]);
            crate::fold::lemma_lines_prepend(line, Seq::empty());
            assert(line + seq![B_NL] + Seq::<u8>::empty() =~= line + seq![B_NL]);
            assert(spec_lines(whole) =~= seq![doc.take(k)].push(line));
            assert(spec_lines(doc.skip(k + 1)) =~= Seq::<Seq<u8>>::empty());
            assert(spec_lines(doc) =~= seq![doc.take(k)]);
        } else {
            assert(doc.skip(k + 1).last() == doc.last());
            lemma_lines_append_line(doc.skip(k + 1), line);
            assert(spec_lines(whole) =~= seq![whole.take(k)] + spec_lines(
                doc.skip(k + 1) + line + seq![B_NL],
            ));
            assert(spec_lines(doc) =~= seq![doc.take(k)] + spec_lines(doc.skip(k + 1)));
            assert(spec_lines(whole) =~= spec_lines(doc).push(line));
        }
    }
}

/// A saved document is empty or newline-terminated, and each of its
/// bytes belongs to a line or is a terminator.
pub proof fn lemma_save_doc_no_nl(entries: Seq<(Seq<u8>, Rgb)>)
    ensures
        spec_save(entries).len() == 0 || spec_save(entries).last() == B_NL,
    decreases entries.len(),
{
}

/// Loading the lines of uniquely-named, well-formed entries onto `acc`
/// appends exactly those entries.
pub proof fn lemma_load_plines(acc: Seq<(Seq<u8>, Rgb)>, entries: Seq<(Seq<u8>, Rgb)>)
    requires
        forall|i: int| 0 <= i < entries.len() ==> (#[trigger] entries[i]).0.len() > 0,
        forall|i: int, j: int|
            0 <= i < j < (acc + entries).len() ==> (acc + entries)[i].0 != (acc + entries)[j].0,
    ensures
        spec_load_lines(
            acc,
            entries.map_values(|e: (Seq<u8>, Rgb)| spec_pline(e.0, e.1)),
        ) == acc + entries,
    decreases entries.len(),
{
    let lines = entries.map_values(|e: (Seq<u8>, Rgb)| spec_pline(e.0, e.1));
    if entries.len() == 0 {
        assert(acc + entries =~= acc);
    } else {
        let e0 = entries[0];
        lemma_pline_roundtrip(e0.0, e0.1);
        assert(lines[0] == spec_pline(e0.0, e0.1));
        lemma_pm_find(acc, e0.0);
        if pm_find(acc, e0.0) >= 0 {
            let fk = pm_find(acc, e0.0);
            let all = acc + entries;
            assert(all[fk] == acc[fk]);
            assert(all[acc.len() as int] == e0);
            assert(false);
        }
        assert(acc.push(e0) + entries.drop_first() =~= acc + entries);
        assert(forall|i: int|
            0 <= i < entries.drop_first().len() ==> entries.drop_first()[i] == entries[i + 1]);
        lemma_load_plines(acc.push(e0), entries.drop_first());
        assert(lines.drop_first() =~= entries.drop_first().map_values(
            |e: (Seq<u8>, Rgb)| spec_pline(e.0, e.1),
        ));
    }
}

} // verus!
