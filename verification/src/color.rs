//! The palette model: named palettes, deterministic per-frame color
//! selection, and the persistable palette map that keeps colors
//! consistent across graphs.
//!
//! All color choice is a pure function of the frame name, the palette,
//! and either a name hash (`hash` mode) or the frame's render index, so
//! rendering is deterministic byte for byte.

use vstd::prelude::*;

verus! {

/// A concrete RGB triple.
#[derive(Clone, Copy, Debug, PartialEq, Eq, Structural)]
pub struct Rgb {
    pub red: u8,
    pub green: u8,
    pub blue: u8,
}

/// The named palettes.
#[derive(Clone, Copy, Debug, PartialEq, Eq, Structural)]
pub enum Palette {
    Hot,
    Mem,
    Io,
    Wakeup,
    Java,
    Js,
    Perl,
    Red,
    Green,
    Blue,
    Aqua,
    Yellow,
    Purple,
    Orange,
}

/// Background: a named two-stop gradient or a flat color.
#[derive(Clone, Copy, Debug, PartialEq, Eq, Structural)]
pub enum BackgroundColor {
    Yellow,
    Blue,
    Green,
    Grey,
    Flat(Rgb),
}

/// Deterministic 32-bit hash of a frame name (a 31x polynomial hash),
/// so identical names hash alike across graphs and machines.
pub open spec fn spec_name_hash(s: Seq<u8>) -> u64
    decreases s.len(),
{
    if s.len() == 0 {
        17
    } else {
        ((((spec_name_hash(s.drop_last()) * 31) % 0x1_0000_0000 + s.last()) % 0x1_0000_0000) as u64)
    }
}

/// Compute the name hash.
pub fn name_hash(s: &[u8]) -> (r: u64)
    ensures
        r == spec_name_hash(s@),
        r < 0x1_0000_0000 + 255,
{
    let mut h: u64 = 17;
    let mut i: usize = 0;
    while i < s.len()
        invariant
            0 <= i <= s@.len(),
            h == spec_name_hash(s@.take(i as int)),
            h < 0x1_0000_0000 + 255,
        decreases s@.len() - i,
    {
        h = (h * 31) % 0x1_0000_0000 + (s[i] as u64);
        h = h % 0x1_0000_0000;
        proof {
            assert(s@.take(i + 1).drop_last() =~= s@.take(i as int));
        }
        i = i + 1;
    }
    proof {
        assert(s@.take(s@.len() as int) =~= s@);
    }
    h
}

/// Pseudorandom draw for frame `index` when name hashing is off: a
/// fixed linear-congruential step, seeded by the index alone so output
/// is still deterministic for a given input.
pub open spec fn spec_index_mix(index: u64) -> u64 {
    (((index * 1103515245 + 12345) % 0x1_0000_0000) as u64)
}

/// The three variation channels `0..256` drawn from a mixed word.
pub open spec fn spec_channels(h: u64) -> (u64, u64, u64) {
    (h % 256, (h / 256) % 256, (h / 65536) % 256)
}

/// Whether the frame name ends in the annotation `_[c]`.
pub open spec fn spec_has_suffix(s: Seq<u8>, c: u8) -> bool {
    s.len() >= 4 && s[s.len() - 4] == 95 && s[s.len() - 3] == 91 && s[s.len() - 2] == c
        && s[s.len() - 1] == 93
}

/// Whether the frame name contains a `/` (package-qualified names).
pub open spec fn spec_has_slash(s: Seq<u8>) -> bool {
    exists|i: int| 0 <= i < s.len() && s[i] == 47
}

/// Base color family index for a frame under a palette. Semantic
/// palettes inspect the name: kernel annotations turn red, JIT
/// annotations brown-orange, package-qualified names green.
pub open spec fn spec_family(p: Palette, name: Seq<u8>) -> int {
    match p {
        Palette::Hot => 0,
        Palette::Mem => 1,
        Palette::Io => 2,
        Palette::Wakeup => 3,
        Palette::Red => 4,
        Palette::Green => 5,
        Palette::Blue => 6,
        Palette::Aqua => 7,
        Palette::Yellow => 8,
        Palette::Purple => 9,
        Palette::Orange => 10,
        Palette::Java => {
            if spec_has_suffix(name, 107) {
                4  // kernel: red
            } else if spec_has_suffix(name, 106) {
                10  // JIT: orange
            } else if spec_has_slash(name) {
                5  // package-qualified: green
            } else {
                8  // plain: yellow
            }
        },
        Palette::Js => {
            if spec_has_suffix(name, 107) {
                4
            } else if spec_has_suffix(name, 106) {
                10
            } else if spec_has_slash(name) {
                5
            } else {
                7
            }
        },
        Palette::Perl => {
            if spec_has_suffix(name, 107) {
                4
            } else if spec_has_slash(name) {
                5
            } else {
                8
            }
        },
    }
}

/// The color of a family under variation channels `v1,v2,v3 < 256`.
pub open spec fn spec_family_color(fam: int, v1: u64, v2: u64, v3: u64) -> Rgb {
    if fam == 0 {
        Rgb { red: (205 + v3 * 50 / 255) as u8, green: (v1 * 230 / 255) as u8, blue: (v2 * 55
            / 255) as u8 }
    } else if fam == 1 {
        Rgb { red: (v2 * 30 / 255) as u8, green: (190 + v1 * 50 / 255) as u8, blue: (v3 * 210
            / 255) as u8 }
    } else if fam == 2 {
        Rgb { red: (80 + v1 * 60 / 255) as u8, green: (80 + v1 * 60 / 255) as u8, blue: (190
            + v2 * 55 / 255) as u8 }
    } else if fam == 3 {
        Rgb { red: (v1 * 50 / 255) as u8, green: (190 + v2 * 55 / 255) as u8, blue: (190 + v2
            * 55 / 255) as u8 }
    } else if fam == 4 {
        Rgb { red: (200 + v1 * 55 / 255) as u8, green: (50 + v1 * 80 / 255) as u8, blue: (50
            + v1 * 80 / 255) as u8 }
    } else if fam == 5 {
        Rgb { red: (50 + v1 * 60 / 255) as u8, green: (200 + v1 * 55 / 255) as u8, blue: (50
            + v1 * 60 / 255) as u8 }
    } else if fam == 6 {
        Rgb { red: (80 + v1 * 60 / 255) as u8, green: (80 + v1 * 60 / 255) as u8, blue: (205
            + v1 * 50 / 255) as u8 }
    } else if fam == 7 {
        Rgb { red: (50 + v1 * 60 / 255) as u8, green: (165 + v1 * 55 / 255) as u8, blue: (165
            + v1 * 55 / 255) as u8 }
    } else if fam == 8 {
        Rgb { red: (175 + v1 * 55 / 255) as u8, green: (175 + v1 * 55 / 255) as u8, blue: (50
            + v1 * 20 / 255) as u8 }
    } else if fam == 9 {
        Rgb { red: (190 + v1 * 65 / 255) as u8, green: (80 + v1 * 60 / 255) as u8, blue: (190
            + v1 * 65 / 255) as u8 }
    } else {
        Rgb { red: (190 + v1 * 65 / 255) as u8, green: (90 + v1 * 65 / 255) as u8, blue: 0 }
    }
}

/// The color of frame `name` at render index `index` under palette `p`:
/// in hash mode a function of the name alone, otherwise of the index.
pub open spec fn spec_color(p: Palette, hash: bool, name: Seq<u8>, index: u64) -> Rgb {
    let h = if hash {
        spec_name_hash(name)
    } else {
        spec_index_mix(index)
    };
    let v = spec_channels(h);
    spec_family_color(spec_family(p, name), v.0, v.1, v.2)
}

/// With name hashing on, a frame's color depends on its name alone:
/// the render index, and so the surrounding frames, cannot change it.
pub proof fn lemma_hash_color_name_only(p: Palette, name: Seq<u8>, i1: u64, i2: u64)
    ensures
        spec_color(p, true, name, i1) == spec_color(p, true, name, i2),
{
}

/// Differential color: red for growth, green for shrinkage, scaled by
/// the magnitude `frac_milli` (thousandths of full intensity, capped at
/// one), and swapped when differentials are negated. A zero delta is
/// white.
pub open spec fn spec_diff_color(frac_milli: u64, shrank: bool, negate: bool) -> Rgb {
    let m = if frac_milli > 1000 {
        1000 as u64
    } else {
        frac_milli
    };
    let c = (255 - m * 255 / 1000) as u8;
    if shrank != negate {
        Rgb { red: c, green: 255, blue: c }
    } else {
        Rgb { red: 255, green: c, blue: c }
    }
}

/// Color a differential frame.
pub fn diff_color(frac_milli: u64, shrank: bool, negate: bool) -> (r: Rgb)
    ensures
        r == spec_diff_color(frac_milli, shrank, negate),
{
    let m: u64 = if frac_milli > 1000 {
        1000
    } else {
        frac_milli
    };
    let c: u8 = (255 - m * 255 / 1000) as u8;
    if shrank != negate {
        Rgb { red: c, green: 255, blue: c }
    } else {
        Rgb { red: 255, green: c, blue: c }
    }
}

/// Compute the color of a frame.
pub fn color_for(p: Palette, hash: bool, name: &[u8], index: u64) -> (r: Rgb)
    requires
        index < 0x1_0000_0000,
    ensures
        r == spec_color(p, hash, name@, index),
{
    let h: u64 = if hash {
        name_hash(name)
    } else {
        (index * 1103515245 + 12345) % 0x1_0000_0000
    };
    let v1: u64 = h % 256;
    let v2: u64 = (h / 256) % 256;
    let v3: u64 = (h / 65536) % 256;
    let fam: u64 = family_of(&p, name);
    family_color(fam, v1, v2, v3)
}

/// Exec mirror of `spec_family`.
fn family_of(p: &Palette, name: &[u8]) -> (r: u64)
    ensures
        r == spec_family(*p, name@),
{
    match p {
        Palette::Hot => 0,
        Palette::Mem => 1,
        Palette::Io => 2,
        Palette::Wakeup => 3,
        Palette::Red => 4,
        Palette::Green => 5,
        Palette::Blue => 6,
        Palette::Aqua => 7,
        Palette::Yellow => 8,
        Palette::Purple => 9,
        Palette::Orange => 10,
        Palette::Java => {
            if has_suffix(name, 107) {
                4
            } else if has_suffix(name, 106) {
                10
            } else if has_slash(name) {
                5
            } else {
                8
            }
        },
        Palette::Js => {
            if has_suffix(name, 107) {
                4
            } else if has_suffix(name, 106) {
                10
            } else if has_slash(name) {
                5
            } else {
                7
            }
        },
        Palette::Perl => {
            if has_suffix(name, 107) {
                4
            } else if has_slash(name) {
                5
            } else {
                8
            }
        },
    }
}

fn has_suffix(s: &[u8], c: u8) -> (r: bool)
    ensures
        r == spec_has_suffix(s@, c),
{
    if s.len() < 4 {
        return false;
    }
    let n = s.len();
    s[n - 4] == 95 && s[n - 3] == 91 && s[n - 2] == c && s[n - 1] == 93
}

fn has_slash(s: &[u8]) -> (r: bool)
    ensures
        r == spec_has_slash(s@),
{
    let mut i: usize = 0;
    while i < s.len()
        invariant
            0 <= i <= s@.len(),
            forall|x: int| 0 <= x < i ==> s@[x] != 47,
        decreases s@.len() - i,
    {
        if s[i] == 47 {
            return true;
        }
        i = i + 1;
    }
    false
}

/// Exec mirror of `spec_family_color`.
fn family_color(fam: u64, v1: u64, v2: u64, v3: u64) -> (r: Rgb)
    requires
        v1 < 256,
        v2 < 256,
        v3 < 256,
    ensures
        r == spec_family_color(fam as int, v1, v2, v3),
{
    if fam == 0 {
        Rgb { red: (205 + v3 * 50 / 255) as u8, green: (v1 * 230 / 255) as u8, blue: (v2 * 55
            / 255) as u8 }
    } else if fam == 1 {
        Rgb { red: (v2 * 30 / 255) as u8, green: (190 + v1 * 50 / 255) as u8, blue: (v3 * 210
            / 255) as u8 }
    } else if fam == 2 {
        Rgb { red: (80 + v1 * 60 / 255) as u8, green: (80 + v1 * 60 / 255) as u8, blue: (190
            + v2 * 55 / 255) as u8 }
    } else if fam == 3 {
        Rgb { red: (v1 * 50 / 255) as u8, green: (190 + v2 * 55 / 255) as u8, blue: (190 + v2
            * 55 / 255) as u8 }
    } else if fam == 4 {
        Rgb { red: (200 + v1 * 55 / 255) as u8, green: (50 + v1 * 80 / 255) as u8, blue: (50
            + v1 * 80 / 255) as u8 }
    } else if fam == 5 {
        Rgb { red: (50 + v1 * 60 / 255) as u8, green: (200 + v1 * 55 / 255) as u8, blue: (50
            + v1 * 60 / 255) as u8 }
    } else if fam == 6 {
        Rgb { red: (80 + v1 * 60 / 255) as u8, green: (80 + v1 * 60 / 255) as u8, blue: (205
            + v1 * 50 / 255) as u8 }
    } else if fam == 7 {
        Rgb { red: (50 + v1 * 60 / 255) as u8, green: (165 + v1 * 55 / 255) as u8, blue: (165
            + v1 * 55 / 255) as u8 }
    } else if fam == 8 {
        Rgb { red: (175 + v1 * 55 / 255) as u8, green: (175 + v1 * 55 / 255) as u8, blue: (50
            + v1 * 20 / 255) as u8 }
    } else {
        if fam == 9 {
            Rgb { red: (190 + v1 * 65 / 255) as u8, green: (80 + v1 * 60 / 255) as u8, blue: (
            190 + v1 * 65 / 255) as u8 }
        } else {
            Rgb { red: (190 + v1 * 65 / 255) as u8, green: (90 + v1 * 65 / 255) as u8, blue: 0 }
        }
    }
}

} // verus!
