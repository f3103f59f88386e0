use flamegraph::attrs::FrameAttrs;
use flamegraph::color::{color_for, Palette, Rgb};
use flamegraph::fold::collapse_folded;
use flamegraph::options::Options;
use flamegraph::palette_map::{load_palette_map, PaletteMap};
use flamegraph::svg::render_consistent;

fn find(hay: &[u8], needle: &[u8]) -> Option<usize> {
    if hay.len() < needle.len() {
        return None;
    }
    (0..=(hay.len() - needle.len())).find(|&i| &hay[i..i + needle.len()] == needle)
}

/// The `fill` attribute of the group whose tooltip starts with `frame (`.
fn fill_of(svg: &[u8], frame: &[u8]) -> Vec<u8> {
    let mut probe = b"<title>".to_vec();
    probe.extend_from_slice(frame);
    probe.extend_from_slice(b" (");
    let at = find(svg, &probe).unwrap();
    let tail = &svg[at..];
    let f = find(tail, b"fill=\"").unwrap();
    let rest = &tail[f + 6..];
    let end = rest.iter().position(|&b| b == b'"').unwrap();
    rest[..end].to_vec()
}

#[test]
fn hash_color_depends_on_name_alone() {
    let a = color_for(Palette::Hot, true, b"frobnicate", 0);
    let b = color_for(Palette::Hot, true, b"frobnicate", 999);
    assert_eq!(a, b);
}

#[test]
fn hash_colors_are_stable_across_surroundings() {
    // the same frame in two different graphs gets the same fill
    let mut opts = Options::default();
    opts.no_javascript = true;
    opts.hash = true;
    let e1 = collapse_folded(b"x;shared 1\ny 5\n").unwrap();
    let e2 = collapse_folded(b"other;shared 3\n").unwrap();
    let s1 = flamegraph::svg::render(&e1, &opts, &FrameAttrs::new()).unwrap();
    let s2 = flamegraph::svg::render(&e2, &opts, &FrameAttrs::new()).unwrap();
    assert_eq!(fill_of(&s1, b"shared"), fill_of(&s2, b"shared"));
}

#[test]
fn java_palette_buckets_by_annotation() {
    let kernel = color_for(Palette::Java, true, b"sys_call_[k]", 0);
    let pkg = color_for(Palette::Java, true, b"com/acme/Thing.run", 0);
    // kernel frames sit in the red family, package-qualified in green
    assert!(kernel.red > kernel.green);
    assert!(pkg.green > pkg.red);
}

#[test]
fn consistent_palette_reuses_colors_across_renders() {
    let mut opts = Options::default();
    opts.no_javascript = true;
    let mut map = PaletteMap::new();
    let e1 = collapse_folded(b"foo 1\nbar 2\n").unwrap();
    let s1 = render_consistent(&e1, &opts, &FrameAttrs::new(), &mut map).unwrap();
    let e2 = collapse_folded(b"other;foo 4\n").unwrap();
    let s2 = render_consistent(&e2, &opts, &FrameAttrs::new(), &mut map).unwrap();
    assert_eq!(fill_of(&s1, b"foo"), fill_of(&s2, b"foo"));
}

#[test]
fn palette_map_save_load_round_trips() {
    let mut map = PaletteMap::new();
    map.resolve(b"alpha", Rgb { red: 1, green: 2, blue: 3 });
    map.resolve(b"beta list", Rgb { red: 255, green: 0, blue: 128 });
    let saved = map.save();
    let loaded = load_palette_map(&saved);
    assert_eq!(loaded.save(), saved);
    assert_eq!(loaded.entries.len(), 2);
    assert_eq!(loaded.entries[0].0, b"alpha".to_vec());
    assert_eq!(loaded.entries[0].1, Rgb { red: 1, green: 2, blue: 3 });
}

#[test]
fn palette_map_file_uses_documented_shape() {
    let mut map = PaletteMap::new();
    map.resolve(b"f", Rgb { red: 9, green: 10, blue: 11 });
    assert_eq!(String::from_utf8(map.save()).unwrap(), "f->rgb(009,010,011)\n");
}

#[test]
fn palette_map_load_ignores_unknown_lines() {
    let input = b"garbage\nf->rgb(001,002,003)\nbad->rgb(1,2)\nworse->rgb(999,0,0)\n";
    let map = load_palette_map(input);
    assert_eq!(map.entries.len(), 1);
    assert_eq!(map.entries[0].0, b"f".to_vec());
}

#[test]
fn palette_map_load_accepts_unpadded_components() {
    let input = b"a->rgb(1,2,3)\nb (x)->rgb(255,0,128)\n";
    let map = load_palette_map(input);
    assert_eq!(map.entries.len(), 2);
    assert_eq!(map.entries[0].0, b"a".to_vec());
    assert_eq!(map.entries[0].1, Rgb { red: 1, green: 2, blue: 3 });
    assert_eq!(map.entries[1].0, b"b (x)".to_vec());
    assert_eq!(map.entries[1].1, Rgb { red: 255, green: 0, blue: 128 });
}

#[test]
fn palette_map_stored_color_wins() {
    let mut map = PaletteMap::new();
    let first = map.resolve(b"n", Rgb { red: 10, green: 20, blue: 30 });
    let second = map.resolve(b"n", Rgb { red: 90, green: 90, blue: 90 });
    assert_eq!(first, second);
    assert_eq!(map.entries.len(), 1);
}

#[test]
fn indexed_colors_are_deterministic() {
    let a = color_for(Palette::Mem, false, b"whatever", 7);
    let b = color_for(Palette::Mem, false, b"other", 7);
    assert_eq!(a, b);  // index drives the variation when hashing is off
}

#[test]
fn differential_hues_swap_under_negation() {
    let grew = flamegraph::color::diff_color(500, false, false);
    let shrank = flamegraph::color::diff_color(500, true, false);
    assert!(grew.red > grew.green);
    assert!(shrank.green > shrank.red);
    let negated = flamegraph::color::diff_color(500, false, true);
    assert_eq!(negated, shrank);
    let zero = flamegraph::color::diff_color(0, false, false);
    assert_eq!(zero, flamegraph::color::Rgb { red: 255, green: 255, blue: 255 });
}
