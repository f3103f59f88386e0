use flamegraph::attrs::FrameAttrs;
use flamegraph::fold::collapse_folded;
use flamegraph::options::{Direction, Options};
use flamegraph::svg::{render, RenderError};

fn count_sub(hay: &[u8], needle: &[u8]) -> usize {
    if needle.is_empty() || hay.len() < needle.len() {
        return 0;
    }
    let mut n = 0;
    for i in 0..=(hay.len() - needle.len()) {
        if &hay[i..i + needle.len()] == needle {
            n += 1;
        }
    }
    n
}

fn contains(hay: &[u8], needle: &[u8]) -> bool {
    count_sub(hay, needle) > 0
}

#[test]
fn trivial_input_renders_two_frames() {
    let entries = collapse_folded(b"a;foo 1\n").unwrap();
    let mut opts = Options::default();
    opts.no_javascript = true;
    let svg = render(&entries, &opts, &FrameAttrs::new()).unwrap();
    assert_eq!(count_sub(&svg, b"<g id=\"frame"), 2);
    assert!(contains(&svg, b"<title>a (1 samples, 100.00%)</title>"));
    assert!(contains(&svg, b"<title>foo (1 samples, 100.00%)</title>"));
}

#[test]
fn root_frame_spans_the_inner_width() {
    let entries = collapse_folded(b"a;foo 3\n").unwrap();
    let mut opts = Options::default();
    opts.no_javascript = true;
    // inner width is image_width minus twice the 10-pixel padding
    let svg = render(&entries, &opts, &FrameAttrs::new()).unwrap();
    assert!(contains(&svg, b"width=\"1180.00\""));
}

#[test]
fn min_width_pruning_omits_narrow_frames() {
    let entries = collapse_folded(b"r;a 999\nr;b 1\n").unwrap();
    let mut opts = Options::default();
    opts.no_javascript = true;
    opts.image_width = 1000;
    opts.min_width_mpx = 2000;  // two pixels
    let svg = render(&entries, &opts, &FrameAttrs::new()).unwrap();
    assert_eq!(count_sub(&svg, b"<g id=\"frame"), 2);
    assert!(contains(&svg, b"<title>a (999 samples"));
    assert!(!contains(&svg, b"<title>b (1 samples"));
}

#[test]
fn lowering_min_width_only_adds_frames() {
    let entries = collapse_folded(b"r;a 999\nr;b 1\n").unwrap();
    let mut hi = Options::default();
    hi.no_javascript = true;
    hi.image_width = 1000;
    hi.min_width_mpx = 2000;
    let svg_hi = render(&entries, &hi, &FrameAttrs::new()).unwrap();
    let mut lo = Options::default();
    lo.no_javascript = true;
    lo.image_width = 1000;
    lo.min_width_mpx = 0;
    let svg_lo = render(&entries, &lo, &FrameAttrs::new()).unwrap();
    for name in [&b"<title>r ("[..], &b"<title>a ("[..], &b"<title>b ("[..]] {
        if contains(&svg_hi, name) {
            assert!(contains(&svg_lo, name));
        }
    }
    assert!(count_sub(&svg_lo, b"<g id=\"frame") >= count_sub(&svg_hi, b"<g id=\"frame"));
}

#[test]
fn identical_input_renders_identical_bytes() {
    let entries = collapse_folded(b"a;b 2\na;c 3\nd 1\n").unwrap();
    let mut opts = Options::default();
    opts.no_javascript = true;
    let one = render(&entries, &opts, &FrameAttrs::new()).unwrap();
    let two = render(&entries, &opts, &FrameAttrs::new()).unwrap();
    assert_eq!(one, two);
}

#[test]
fn inverted_direction_uses_icicle_title() {
    let entries = collapse_folded(b"a 1\n").unwrap();
    let mut opts = Options::default();
    opts.no_javascript = true;
    opts.direction = Direction::Inverted;
    let svg = render(&entries, &opts, &FrameAttrs::new()).unwrap();
    assert!(contains(&svg, b">Icicle Graph</text>"));
    let mut flames = Options::default();
    flames.no_javascript = true;
    let svg2 = render(&entries, &flames, &FrameAttrs::new()).unwrap();
    assert!(contains(&svg2, b">Flame Graph</text>"));
}

#[test]
fn explicit_title_overrides_the_default() {
    let entries = collapse_folded(b"a 1\n").unwrap();
    let mut opts = Options::default();
    opts.no_javascript = true;
    opts.direction = Direction::Inverted;
    opts.title = Some(b"My Profile".to_vec());
    let svg = render(&entries, &opts, &FrameAttrs::new()).unwrap();
    assert!(contains(&svg, b">My Profile</text>"));
    assert!(!contains(&svg, b">Icicle Graph</text>"));
}

#[test]
fn inversion_reflects_frame_rows() {
    let entries = collapse_folded(b"a;b 1\n").unwrap();
    let mut up = Options::default();
    up.no_javascript = true;
    let mut down = Options::default();
    down.no_javascript = true;
    down.direction = Direction::Inverted;
    let svg_up = render(&entries, &up, &FrameAttrs::new()).unwrap();
    let svg_down = render(&entries, &down, &FrameAttrs::new()).unwrap();
    // same frames either way
    assert_eq!(count_sub(&svg_up, b"<g id=\"frame"), 2);
    assert_eq!(count_sub(&svg_down, b"<g id=\"frame"), 2);
    // root sits below its child in a flame graph, above it in an icicle
    let y = |svg: &[u8], frame: &[u8]| -> u64 {
        let at = (0..svg.len() - frame.len()).find(|&i| &svg[i..i + frame.len()] == frame).unwrap();
        let tail = &svg[at..];
        let ypos = count_find(tail, b" y=\"");
        let rest = &tail[ypos + 4..];
        let end = rest.iter().position(|&b| b == b'"').unwrap();
        String::from_utf8(rest[..end].to_vec()).unwrap().parse().unwrap()
    };
    assert!(y(&svg_up, b"<title>a (") > y(&svg_up, b"<title>b ("));
    assert!(y(&svg_down, b"<title>a (") < y(&svg_down, b"<title>b ("));
}

fn count_find(hay: &[u8], needle: &[u8]) -> usize {
    (0..hay.len() - needle.len()).find(|&i| &hay[i..i + needle.len()] == needle).unwrap()
}

#[test]
fn invalid_options_are_rejected_before_work() {
    let entries = collapse_folded(b"a 1\n").unwrap();
    let mut opts = Options::default();
    opts.image_width = 5;
    assert_eq!(render(&entries, &opts, &FrameAttrs::new()).unwrap_err(), RenderError::InvalidOptions);
}

#[test]
fn empty_input_still_renders_a_document() {
    let entries = collapse_folded(b"").unwrap();
    let mut opts = Options::default();
    opts.no_javascript = true;
    let svg = render(&entries, &opts, &FrameAttrs::new()).unwrap();
    assert!(contains(&svg, b"<svg version"));
    assert!(contains(&svg, b"no data"));
    assert!(contains(&svg, b"</svg>"));
}

#[test]
fn frame_names_are_xml_escaped() {
    let entries = collapse_folded(b"a<b>&c 1\n").unwrap();
    let mut opts = Options::default();
    opts.no_javascript = true;
    let svg = render(&entries, &opts, &FrameAttrs::new()).unwrap();
    assert!(contains(&svg, b"a&lt;b&gt;&amp;c"));
}

#[test]
fn frame_attrs_are_applied_to_groups() {
    let entries = collapse_folded(b"hot 1\n").unwrap();
    let attrs = flamegraph::attrs::parse_frame_attrs(b"hot\thref=http://example.invalid/x\tbogus=1\n");
    let mut opts = Options::default();
    opts.no_javascript = true;
    let svg = render(&entries, &opts, &attrs).unwrap();
    assert!(contains(&svg, b" href=\"http://example.invalid/x\""));
    assert!(!contains(&svg, b"bogus"));
}

#[test]
fn javascript_is_embedded_unless_disabled() {
    let entries = collapse_folded(b"a 1\n").unwrap();
    let mut with = Options::default();
    let svg = render(&entries, &with, &FrameAttrs::new()).unwrap();
    assert!(contains(&svg, b"<script type=\"text/ecmascript\"><![CDATA["));
    with.no_javascript = true;
    let svg2 = render(&entries, &with, &FrameAttrs::new()).unwrap();
    assert!(!contains(&svg2, b"<script"));
}

#[test]
fn pretty_xml_inserts_newlines_between_elements() {
    let entries = collapse_folded(b"a 1\n").unwrap();
    let mut opts = Options::default();
    opts.no_javascript = true;
    opts.pretty_xml = true;
    let pretty = render(&entries, &opts, &FrameAttrs::new()).unwrap();
    opts.pretty_xml = false;
    let plain = render(&entries, &opts, &FrameAttrs::new()).unwrap();
    assert!(count_sub(&pretty, b"\n") > count_sub(&plain, b"\n"));
}

#[test]
fn scaled_count_overflow_is_reported() {
    let entries = collapse_folded(b"a 18446744073709551615
").unwrap();
    let mut opts = Options::default();
    opts.factor_milli = 2000;
    assert_eq!(
        render(&entries, &opts, &FrameAttrs::new()).unwrap_err(),
        RenderError::CountOverflow
    );
}

#[test]
fn factor_scales_counts_at_read_time() {
    let entries = collapse_folded(b"a 10\n").unwrap();
    let mut opts = Options::default();
    opts.no_javascript = true;
    opts.factor_milli = 2000;  // factor 2
    let svg = render(&entries, &opts, &FrameAttrs::new()).unwrap();
    assert!(contains(&svg, b"<title>a (20 samples"));
}
