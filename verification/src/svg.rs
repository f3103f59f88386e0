//! The SVG emitter: folded entries to a complete, deterministic SVG
//! document.
//!
//! All geometry comes from the layout engine's integer millipixel
//! model, colors from the palette model, and text from exact escaping,
//! so two renders of the same input and options write the same bytes.
//! Frame ids are the sequential layout order; nothing in the document
//! depends on the clock, the machine, or iteration order of a hash
//! container.

use vstd::prelude::*;
use vstd::string::StringSliceAdditionalSpecFns;
use crate::attrs::FrameAttrs;
use crate::color::{color_for, BackgroundColor, Rgb};
use crate::fold::FoldError;
use crate::folded::{entries_view, Entry};
use crate::layout::{
    layout_graph, px_of, rects_view, spec_frames, spec_kids, DEPTH_CAP, XPAD,
};
use crate::options::{Direction, Options, spec_valid_options};
use crate::palette_map::PaletteMap;
use crate::tree::{build_tree, scaled_overflows, sum_counts, total_scaled, wf_node, Node};
use crate::util::{push_u64, B_NL};

verus! {

broadcast use vstd::std_specs::vec::axiom_vec_index_decreases;

pub const PROBE_STR: &'static str = "ab";

pub open spec fn probe_spec() -> Seq<u8> {
    PROBE_STR.spec_bytes()
}

fn probe_exec(out: &mut Vec<u8>)
    ensures
        final(out)@ == old(out)@ + probe_spec(),
{
    push_str(out, PROBE_STR);
}

/// Why rendering failed.
#[derive(Clone, Copy, Debug, PartialEq, Eq, Structural)]
pub enum RenderError {
    /// The options do not satisfy the documented bounds.
    InvalidOptions,
    /// A 64-bit sample counter overflowed while building the tree.
    CountOverflow,
}

/// Append raw bytes.
fn push_bytes(out: &mut Vec<u8>, s: &[u8])
    ensures
        final(out)@ == old(out)@ + s@,
{
    let mut i: usize = 0;
    while i < s.len()
        invariant
            0 <= i <= s@.len(),
            out@ =~= old(out)@ + s@.take(i as int),
        decreases s@.len() - i,
    {
        out.push(s[i]);
        proof {
            assert(s@.take(i + 1) =~= s@.take(i as int).push(s@[i as int]));
        }
        i = i + 1;
    }
    proof {
        assert(s@.take(s@.len() as int) =~= s@);
    }
}

/// Append the bytes of a string literal.
fn push_str(out: &mut Vec<u8>, s: &str)
    ensures
        final(out)@ == old(out)@ + s.spec_bytes(),
{
    let b = s.as_bytes();
    push_bytes(out, b);
}

/// The XML escape of one byte.
pub open spec fn esc_byte(b: u8) -> Seq<u8> {
    if b == 38 {
        seq![38u8, 97, 109, 112, 59]  // &amp;
    } else if b == 60 {
        seq![38u8, 108, 116, 59]  // &lt;
    } else if b == 62 {
        seq![38u8, 103, 116, 59]  // &gt;
    } else if b == 34 {
        seq![38u8, 113, 117, 111, 116, 59]  // &quot;
    } else {
        seq![b]
    }
}

/// The XML escape of a byte string.
pub open spec fn spec_escape(s: Seq<u8>) -> Seq<u8>
    decreases s.len(),
{
    if s.len() == 0 {
        Seq::empty()
    } else {
        spec_escape(s.drop_last()) + esc_byte(s.last())
    }
}

/// Append `s`, XML-escaped.
fn push_escaped(out: &mut Vec<u8>, s: &[u8])
    ensures
        final(out)@ == old(out)@ + spec_escape(s@),
{
    let mut i: usize = 0;
    proof {
        assert(s@.take(0) =~= Seq::<u8>::empty());
        assert(out@ =~= old(out)@ + spec_escape(s@.take(0)));
    }
    while i < s.len()
        invariant
            0 <= i <= s@.len(),
            out@ == old(out)@ + spec_escape(s@.take(i as int)),
        decreases s@.len() - i,
    {
        let b = s[i];
        if b == 38 {
            out.push(38);
            out.push(97);
            out.push(109);
            out.push(112);
            out.push(59);
            proof {
                assert(out@ =~= old(out)@ + spec_escape(s@.take(i as int)) + esc_byte(b));
            }
        } else if b == 60 {
            out.push(38);
            out.push(108);
            out.push(116);
            out.push(59);
            proof {
                assert(out@ =~= old(out)@ + spec_escape(s@.take(i as int)) + esc_byte(b));
            }
        } else if b == 62 {
            out.push(38);
            out.push(103);
            out.push(116);
            out.push(59);
            proof {
                assert(out@ =~= old(out)@ + spec_escape(s@.take(i as int)) + esc_byte(b));
            }
        } else if b == 34 {
            out.push(38);
            out.push(113);
            out.push(117);
            out.push(111);
            out.push(116);
            out.push(59);
            proof {
                assert(out@ =~= old(out)@ + spec_escape(s@.take(i as int)) + esc_byte(b));
            }
        } else {
            out.push(b);
            proof {
                assert(out@ =~= old(out)@ + spec_escape(s@.take(i as int)) + esc_byte(b));
            }
        }
        proof {
            assert(s@.take(i + 1).drop_last() =~= s@.take(i as int));
            assert(s@.take(i + 1).last() == s@[i as int]);
            assert(out@ =~= old(out)@ + spec_escape(s@.take(i + 1)));
        }
        i = i + 1;
    }
    proof {
        assert(s@.take(s@.len() as int) =~= s@);
    }
}

/// Append a millipixel quantity as pixels with two decimals.
fn push_frac2(out: &mut Vec<u8>, mpx: u64)
    ensures
        final(out)@.len() > old(out)@.len(),
{
    push_u64(out, mpx / 1000);
    out.push(46);
    let centi = (mpx % 1000) / 10;
    out.push(48 + (centi / 10) as u8);
    out.push(48 + (centi % 10) as u8);
    proof {
        crate::util::lemma_dec_repr_digits((mpx / 1000) as nat);
    }
}

/// Append `rgb(R,G,B)`.
fn push_rgb(out: &mut Vec<u8>, c: Rgb)
    ensures
        final(out)@.len() > old(out)@.len(),
{
    push_str(out, "rgb(");
    push_u64(out, c.red as u64);
    out.push(44);
    push_u64(out, c.green as u64);
    out.push(44);
    push_u64(out, c.blue as u64);
    out.push(41);
    proof {
        crate::util::lemma_dec_repr_digits((c.red as u64) as nat);
    }
}

/// Element separator: a newline when pretty-printing, nothing otherwise.
fn sep(out: &mut Vec<u8>, pretty: bool)
    ensures
        final(out)@.len() >= old(out)@.len(),
{
    if pretty {
        out.push(B_NL);
    }
}

/// Every laid-out frame fits inside the root's extent, at a capped
/// depth, with non-negative coordinates.
pub proof fn lemma_frames_bounded(
    n: Node,
    x: int,
    d: int,
    inner: int,
    minw: int,
    total: int,
)
    requires
        wf_node(n),
        0 <= x,
        0 <= d,
        x + n.count <= total,
    ensures
        forall|k: int|
            0 <= k < spec_frames(n, x, d, inner, minw, total).len() ==> {
                let e = #[trigger] spec_frames(n, x, d, inner, minw, total)[k];
                0 <= e.1 <= DEPTH_CAP && 0 <= e.2 && 0 <= e.3 && e.2 + e.3 <= total
            },
    decreases n, 1int, 0int,
{
    if crate::layout::spec_keep(n.count as int, inner, minw, total) && d <= DEPTH_CAP {
        assert(n.children@.skip(0) =~= n.children@);
        lemma_frames_bounded_kids(n, 0, x, d + 1, inner, minw, total, x + n.count);
        let own = seq![(n.name@, d, x, n.count as int)];
        let kids = spec_kids(n, 0, x, d + 1, inner, minw, total);
        assert forall|k: int|
            0 <= k < spec_frames(n, x, d, inner, minw, total).len() implies {
            let e = #[trigger] spec_frames(n, x, d, inner, minw, total)[k];
            0 <= e.1 <= DEPTH_CAP && 0 <= e.2 && 0 <= e.3 && e.2 + e.3 <= total
        } by {
            if k >= 1 {
                assert(spec_frames(n, x, d, inner, minw, total)[k] == kids[k - 1]);
            }
        }
    }
}

/// Bound for the children tail: frames of children `i..` lie within
/// `x .. hi`, where `hi` bounds the remaining extent.
pub proof fn lemma_frames_bounded_kids(
    n: Node,
    i: int,
    x: int,
    d: int,
    inner: int,
    minw: int,
    total: int,
    hi: int,
)
    requires
        wf_node(n),
        0 <= x,
        0 <= d,
        0 <= i,
        x + sum_counts(n.children@.skip(i)) <= hi <= total,
    ensures
        forall|k: int|
            0 <= k < spec_kids(n, i, x, d, inner, minw, total).len() ==> {
                let e = #[trigger] spec_kids(n, i, x, d, inner, minw, total)[k];
                0 <= e.1 <= DEPTH_CAP && 0 <= e.2 && 0 <= e.3 && e.2 + e.3 <= total
            },
    decreases n, 0int, n.children@.len() - i,
{
    if 0 <= i < n.children@.len() {
        let child = n.children[i];
        assert(sum_counts(n.children@.skip(i)) == child.count + sum_counts(
            n.children@.skip(i + 1),
        )) by {
            lemma_sum_skip_unfold(n.children@, i);
        }
        crate::layout::lemma_sum_nonneg(n.children@.skip(i + 1));
        lemma_frames_bounded(child, x, d, inner, minw, total);
        lemma_frames_bounded_kids(n, i + 1, x + child.count, d, inner, minw, total, hi);
        let hd = spec_frames(child, x, d, inner, minw, total);
        let tl = spec_kids(n, i + 1, x + child.count, d, inner, minw, total);
        assert forall|k: int|
            0 <= k < spec_kids(n, i, x, d, inner, minw, total).len() implies {
            let e = #[trigger] spec_kids(n, i, x, d, inner, minw, total)[k];
            0 <= e.1 <= DEPTH_CAP && 0 <= e.2 && 0 <= e.3 && e.2 + e.3 <= total
        } by {
            if k < hd.len() {
                assert(spec_kids(n, i, x, d, inner, minw, total)[k] == hd[k]);
            } else {
                assert(spec_kids(n, i, x, d, inner, minw, total)[k] == tl[k - hd.len()]);
            }
        }
    }
}

/// Unfold a sum at its head.
pub proof fn lemma_sum_head(s: Seq<Node>)
    requires
        s.len() >= 1,
    ensures
        sum_counts(s) == s[0].count + sum_counts(s.drop_first()),
    decreases s.len(),
{
    if s.len() == 1 {
        assert(s.drop_first() =~= Seq::<Node>::empty());
        assert(s.drop_last() =~= Seq::<Node>::empty());
    } else {
        let dl = s.drop_last();
        lemma_sum_head(dl);
        assert(dl[0] == s[0]);
        assert(dl.drop_first() =~= s.drop_first().drop_last());
        assert(s.drop_first().last() == s.last());
        assert(sum_counts(s.drop_first()) == sum_counts(s.drop_first().drop_last())
            + s.last().count);
    }
}

/// Unfold a skip-sum at its head.
pub proof fn lemma_sum_skip_unfold(cs: Seq<Node>, i: int)
    requires
        0 <= i < cs.len(),
    ensures
        sum_counts(cs.skip(i)) == cs[i].count + sum_counts(cs.skip(i + 1)),
{
    let s = cs.skip(i);
    lemma_sum_head(s);
    assert(s[0] == cs[i]);
    assert(s.drop_first() =~= cs.skip(i + 1));
}

/// The embedded interactivity script: click to zoom, a search box that
/// highlights matches, and frame details on hover. A fixed asset; no
/// input data is interpolated into it.
fn interactivity_script() -> (r: &'static str) {
    "var details, searchbtn, matchedtxt, svg, searching = 0;\
     function init(evt) {\
       details = document.getElementById('details').firstChild;\
       searchbtn = document.getElementById('search');\
       matchedtxt = document.getElementById('matched');\
       svg = document.getElementsByTagName('svg')[0];\
     }\
     function s(node) { details.nodeValue = node.getAttribute('data-info'); }\
     function c() { details.nodeValue = ' '; }\
     function find_group(x) {\
       while (x && x.tagName != 'g') { x = x.parentNode; }\
       return x;\
     }\
     function zoom(node) {\
       var g = find_group(node);\
       if (!g) { return; }\
       var r = g.getElementsByTagName('rect')[0];\
       var x0 = parseFloat(r.getAttribute('x'));\
       var w0 = parseFloat(r.getAttribute('width'));\
       var full = parseFloat(svg.getAttribute('width')) - 20;\
       var k = full / w0;\
       var gs = document.getElementsByTagName('g');\
       for (var i = 0; i < gs.length; i++) {\
         var rr = gs[i].getElementsByTagName('rect')[0];\
         if (!rr) { continue; }\
         var x = (parseFloat(rr.getAttribute('x')) - x0) * k + 10;\
         rr.setAttribute('x', x);\
         rr.setAttribute('width', parseFloat(rr.getAttribute('width')) * k);\
       }\
     }\
     function search(term) {\
       var re = new RegExp(term);\
       var gs = document.getElementsByTagName('g');\
       var matched = 0;\
       for (var i = 0; i < gs.length; i++) {\
         var t = gs[i].getElementsByTagName('title')[0];\
         if (!t) { continue; }\
         var rr = gs[i].getElementsByTagName('rect')[0];\
         if (re.test(t.textContent)) {\
           rr.setAttribute('stroke', 'rgb(200,0,200)');\
           matched++;\
         } else {\
           rr.removeAttribute('stroke');\
         }\
       }\
       matchedtxt.nodeValue = 'Matched: ' + matched;\
     }\
     function search_prompt() {\
       if (!searching) {\
         var term = prompt('Enter a search term (regexp allowed)', '');\
         if (term != null) { search(term); searching = 1; searchbtn.nodeValue = 'Reset Search'; }\
       } else {\
         searching = 0; searchbtn.nodeValue = 'Search';\
         search('\\0');\
         matchedtxt.nodeValue = ' ';\
       }\
     }"
}

/// Render folded entries to an SVG document, without consistent
/// coloring.
pub fn render(entries: &Vec<Entry>, opts: &Options, attrs: &FrameAttrs) -> (r: Result<
    Vec<u8>,
    RenderError,
>)
    ensures
        match r {
            Ok(svg) => spec_valid_options(*opts) && svg@.len() > 0 && !scaled_overflows(
                entries_view(entries@),
                opts.factor_milli,
            ) && total_scaled(entries_view(entries@), opts.factor_milli) <= u64::MAX,
            Err(RenderError::InvalidOptions) => !spec_valid_options(*opts),
            Err(RenderError::CountOverflow) => spec_valid_options(*opts) && (scaled_overflows(
                entries_view(entries@),
                opts.factor_milli,
            ) || total_scaled(entries_view(entries@), opts.factor_milli) > u64::MAX),
        },
{
    let mut unused = PaletteMap::new();
    render_impl(entries, opts, attrs, &mut unused, false)
}

/// Render with a consistent palette map: stored colors win and new
/// frames extend the map.
pub fn render_consistent(
    entries: &Vec<Entry>,
    opts: &Options,
    attrs: &FrameAttrs,
    palette: &mut PaletteMap,
) -> (r: Result<Vec<u8>, RenderError>)
    requires
        old(palette).wf(),
    ensures
        final(palette).wf(),
        crate::palette_map::pm_extends(final(palette)@, old(palette)@),
        match r {
            Ok(svg) => spec_valid_options(*opts) && svg@.len() > 0 && !scaled_overflows(
                entries_view(entries@),
                opts.factor_milli,
            ) && total_scaled(entries_view(entries@), opts.factor_milli) <= u64::MAX,
            Err(RenderError::InvalidOptions) => !spec_valid_options(*opts),
            Err(RenderError::CountOverflow) => spec_valid_options(*opts) && (scaled_overflows(
                entries_view(entries@),
                opts.factor_milli,
            ) || total_scaled(entries_view(entries@), opts.factor_milli) > u64::MAX),
        },
{
    render_impl(entries, opts, attrs, palette, true)
}

/// Whether a byte string holds a newline.
fn has_nl(s: &[u8]) -> (r: bool)
    ensures
        r == !crate::util::no_nl(s@),
{
    let mut i: usize = 0;
    while i < s.len()
        invariant
            0 <= i <= s@.len(),
            forall|x: int| 0 <= x < i ==> s@[x] != B_NL,
        decreases s@.len() - i,
    {
        if s[i] == B_NL {
            return true;
        }
        i = i + 1;
    }
    false
}

#[verifier::rlimit(100)]
fn render_impl(
    entries: &Vec<Entry>,
    opts: &Options,
    attrs: &FrameAttrs,
    palette: &mut PaletteMap,
    consistent: bool,
) -> (r: Result<Vec<u8>, RenderError>)
    requires
        old(palette).wf(),
    ensures
        final(palette).wf(),
        crate::palette_map::pm_extends(final(palette)@, old(palette)@),
        match r {
            Ok(svg) => spec_valid_options(*opts) && svg@.len() > 0 && !scaled_overflows(
                entries_view(entries@),
                opts.factor_milli,
            ) && total_scaled(entries_view(entries@), opts.factor_milli) <= u64::MAX,
            Err(RenderError::InvalidOptions) => !spec_valid_options(*opts),
            Err(RenderError::CountOverflow) => spec_valid_options(*opts) && (scaled_overflows(
                entries_view(entries@),
                opts.factor_milli,
            ) || total_scaled(entries_view(entries@), opts.factor_milli) > u64::MAX),
        },
{
    if !opts.validate() {
        return Err(RenderError::InvalidOptions);
    }
    let root = match build_tree(entries, opts.factor_milli) {
        Ok(n) => n,
        Err(FoldError::CountOverflow) => {
            return Err(RenderError::CountOverflow);
        },
    };
    let inner_mpx: u64 = (opts.image_width - 2 * XPAD) * 1000;
    let total: u64 = root.count;
    let (rects, max_depth) = layout_graph(&root, inner_mpx, opts.min_width_mpx);
    proof {
        assert(root.children@.skip(0) =~= root.children@);
        crate::layout::lemma_sum_nonneg(root.children@);
        lemma_frames_bounded_kids(
            root,
            0,
            0,
            0,
            inner_mpx as int,
            opts.min_width_mpx as int,
            total as int,
            total as int,
        );
    }
    // vertical geometry, in pixels
    let pad_top: u64 = opts.font_size * 3 + (match &opts.subtitle {
        Option::Some(_) => opts.font_size * 2,
        Option::None => 0,
    });
    let pad_bottom: u64 = opts.font_size * 2 + 10;
    let mdep: u64 = if max_depth > DEPTH_CAP {
        DEPTH_CAP
    } else {
        max_depth
    };
    proof {
        assert((mdep + 1) * opts.frame_height <= 0x1_0000_0000 * 0xFFFF) by (nonlinear_arith)
            requires
                mdep <= 0xFFFF_FFFF,
                opts.frame_height <= 0xFFFF,
        ;
    }
    let height: u64 = (mdep + 1) * opts.frame_height + pad_top + pad_bottom;
    let mut out: Vec<u8> = Vec::new();
    let pretty = opts.pretty_xml;
    push_str(&mut out, "<?xml version=\"1.0\" standalone=\"no\"?>");
    out.push(B_NL);
    push_str(
        &mut out,
        "<svg version=\"1.1\" xmlns=\"http://www.w3.org/2000/svg\" xmlns:xlink=\"http://www.w3.org/1999/xlink\" onload=\"init(evt)\" width=\"",
    );
    push_u64(&mut out, opts.image_width);
    push_str(&mut out, "\" height=\"");
    push_u64(&mut out, height);
    push_str(&mut out, "\" viewBox=\"0 0 ");
    push_u64(&mut out, opts.image_width);
    out.push(32);
    push_u64(&mut out, height);
    push_str(&mut out, "\">");
    sep(&mut out, pretty);
    // notes, as a comment
    if opts.notes.len() > 0 {
        push_str(&mut out, "<!-- ");
        push_escaped(&mut out, opts.notes.as_slice());
        push_str(&mut out, " -->");
        sep(&mut out, pretty);
    }
    // background definition
    let flat: Option<Rgb> = match opts.bgcolors {
        BackgroundColor::Flat(c) => Some(c),
        BackgroundColor::Yellow => None,
        BackgroundColor::Blue => None,
        BackgroundColor::Green => None,
        BackgroundColor::Grey => None,
    };
    match flat {
        Option::Some(_) => {},
        Option::None => {
            push_str(
                &mut out,
                "<defs><linearGradient id=\"background\" y1=\"0\" y2=\"1\" x1=\"0\" x2=\"0\"><stop stop-color=\"",
            );
            match opts.bgcolors {
                BackgroundColor::Blue => push_str(&mut out, "#eeeeee\" offset=\"5%\"/><stop stop-color=\"#e0e0ff"),
                BackgroundColor::Green => push_str(&mut out, "#eef2ee\" offset=\"5%\"/><stop stop-color=\"#e0ffe0"),
                BackgroundColor::Grey => push_str(&mut out, "#f8f8f8\" offset=\"5%\"/><stop stop-color=\"#e8e8e8"),
                _ => push_str(&mut out, "#eeeeee\" offset=\"5%\"/><stop stop-color=\"#eeeeb0"),
            }
            push_str(&mut out, "\" offset=\"95%\"/></linearGradient></defs>");
            sep(&mut out, pretty);
        },
    }
    // style
    push_str(&mut out, "<style type=\"text/css\">text { font-family:");
    push_escaped(&mut out, opts.font_type.as_slice());
    push_str(&mut out, "; font-size:");
    push_u64(&mut out, opts.font_size);
    push_str(
        &mut out,
        "px; fill:rgb(0,0,0); } #search, #title { text-anchor:middle; } #search { cursor:pointer; }</style>",
    );
    sep(&mut out, pretty);
    // script
    if !opts.no_javascript {
        push_str(&mut out, "<script type=\"text/ecmascript\"><![CDATA[");
        push_str(&mut out, interactivity_script());
        push_str(&mut out, "]]></script>");
        sep(&mut out, pretty);
    }
    // background rectangle
    push_str(&mut out, "<rect x=\"0\" y=\"0\" width=\"");
    push_u64(&mut out, opts.image_width);
    push_str(&mut out, "\" height=\"");
    push_u64(&mut out, height);
    push_str(&mut out, "\" fill=\"");
    match flat {
        Option::Some(c) => push_rgb(&mut out, c),
        Option::None => push_str(&mut out, "url(#background)"),
    }
    push_str(&mut out, "\"/>");
    sep(&mut out, pretty);
    // title block
    push_str(&mut out, "<text id=\"title\" x=\"");
    push_u64(&mut out, opts.image_width / 2);
    push_str(&mut out, "\" y=\"");
    push_u64(&mut out, opts.font_size * 2);
    push_str(&mut out, "\">");
    match &opts.title {
        Option::Some(t) => push_escaped(&mut out, t.as_slice()),
        Option::None => {
            match opts.direction {
                Direction::Inverted => push_str(&mut out, "Icicle Graph"),
                Direction::Flames => push_str(&mut out, "Flame Graph"),
            }
        },
    }
    push_str(&mut out, "</text>");
    sep(&mut out, pretty);
    match &opts.subtitle {
        Option::Some(t) => {
            push_str(&mut out, "<text id=\"subtitle\" x=\"");
            push_u64(&mut out, opts.image_width / 2);
            push_str(&mut out, "\" y=\"");
            push_u64(&mut out, opts.font_size * 4);
            push_str(&mut out, "\">");
            push_escaped(&mut out, t.as_slice());
            push_str(&mut out, "</text>");
            sep(&mut out, pretty);
        },
        Option::None => {},
    }
    // fixed UI text
    push_str(&mut out, "<text id=\"details\" x=\"");
    push_u64(&mut out, XPAD);
    push_str(&mut out, "\" y=\"");
    push_u64(&mut out, height - opts.font_size);
    push_str(&mut out, "\"> </text>");
    sep(&mut out, pretty);
    let search_x: u64 = if opts.image_width > XPAD + 80 {
        opts.image_width - XPAD - 80
    } else {
        XPAD
    };
    push_str(&mut out, "<text id=\"search\" onclick=\"search_prompt()\" x=\"");
    push_u64(&mut out, search_x);
    push_str(&mut out, "\" y=\"");
    push_u64(&mut out, opts.font_size * 2);
    push_str(&mut out, "\">Search</text>");
    sep(&mut out, pretty);
    push_str(&mut out, "<text id=\"matched\" x=\"");
    push_u64(&mut out, search_x);
    push_str(&mut out, "\" y=\"");
    push_u64(&mut out, height - opts.font_size);
    push_str(&mut out, "\"> </text>");
    sep(&mut out, pretty);
    // the frames
    if total >= 1 {
        proof {
            assert forall|k: int| 0 <= k < rects@.len() implies (#[trigger] rects@[k]).depth
                <= mdep by {
                assert(rects_view(rects@)[k] == crate::layout::rect_view(rects@[k]));
            }
        }
        let inverted = match opts.direction {
            Direction::Inverted => true,
            Direction::Flames => false,
        };
        let mut fi: usize = 0;
        while fi < rects.len()
            invariant
                palette.wf(),
                crate::palette_map::pm_extends(palette@, old(palette)@),
                1 <= total,
                spec_valid_options(*opts),
                inner_mpx == (opts.image_width - 2 * XPAD) * 1000,
                mdep <= DEPTH_CAP,
                pad_top <= 5 * 0xFFF,
                forall|k: int| 0 <= k < rects@.len() ==> {
                    let e = #[trigger] rects_view(rects@)[k];
                    0 <= e.1 <= DEPTH_CAP && 0 <= e.2 && 0 <= e.3 && e.2 + e.3
                        <= total
                },
                forall|k: int| 0 <= k < rects@.len() ==> (#[trigger] rects@[k]).depth
                    <= mdep,
            decreases rects@.len() - fi,
        {
            let rc = &rects[fi];
            proof {
                assert(rects_view(rects@)[fi as int] == crate::layout::rect_view(
                    rects@[fi as int],
                ));
            }
            let xu: u64 = rc.x_units;
            let wu: u64 = rc.w_units;
            proof {
                assert(xu as int * inner_mpx as int >= 0) by (nonlinear_arith)
                    requires
                        xu >= 0,
                        inner_mpx >= 0,
                ;
                vstd::arithmetic::mul::lemma_mul_inequality(
                    xu as int,
                    xu as int + wu as int,
                    inner_mpx as int,
                );
                vstd::arithmetic::div_mod::lemma_div_is_ordered(
                    xu as int * inner_mpx as int,
                    (xu as int + wu as int) * inner_mpx as int,
                    total as int,
                );
            }
            let x0: u64 = XPAD * 1000 + px_of(xu, inner_mpx, total);
            let x1: u64 = XPAD * 1000 + px_of(xu + wu, inner_mpx, total);
            let w: u64 = x1 - x0;
            let depth: u64 = if rc.depth > mdep {
                mdep
            } else {
                rc.depth
            };
            let y: u64 = crate::layout::y_of(
                depth,
                inverted,
                mdep,
                opts.frame_height,
                pad_top,
            );
            proof {
                assert(mdep * opts.frame_height <= 0xFFFF_FFFF * 0xFFFF) by (nonlinear_arith)
                    requires
                        mdep <= 0xFFFF_FFFF,
                        opts.frame_height <= 0xFFFF,
                ;
            }
            emit_frame_group(
                &mut out,
                opts,
                attrs,
                palette,
                consistent,
                &rc.name,
                fi as u64,
                wu,
                x0,
                w,
                y,
                total,
            );
            fi = fi + 1;
        }
    } else {
        push_str(&mut out, "<text x=\"");
        push_u64(&mut out, opts.image_width / 2);
        push_str(&mut out, "\" y=\"");
        push_u64(&mut out, pad_top + opts.frame_height);
        push_str(&mut out, "\">no data</text>");
        sep(&mut out, pretty);
    }
    push_str(&mut out, "</svg>");
    out.push(B_NL);
    proof {
        assert(out@.len() > 0);
    }
    Ok(out)
}


/// Emit one frame's `<g>` group: tooltip, rectangle, truncated label.
fn emit_frame_group(
    out: &mut Vec<u8>,
    opts: &Options,
    attrs: &FrameAttrs,
    palette: &mut PaletteMap,
    consistent: bool,
    name: &Vec<u8>,
    fi: u64,
    wu: u64,
    x0: u64,
    w: u64,
    y: u64,
    total: u64,
)
    requires
        old(palette).wf(),
        spec_valid_options(*opts),
        1 <= total,
        wu <= total,
        y <= 0x2_0000_0000_0000,
        x0 <= 0x2_0000_0000_0000,
    ensures
        final(palette).wf(),
        crate::palette_map::pm_extends(final(palette)@, old(palette)@),
{
    let pretty = opts.pretty_xml;
    let computed = color_for(
        opts.colors,
        opts.hash,
        name.as_slice(),
        if fi > 0xFFFF_FFFE {
            0xFFFF_FFFE
        } else {
            fi
        },
    );
    let fill: Rgb = if consistent && name.len() > 0 && !has_nl(name.as_slice()) {
        palette.resolve(name.as_slice(), computed)
    } else {
        computed
    };
    // group with tooltip and optional per-frame attributes
    push_str(out, "<g id=\"frame");
    push_u64(out, fi);
    push_str(out, "\" class=\"func_g\" onmouseover=\"s(this)\" onmouseout=\"c()\" onclick=\"zoom(this)\" data-info=\"");
    push_escaped(out, opts.name_type.as_slice());
    out.push(32);
    push_escaped(out, name.as_slice());
    push_str(out, " (");
    push_u64(out, wu);
    out.push(32);
    push_escaped(out, opts.count_name.as_slice());
    push_str(out, ")\"");
    match attrs.find(name.as_slice()) {
        Option::Some(ai) => {
            let pairs = &attrs.entries[ai].1;
            let mut pi: usize = 0;
            while pi < pairs.len()
                decreases pairs@.len() - pi,
            {
                out.push(32);
                push_bytes(out, pairs[pi].0.as_slice());
                push_str(out, "=\"");
                push_escaped(out, pairs[pi].1.as_slice());
                out.push(34);
                pi = pi + 1;
            }
        },
        Option::None => {},
    }
    push_str(out, ">");
    sep(out, pretty);
    push_str(out, "<title>");
    push_escaped(out, name.as_slice());
    push_str(out, " (");
    push_u64(out, wu);
    out.push(32);
    push_escaped(out, opts.count_name.as_slice());
    push_str(out, ", ");
    let pct: u64 = pct_of(wu, total);
    push_u64(out, pct / 100);
    out.push(46);
    out.push(48 + ((pct % 100) / 10) as u8);
    out.push(48 + (pct % 10) as u8);
    push_str(out, "%)</title>");
    sep(out, pretty);
    push_str(out, "<rect x=\"");
    push_frac2(out, x0);
    push_str(out, "\" y=\"");
    push_u64(out, y);
    push_str(out, "\" width=\"");
    push_frac2(out, w);
    push_str(out, "\" height=\"");
    push_u64(out, opts.frame_height);
    push_str(out, "\" fill=\"");
    push_rgb(out, fill);
    push_str(out, "\"/>");
    sep(out, pretty);
    // label, truncated to the frame's width
    proof {
        assert(opts.font_size * opts.font_width_centi <= 0xFFF * 0xFFF) by (nonlinear_arith)
            requires
                0 <= opts.font_size <= 0xFFF,
                0 <= opts.font_width_centi <= 0xFFF,
        ;
    }
    let acw: u64 = opts.font_size * opts.font_width_centi / 100;
    let wpx: u64 = w / 1000;
    let fit: u64 = if wpx > 6 {
        (wpx - 6) / acw
    } else {
        0
    };
    push_str(out, "<text x=\"");
    push_frac2(out, x0 + 3000);
    push_str(out, "\" y=\"");
    push_u64(out, y + opts.frame_height / 2 + opts.font_size / 2);
    push_str(out, "\">");
    if fit >= 3 {
        if (name.len() as u64) <= fit {
            push_escaped(out, name.as_slice());
        } else {
            let keep: u64 = fit - 2;
            let k2: usize = keep as usize;
            let head = crate::util::copy_range(
                name.as_slice(),
                0,
                if k2 < name.len() {
                    k2
                } else {
                    name.len()
                },
            );
            push_escaped(out, head.as_slice());
            push_str(out, "..");
        }
    }
    push_str(out, "</text>");
    sep(out, pretty);
    push_str(out, "</g>");
    sep(out, pretty);
}

/// Percentage of `w` in `total`, in hundredths of a percent.
fn pct_of(w: u64, total: u64) -> (r: u64)
    requires
        1 <= total,
        w <= total,
    ensures
        r <= 10000,
{
    proof {
        assert((w as u128) * 10000 < 0x1_0000_0000_0000_0000_0000_0000_0000_0000)
            by (nonlinear_arith)
            requires
                w < 0x1_0000_0000_0000_0000,
        ;
        vstd::arithmetic::mul::lemma_mul_inequality(w as int, total as int, 10000);
        vstd::arithmetic::div_mod::lemma_div_is_ordered(
            w as int * 10000,
            total as int * 10000,
            total as int,
        );
        vstd::arithmetic::div_mod::lemma_div_multiples_vanish(10000, total as int);
        vstd::arithmetic::div_mod::lemma_div_pos_is_pos(w as int * 10000, total as int);
        assert(w as int * 10000 >= 0) by (nonlinear_arith)
            requires
                w >= 0,
        ;
    }
    let r128: u128 = (w as u128) * 10000 / (total as u128);
    r128 as u64
}

} // verus!
