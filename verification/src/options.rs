//! Renderer configuration: an immutable value object with validated
//! numeric fields.
//!
//! Fractional quantities are carried as exact integers so that layout
//! and color choice stay deterministic: the pruning threshold in
//! millipixels, the count factor in thousandths, and the average glyph
//! width in hundredths of the font size.

use vstd::prelude::*;
use vstd::string::StringSliceAdditionalSpecFns;
use crate::color::{BackgroundColor, Palette};
use crate::util::copy_range;

verus! {

/// Graph direction: a flame grows upward, an icicle downward.
#[derive(Clone, Copy, Debug, PartialEq, Eq, Structural)]
pub enum Direction {
    Flames,
    Inverted,
}

/// Renderer options.
pub struct Options {
    /// Palette name.
    pub colors: Palette,
    /// Background gradient or flat color.
    pub bgcolors: BackgroundColor,
    /// Key color variation by a hash of the frame name.
    pub hash: bool,
    /// Top title; `None` selects the direction's default.
    pub title: Option<Vec<u8>>,
    /// Optional second title line.
    pub subtitle: Option<Vec<u8>>,
    /// Image width in pixels.
    pub image_width: u64,
    /// Height of one frame in pixels.
    pub frame_height: u64,
    /// Pruning threshold in millipixels.
    pub min_width_mpx: u64,
    /// Font family.
    pub font_type: Vec<u8>,
    /// Font size in points.
    pub font_size: u64,
    /// Average glyph width, in hundredths of the font size.
    pub font_width_centi: u64,
    /// Unit label for counts.
    pub count_name: Vec<u8>,
    /// Prefix for the details line.
    pub name_type: Vec<u8>,
    /// Embedded notes comment.
    pub notes: Vec<u8>,
    /// Flame or icicle layout.
    pub direction: Direction,
    /// Swap the differential hues.
    pub negate_differentials: bool,
    /// Count multiplier in thousandths, applied at read time.
    pub factor_milli: u64,
    /// Indent the emitted XML.
    pub pretty_xml: bool,
    /// Omit the embedded interactivity script.
    pub no_javascript: bool,
}

/// Machine limits and the positivity the options model demands: every
/// numeric field positive except the pruning threshold, the image wide
/// enough for its side padding, and a readable average glyph width.
pub open spec fn spec_valid_options(o: Options) -> bool {
    &&& 21 <= o.image_width <= 0xFFFF_FFFF
    &&& 1 <= o.frame_height <= 0xFFFF
    &&& 1 <= o.font_size <= 0xFFF
    &&& 1 <= o.font_width_centi <= 0xFFF
    &&& o.font_size * o.font_width_centi >= 100
    &&& 1 <= o.factor_milli <= 0xFFFF_FFFF
    &&& o.min_width_mpx <= 0xFFFF_FFFF_FFFF
}

impl Options {
    /// Check the option invariants before any work starts.
    pub fn validate(&self) -> (r: bool)
        ensures
            r == spec_valid_options(*self),
    {
        if !(21 <= self.image_width && self.image_width <= 0xFFFF_FFFF) {
            return false;
        }
        if !(1 <= self.frame_height && self.frame_height <= 0xFFFF) {
            return false;
        }
        if !(1 <= self.font_size && self.font_size <= 0xFFF) {
            return false;
        }
        if !(1 <= self.font_width_centi && self.font_width_centi <= 0xFFF) {
            return false;
        }
        proof {
            assert(self.font_size * self.font_width_centi <= 0xFFF * 0xFFF)
                by (nonlinear_arith)
                requires
                    0 <= self.font_size <= 0xFFF,
                    0 <= self.font_width_centi <= 0xFFF,
            ;
        }
        if self.font_size * self.font_width_centi < 100 {
            return false;
        }
        if !(1 <= self.factor_milli && self.factor_milli <= 0xFFFF_FFFF) {
            return false;
        }
        self.min_width_mpx <= 0xFFFF_FFFF_FFFF
    }
}

/// The bytes of a string literal.
pub fn bytes_of(s: &str) -> (r: Vec<u8>)
    ensures
        r@ == s.spec_bytes(),
{
    let b = s.as_bytes();
    let r = copy_range(b, 0, b.len());
    proof {
        assert(r@ =~= b@);
    }
    r
}

impl Default for Options {
    /// The documented defaults: `hot` on a yellow gradient, 1200 pixels
    /// wide, 16-pixel frames, a 0.1-pixel pruning threshold, Verdana 12
    /// with a 0.59 glyph width, counts in `samples`, factor 1.
    fn default() -> (r: Options)
        ensures
            r.colors == Palette::Hot,
            r.bgcolors == BackgroundColor::Yellow,
            !r.hash,
            r.title is None,
            r.subtitle is None,
            r.image_width == 1200,
            r.frame_height == 16,
            r.min_width_mpx == 100,
            r.font_size == 12,
            r.font_width_centi == 59,
            r.direction == Direction::Flames,
            !r.negate_differentials,
            r.factor_milli == 1000,
            !r.pretty_xml,
            !r.no_javascript,
            spec_valid_options(r),
    {
        Options {
            colors: Palette::Hot,
            bgcolors: BackgroundColor::Yellow,
            hash: false,
            title: Option::None,
            subtitle: Option::None,
            image_width: 1200,
            frame_height: 16,
            min_width_mpx: 100,
            font_type: bytes_of("Verdana"),
            font_size: 12,
            font_width_centi: 59,
            count_name: bytes_of("samples"),
            name_type: bytes_of("Function:"),
            notes: Vec::new(),
            direction: Direction::Flames,
            negate_differentials: false,
            factor_milli: 1000,
            pretty_xml: false,
            no_javascript: false,
        }
    }
}

} // verus!
