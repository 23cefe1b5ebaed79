//! Side-by-side layout: splitting the width into two panels, finding lines
//! too long for them, and composing the two panels of each row.
use crate::minusplus::{MinusPlus, MinusPlusIndex};
use crate::segmentation::grapheme_count;
pub use crate::wrapping::line_is_too_long;
use crate::wrapping::State;
use vstd::prelude::*;

verus! {

/// A value an option can be given.
#[derive(Clone, Debug, PartialEq, Eq)]
pub enum OptionValue {
    Boolean(bool),
    Text(String),
}

/// The options that side-by-side mode sets: itself, the line-numbers
/// feature, and line-number formats with a centred four-column field.
pub fn make_feature() -> (r: Vec<(String, OptionValue)>)
    ensures
        r@.len() == 4,
        r@[0].0@ == "side-by-side"@,
        r@[0].1 == OptionValue::Boolean(true),
        r@[1].0@ == "features"@,
        r@[1].1 matches OptionValue::Text(t) && t@ == "line-numbers"@,
        r@[2].0@ == "line-numbers-left-format"@,
        r@[2].1 matches OptionValue::Text(t) && t@ == "│{nm:^4}│"@,
        r@[3].0@ == "line-numbers-right-format"@,
        r@[3].1 matches OptionValue::Text(t) && t@ == "│{np:^4}│"@,
{
    let mut r: Vec<(String, OptionValue)> = Vec::new();
    r.push((String::from_str("side-by-side"), OptionValue::Boolean(true)));
    r.push((String::from_str("features"), OptionValue::Text(String::from_str("line-numbers"))));
    r.push(
        (
            String::from_str("line-numbers-left-format"),
            OptionValue::Text(String::from_str("│{nm:^4}│")),
        ),
    );
    r.push(
        (
            String::from_str("line-numbers-right-format"),
            OptionValue::Text(String::from_str("│{np:^4}│")),
        ),
    );
    r
}

/// One of the two panels.
#[derive(Clone, Copy, Debug, PartialEq, Eq, Structural)]
pub struct Panel {
    pub width: usize,
}

/// The left and the right panel.
pub type SideBySideData = MinusPlus<Panel>;

/// The total width asked for.
#[derive(Clone, Copy, Debug, PartialEq, Eq, Structural)]
pub enum Width {
    Fixed(usize),
    Variable,
}

/// How the background of a row is extended to the panel's right edge.
#[derive(Clone, Copy, Debug, PartialEq, Eq, Structural)]
pub enum BgFillMethod {
    /// An escape sequence that colours the rest of the terminal row.
    TryAnsiSequence,
    /// Spaces up to the panel's width.
    Spaces,
}

impl MinusPlus<Panel> {
    /// Two panels, each half of the fixed width if one is given, else half
    /// of the terminal's width, rounded down.
    pub fn new_sbs(decorations_width: &Width, available_terminal_width: &usize) -> (r: Self)
        ensures
            r.minus.width == r.plus.width,
            r.minus.width == match *decorations_width {
                Width::Fixed(w) => w / 2,
                Width::Variable => *available_terminal_width / 2,
            },
    {
        let panel_width = match decorations_width {
            Width::Fixed(w) => *w / 2,
            Width::Variable => *available_terminal_width / 2,
        };
        MinusPlus::new(Panel { width: panel_width }, Panel { width: panel_width })
    }
}

/// Is the width fixed and odd while the right panel is filled with the
/// escape sequence?
pub open spec fn odd_with_ansi(width: Width, method: BgFillMethod) -> bool {
    method == BgFillMethod::TryAnsiSequence && match width {
        Width::Fixed(w) => w % 2 == 1,
        Width::Variable => false,
    }
}

/// Whether the right panel is one column wider, with a padding column before
/// its line numbers, so that the two panels fill an odd width whose last
/// column the escape sequence would colour anyway.
#[derive(Clone, Copy, Debug, PartialEq, Eq, Structural)]
pub struct UseFullPanelWidth(pub bool);

impl UseFullPanelWidth {
    pub fn new(side_by_side: bool, decorations_width: &Width, line_fill_method: &BgFillMethod) -> (r: Self)
        ensures
            r.0 == (side_by_side && odd_with_ansi(*decorations_width, *line_fill_method)),
    {
        UseFullPanelWidth(side_by_side && Self::is_odd_with_ansi(decorations_width, line_fill_method))
    }

    /// The panels, the right one a column wider where the width is odd and
    /// filled with the escape sequence.
    pub fn sbs_odd_fix(width: &Width, method: &BgFillMethod, sbs_data: SideBySideData) -> (r:
        SideBySideData)
        requires
            sbs_data.plus.width < usize::MAX,
        ensures
            r.minus == sbs_data.minus,
            r.plus.width == if odd_with_ansi(*width, *method) {
                sbs_data.plus.width + 1
            } else {
                sbs_data.plus.width as int
            },
    {
        if Self::is_odd_with_ansi(width, method) {
            Self::adapt_sbs_data(sbs_data)
        } else {
            sbs_data
        }
    }

    pub fn pad_width(&self) -> (r: bool)
        ensures
            r == self.0,
    {
        self.0
    }

    fn is_odd_with_ansi(width: &Width, method: &BgFillMethod) -> (r: bool)
        ensures
            r == odd_with_ansi(*width, *method),
    {
        *method == BgFillMethod::TryAnsiSequence && match width {
            Width::Fixed(w) => *w % 2 == 1,
            Width::Variable => false,
        }
    }

    fn adapt_sbs_data(sbs_data: SideBySideData) -> (r: SideBySideData)
        requires
            sbs_data.plus.width < usize::MAX,
        ensures
            r.minus == sbs_data.minus,
            r.plus.width == sbs_data.plus.width + 1,
    {
        let mut sbs_data = sbs_data;
        sbs_data.plus.width = sbs_data.plus.width + 1;
        sbs_data
    }
}

/// `a - b`, or zero where `b` is larger.
pub open spec fn sat_sub(a: int, b: int) -> int {
    if a >= b {
        a - b
    } else {
        0
    }
}

/// The width left for content in each panel once the line numbers and,
/// where kept, the one-column `+`/`-` marker are taken off.
pub fn available_line_width(
    sbs_data: &SideBySideData,
    line_numbers_width: &MinusPlus<usize>,
    keep_plus_minus_markers: bool,
) -> (r: MinusPlus<usize>)
    ensures
        r.minus == sat_sub(
            sat_sub(sbs_data.minus.width as int, line_numbers_width.minus as int),
            if keep_plus_minus_markers { 1int } else { 0int },
        ),
        r.plus == sat_sub(
            sat_sub(sbs_data.plus.width as int, line_numbers_width.plus as int),
            if keep_plus_minus_markers { 1int } else { 0int },
        ),
{
    let marker: usize = if keep_plus_minus_markers { 1 } else { 0 };
    let left = sbs_data.minus.width.saturating_sub(line_numbers_width.minus).saturating_sub(marker);
    let right = sbs_data.plus.width.saturating_sub(line_numbers_width.plus).saturating_sub(marker);
    MinusPlus::new(left, right)
}

/// Is any of `flags` set?
pub open spec fn any_flagged(flags: Seq<bool>) -> bool {
    exists|i: int| 0 <= i < flags.len() && flags[i]
}

/// Is each line of `lines` too long for `line_width`?
fn flag_long_lines(lines: &Vec<(String, State)>, line_width: usize) -> (r: (bool, Vec<bool>))
    ensures
        r.1@.len() == lines@.len(),
        forall|i: int|
            0 <= i < lines@.len() ==> r.1@[i] == (grapheme_count(lines@[i].0@) > line_width as int
                + 2),
        r.0 == any_flagged(r.1@),
{
    let mut flags: Vec<bool> = Vec::new();
    let mut any = false;
    let mut i: usize = 0;
    while i < lines.len()
        invariant
            i <= lines@.len(),
            flags@.len() == i,
            forall|j: int|
                0 <= j < i ==> flags@[j] == (grapheme_count(lines@[j].0@) > line_width as int + 2),
            any == any_flagged(flags@),
        decreases lines@.len() - i,
    {
        let too_long = line_is_too_long(lines[i].0.as_str(), line_width);
        let ghost prev = flags@;
        flags.push(too_long);
        proof {
            assert(forall|j: int| 0 <= j < i ==> flags@[j] == prev[j]);
            if too_long {
                assert(flags@[i as int]);
            }
            if any {
                let j = choose|j: int| 0 <= j < prev.len() && prev[j];
                assert(flags@[j]);
            }
            if any_flagged(flags@) && !too_long {
                let j = choose|j: int| 0 <= j < flags@.len() && flags@[j];
                assert(prev[j]);
            }
        }
        any = any || too_long;
        i = i + 1;
    }
    (any, flags)
}

/// Whether any line of either side is too long for its panel, and for each
/// line whether it is.
pub fn has_long_lines(lines: &MinusPlus<Vec<(String, State)>>, line_width: &MinusPlus<usize>) -> (r:
    (bool, MinusPlus<Vec<bool>>))
    ensures
        r.1.minus@.len() == lines.minus@.len(),
        r.1.plus@.len() == lines.plus@.len(),
        forall|i: int|
            0 <= i < lines.minus@.len() ==> r.1.minus@[i] == (grapheme_count(lines.minus@[i].0@)
                > line_width.minus as int + 2),
        forall|i: int|
            0 <= i < lines.plus@.len() ==> r.1.plus@[i] == (grapheme_count(lines.plus@[i].0@)
                > line_width.plus as int + 2),
        r.0 == (any_flagged(r.1.minus@) || any_flagged(r.1.plus@)),
{
    let (any_left, left) = flag_long_lines(&lines.minus, line_width.minus);
    let (any_right, right) = flag_long_lines(&lines.plus, line_width.plus);
    let flags = MinusPlus::new(left, right);
    (any_left || any_right, flags)
}

} // verus!
