//! Composition of the half-rows that make up a side-by-side row: line-number
//! gutter, optional `+`/`-` marker, content, empty-line marker, truncation
//! and fill up to the panel's width.
use crate::minusplus::{MinusPlus, MinusPlusIndex};
use crate::segmentation::{grapheme_clusters, grapheme_count, graphemes};
use crate::side_by_side::BgFillMethod;
use crate::wrapping::{
    line_clusters, line_pieces, rows_view, wrap_rows, zero_forms_diverge, spaces, wrap_zero_block, wraps_as, AlignedPair, LineSegments, State, WrapConfig,
    WrapStyles,
};
use vstd::prelude::*;

verus! {

/// A rendered half-row: one cell per grapheme cluster, each with its style,
/// then, where `fill_to_end` is set, the escape sequence that colours the
/// rest of the terminal row in that style.
#[derive(Clone, Debug)]
pub struct PanelLine<S> {
    pub cells: Vec<(S, String)>,
    pub fill_to_end: Option<S>,
}

/// The texts of a sequence of cells.
pub open spec fn cell_texts<S>(cells: Seq<(S, String)>) -> Seq<Seq<char>> {
    cells.map_values(|c: (S, String)| c.1@)
}

/// Append one cell, in `style`, per grapheme cluster of `text`.
pub fn push_clusters<S: Copy>(cells: &mut Vec<(S, String)>, style: S, text: &str)
    ensures
        cell_texts(final(cells)@) == cell_texts(old(cells)@) + grapheme_clusters(text@),
        final(cells)@.len() == old(cells)@.len() + grapheme_clusters(text@).len(),
        final(cells)@.take(old(cells)@.len() as int) == old(cells)@,
        forall|i: int|
            old(cells)@.len() <= i < final(cells)@.len() ==> (#[trigger] final(cells)@[i]).0 == style,
{
    let clusters = graphemes(text);
    let ghost start = cells@.len();
    let ghost base = cells@;
    let mut i: usize = 0;
    while i < clusters.len()
        invariant
            i <= clusters@.len(),
            start == base.len(),
            cells@.len() == start + i,
            cells@.take(start as int) == base,
            cell_texts(cells@) == cell_texts(base) + grapheme_clusters(text@).take(i as int),
            grapheme_clusters(text@) == clusters@.map_values(|p: &str| p@),
            forall|j: int| start <= j < cells@.len() ==> (#[trigger] cells@[j]).0 == style,
        decreases clusters@.len() - i,
    {
        let ghost prev = cells@;
        let cell = String::from_str(clusters[i]);
        cells.push((style, cell));
        proof {
            assert(cells@.take(start as int) =~= prev.take(start as int));
            assert(cell@ == grapheme_clusters(text@)[i as int]);
            assert(cell_texts(cells@) =~= cell_texts(prev).push(cell@));
            assert(grapheme_clusters(text@).take(i + 1) =~= grapheme_clusters(text@).take(i as int).push(cell@));
            assert(cell_texts(cells@) =~= cell_texts(base) + grapheme_clusters(text@).take(i + 1));
        }
        i = i + 1;
    }
    proof {
        assert(grapheme_clusters(text@).take(clusters@.len() as int) =~= grapheme_clusters(text@));
    }
}

/// Append `n` cells holding a space, in `style`.
pub fn push_spaces<S: Copy>(cells: &mut Vec<(S, String)>, style: S, n: usize)
    ensures
        final(cells)@.len() == old(cells)@.len() + n,
        final(cells)@.take(old(cells)@.len() as int) == old(cells)@,
        forall|i: int|
            old(cells)@.len() <= i < final(cells)@.len() ==> (#[trigger] final(cells)@[i]).0 == style
                && final(cells)@[i].1@ == seq![' '],
{
    let ghost base = cells@;
    let mut i: usize = 0;
    while i < n
        invariant
            i <= n,
            cells@.len() == base.len() + i,
            cells@.take(base.len() as int) == base,
            forall|j: int|
                base.len() <= j < cells@.len() ==> (#[trigger] cells@[j]).0 == style && cells@[j].1@
                    == seq![' '],
        decreases n - i,
    {
        let ghost prev = cells@;
        let space = String::from_str(" ");
        proof {
            reveal_strlit(" ");
        }
        cells.push((style, space));
        proof {
            assert(cells@.take(base.len() as int) =~= prev.take(base.len() as int));
        }
        i = i + 1;
    }
}

/// Where a number stands in a field wider than it.
#[derive(Clone, Copy, Debug, PartialEq, Eq, Structural)]
pub enum Align {
    Left,
    Center,
    Right,
}

/// A piece of a line-number gutter: literal text, or the line number of
/// one side in a field of at least `width` columns.
#[derive(Clone, Debug)]
pub enum GutterPart {
    Text(String),
    Number { side: MinusPlusIndex, width: usize, align: Align },
}

pub open spec fn digit_char(d: nat) -> char {
    if d == 0 {
        '0'
    } else if d == 1 {
        '1'
    } else if d == 2 {
        '2'
    } else if d == 3 {
        '3'
    } else if d == 4 {
        '4'
    } else if d == 5 {
        '5'
    } else if d == 6 {
        '6'
    } else if d == 7 {
        '7'
    } else if d == 8 {
        '8'
    } else {
        '9'
    }
}

/// The decimal digits of `n`.
pub open spec fn decimal(n: nat) -> Seq<char>
    decreases n,
{
    if n < 10 {
        seq![digit_char(n)]
    } else {
        decimal(n / 10).push(digit_char(n % 10))
    }
}

/// `text` in a field of `width` columns.
pub open spec fn aligned(text: Seq<char>, width: nat, align: Align) -> Seq<char> {
    if text.len() >= width {
        text
    } else {
        let pad = (width - text.len()) as nat;
        let left = match align {
            Align::Left => 0,
            Align::Center => pad / 2,
            Align::Right => pad,
        };
        spaces(left) + text + spaces((pad - left) as nat)
    }
}

/// The text of one gutter part, for the given line numbers of the two sides.
pub open spec fn part_text(part: GutterPart, minus: Option<usize>, plus: Option<usize>) -> Seq<char> {
    match part {
        GutterPart::Text(t) => t@,
        GutterPart::Number { side, width, align } => {
            let n = match side {
                MinusPlusIndex::Minus => minus,
                MinusPlusIndex::Plus => plus,
            };
            aligned(
                match n {
                    Some(v) => decimal(v as nat),
                    None => Seq::empty(),
                },
                width as nat,
                align,
            )
        },
    }
}

/// The text of a gutter.
pub open spec fn gutter_text(parts: Seq<GutterPart>, minus: Option<usize>, plus: Option<usize>) -> Seq<
    char,
>
    decreases parts.len(),
{
    if parts.len() == 0 {
        Seq::empty()
    } else {
        gutter_text(parts.drop_last(), minus, plus) + part_text(parts.last(), minus, plus)
    }
}

fn digit_str(d: usize) -> (r: &'static str)
    requires
        d < 10,
    ensures
        r@ == seq![digit_char(d as nat)],
{
    proof {
        reveal_strlit("0");
        reveal_strlit("1");
        reveal_strlit("2");
        reveal_strlit("3");
        reveal_strlit("4");
        reveal_strlit("5");
        reveal_strlit("6");
        reveal_strlit("7");
        reveal_strlit("8");
        reveal_strlit("9");
    }
    if d == 0 {
        "0"
    } else if d == 1 {
        "1"
    } else if d == 2 {
        "2"
    } else if d == 3 {
        "3"
    } else if d == 4 {
        "4"
    } else if d == 5 {
        "5"
    } else if d == 6 {
        "6"
    } else if d == 7 {
        "7"
    } else if d == 8 {
        "8"
    } else {
        "9"
    }
}

fn push_decimal(s: &mut String, n: usize)
    ensures
        final(s)@ == old(s)@ + decimal(n as nat),
    decreases n,
{
    if n >= 10 {
        push_decimal(s, n / 10);
    }
    s.append(digit_str(n % 10));
    proof {
        assert(final(s)@ =~= old(s)@ + decimal(n as nat));
    }
}

fn push_space_chars(s: &mut String, n: usize)
    ensures
        final(s)@ == old(s)@ + spaces(n as nat),
{
    let ghost base = s@;
    let mut i: usize = 0;
    while i < n
        invariant
            i <= n,
            s@ == base + spaces(i as nat),
        decreases n - i,
    {
        s.append(" ");
        proof {
            reveal_strlit(" ");
            assert(s@ =~= base + spaces((i + 1) as nat));
        }
        i = i + 1;
    }
}

/// Append the text of one gutter part.
fn push_part(r: &mut String, part: &GutterPart, minus: Option<usize>, plus: Option<usize>)
    ensures
        final(r)@ == old(r)@ + part_text(*part, minus, plus),
{
    match part {
        GutterPart::Text(t) => {
            r.append(t.as_str());
        },
        GutterPart::Number { side, width, align } => {
            let n = match side {
                MinusPlusIndex::Minus => minus,
                MinusPlusIndex::Plus => plus,
            };
            let mut field = String::new();
            if let Some(v) = n {
                push_decimal(&mut field, v);
            }
            let len = field.as_str().unicode_len();
            if len >= *width {
                r.append(field.as_str());
            } else {
                let pad: usize = *width - len;
                let left: usize = match align {
                    Align::Left => 0,
                    Align::Center => pad / 2,
                    Align::Right => pad,
                };
                push_space_chars(r, left);
                r.append(field.as_str());
                push_space_chars(r, pad - left);
            }
            proof {
                assert(final(r)@ =~= old(r)@ + part_text(*part, minus, plus));
            }
        },
    }
}

/// The gutter made of `parts` for the given line numbers; a side whose
/// number is `None` gets a blank field.
pub fn format_gutter(parts: &Vec<GutterPart>, minus: Option<usize>, plus: Option<usize>) -> (r: String)
    ensures
        r@ == gutter_text(parts@, minus, plus),
{
    let mut r = String::new();
    let mut i: usize = 0;
    while i < parts.len()
        invariant
            i <= parts@.len(),
            r@ == gutter_text(parts@.take(i as int), minus, plus),
        decreases parts@.len() - i,
    {
        push_part(&mut r, &parts[i], minus, plus);
        proof {
            assert(parts@.take(i + 1).drop_last() =~= parts@.take(i as int));
            assert(r@ =~= gutter_text(parts@.take(i + 1), minus, plus));
        }
        i = i + 1;
    }
    proof {
        assert(parts@.take(parts@.len() as int) =~= parts@);
    }
    r
}

/// What of a styled line is shown: its clusters without the leading marker
/// column and without a trailing line feed.
pub open spec fn shown_clusters<S>(segs: Seq<(S, &str)>) -> Seq<Seq<char>> {
    let all = line_clusters(segs);
    let body = if all.len() > 0 {
        all.skip(1)
    } else {
        all
    };
    if body.len() > 0 && body.last() == seq!['\n'] {
        body.drop_last()
    } else {
        body
    }
}

/// Build a half-row: `gutter` in `gutter_style`, then `prefix` if given,
/// then what `row` shows. Also whether `row` shows nothing.
pub fn paint_panel_line<'a, S: Copy>(
    row: &LineSegments<'a, S>,
    gutter: &str,
    gutter_style: S,
    prefix: Option<(S, &str)>,
) -> (r: (PanelLine<S>, bool))
    ensures
        cell_texts(r.0.cells@) == grapheme_clusters(gutter@) + match prefix {
            Some(p) => grapheme_clusters(p.1@),
            None => Seq::empty(),
        } + shown_clusters(row@),
        r.0.fill_to_end is None,
        r.1 == (shown_clusters(row@).len() == 0),
{
    let mut all: Vec<(S, String)> = Vec::new();
    let mut i: usize = 0;
    while i < row.len()
        invariant
            i <= row@.len(),
            cell_texts(all@) == line_clusters(row@.take(i as int)),
        decreases row@.len() - i,
    {
        push_clusters(&mut all, row[i].0, row[i].1);
        proof {
            assert(row@.take(i + 1).drop_last() =~= row@.take(i as int));
        }
        i = i + 1;
    }
    proof {
        assert(row@.take(row@.len() as int) =~= row@);
    }
    let mut cells: Vec<(S, String)> = Vec::new();
    push_clusters(&mut cells, gutter_style, gutter);
    if let Some((style, text)) = prefix {
        push_clusters(&mut cells, style, text);
    }
    let ghost head = cell_texts(cells@);
    let mut end: usize = all.len();
    if end > 1 && is_line_feed(all[end - 1].1.as_str()) {
        end = end - 1;
    }
    let ghost body = if all@.len() > 0 {
        cell_texts(all@).skip(1)
    } else {
        cell_texts(all@)
    };
    let is_empty = end <= 1;
    if !is_empty {
        let mut j: usize = 1;
        proof {
            assert(cell_texts(all@).subrange(1, 1) =~= Seq::<Seq<char>>::empty());
            assert(head + Seq::<Seq<char>>::empty() =~= head);
        }
        while j < end
            invariant
                1 <= j <= end <= all@.len(),
                cell_texts(cells@) == head + cell_texts(all@).subrange(1, j as int),
            decreases end - j,
        {
            let text = all[j].1.clone();
            let ghost prev = cells@;
            cells.push((all[j].0, text));
            proof {
                assert(cell_texts(cells@) =~= cell_texts(prev).push(text@));
                assert(cell_texts(all@).subrange(1, j + 1) =~= cell_texts(all@).subrange(
                    1,
                    j as int,
                ).push(text@));
            }
            j = j + 1;
        }
    }
    proof {
        let shown = shown_clusters(row@);
        if end <= 1 {
            assert(shown.len() == 0);
            assert(head + shown =~= head);
        } else {
            assert(shown =~= cell_texts(all@).subrange(1, end as int));
        }
        assert(cell_texts(cells@) =~= grapheme_clusters(gutter@) + match prefix {
            Some(p) => grapheme_clusters(p.1@),
            None => Seq::empty(),
        } + shown);
    }
    (PanelLine { cells, fill_to_end: None }, is_empty)
}

/// Is `s` a line feed?
fn is_line_feed(s: &str) -> (r: bool)
    ensures
        r == (s@ == seq!['\n']),
{
    let n = s.unicode_len();
    if n != 1 {
        false
    } else {
        let c = s.get_char(0);
        proof {
            if c == '\n' {
                assert(s@ =~= seq!['\n']);
            }
        }
        c == '\n'
    }
}

/// How the rest of a half-row is filled: always with spaces on the left, on
/// the right as the fill policy answered for a row that shows something, and
/// not at all for a right half-row that shows nothing.
pub open spec fn fill_method(
    is_empty: bool,
    line_index: Option<usize>,
    side: MinusPlusIndex,
    policy: Option<BgFillMethod>,
) -> Option<BgFillMethod> {
    if side == MinusPlusIndex::Minus {
        Some(BgFillMethod::Spaces)
    } else if is_empty || line_index is None {
        None
    } else {
        policy
    }
}

/// The style that fills a half-row: the null style for a half-row that
/// shows nothing or has no line, and on the left where the policy answered
/// with no method; else the policy's style.
pub open spec fn fill_style_of<S>(
    is_empty: bool,
    line_index: Option<usize>,
    side: MinusPlusIndex,
    fill: (Option<BgFillMethod>, S),
    null_style: S,
) -> S {
    if is_empty || line_index is None || (side == MinusPlusIndex::Minus && fill.0 is None) {
        null_style
    } else {
        fill.1
    }
}

/// Where `state` calls for an empty-line marker on an empty half-row.
pub open spec fn marks_empty(state: State) -> bool {
    state == State::HunkMinus || state == State::HunkPlus
}

/// Bring a half-row to the panel's width. A genuinely empty line (empty, and
/// with a line index) first gets an empty-line marker. A half-row wider than
/// the panel is cut to `panel_width` columns, the last ones being
/// `truncation_symbol`. Then it is filled as `fill_method` says: with spaces
/// in `fill.1` up to `panel_width`, or with the escape sequence.
pub fn pad_panel_line_to_width<S: Copy>(
    panel_line: &mut PanelLine<S>,
    panel_line_is_empty: bool,
    line_index: Option<usize>,
    state: State,
    panel_side: MinusPlusIndex,
    panel_width: usize,
    truncation_symbol: &str,
    fill: (Option<BgFillMethod>, S),
    null_style: S,
    empty_line_marker_style: &MinusPlus<S>,
)
    requires
        panel_line_is_empty && line_index is Some ==> marks_empty(state) || state == State::HunkZero,
        grapheme_clusters(truncation_symbol@).len() <= panel_width,
    ensures
        ({
            let marked = panel_line_is_empty && line_index is Some && marks_empty(state);
            let w = old(panel_line).cells@.len() + if marked { 1int } else { 0int };
            let method = fill_method(panel_line_is_empty, line_index, panel_side, fill.0);
            &&& final(panel_line).cells@.len() <= panel_width
            &&& method == Some(BgFillMethod::Spaces) ==> final(panel_line).cells@.len() == panel_width
            &&& method == Some(BgFillMethod::TryAnsiSequence) ==> final(panel_line).fill_to_end is Some
            &&& method != Some(BgFillMethod::TryAnsiSequence) ==> final(panel_line).fill_to_end
                == old(panel_line).fill_to_end
            &&& w <= panel_width ==> final(panel_line).cells@.take(old(panel_line).cells@.len() as int)
                == old(panel_line).cells@
            &&& w <= panel_width && method != Some(BgFillMethod::Spaces) ==> final(panel_line).cells@.len() == w
            &&& w > panel_width ==> cell_texts(final(panel_line).cells@) == cell_texts(
                old(panel_line).cells@,
            ).take(panel_width - grapheme_clusters(truncation_symbol@).len())
                + grapheme_clusters(truncation_symbol@)
            &&& marked && w <= panel_width ==> final(panel_line).cells@[w - 1].1@ == seq![' ']
                && final(panel_line).cells@[w - 1].0 == if state == State::HunkMinus {
                empty_line_marker_style.minus
            } else {
                empty_line_marker_style.plus
            }
            &&& method == Some(BgFillMethod::Spaces) && w <= panel_width ==> forall|i: int|
                w <= i < panel_width ==> (#[trigger] final(panel_line).cells@[i]).1@ == seq![' ']
                    && final(panel_line).cells@[i].0 == fill_style_of(
                    panel_line_is_empty,
                    line_index,
                    panel_side,
                    fill,
                    null_style,
                )
            &&& method == Some(BgFillMethod::TryAnsiSequence) ==> final(panel_line).fill_to_end
                == Some(fill.1)
        }),
{
    let ghost unpadded = panel_line.cells@;
    if panel_line_is_empty && line_index.is_some() {
        match state {
            State::HunkMinus => {
                push_spaces(&mut panel_line.cells, empty_line_marker_style.minus, 1);
            },
            State::HunkPlus => {
                push_spaces(&mut panel_line.cells, empty_line_marker_style.plus, 1);
            },
            _ => {},
        }
    }
    let ghost marked_cells = panel_line.cells@;
    let text_width = panel_line.cells.len();
    if text_width > panel_width {
        let ghost before = panel_line.cells@;
        let tail_width = graphemes(truncation_symbol).len();
        let keep = panel_width - tail_width;
        let style = if keep > 0 {
            panel_line.cells[keep - 1].0
        } else {
            null_style
        };
        panel_line.cells.truncate(keep);
        proof {
            assert(cell_texts(panel_line.cells@) =~= cell_texts(before).take(keep as int));
        }
        push_clusters(&mut panel_line.cells, style, truncation_symbol);
        proof {
            if marked_cells.len() > unpadded.len() {
                assert(cell_texts(before).take(keep as int) =~= cell_texts(unpadded).take(keep as int));
            } else {
                assert(before == unpadded);
            }
        }
    }
    let ghost cut = panel_line.cells@;
    let (policy, policy_style) = fill;
    let (method, fill_style) = if panel_side == MinusPlusIndex::Minus {
        if panel_line_is_empty || line_index.is_none() {
            (Some(BgFillMethod::Spaces), null_style)
        } else {
            match policy {
                None => (Some(BgFillMethod::Spaces), null_style),
                Some(_) => (Some(BgFillMethod::Spaces), policy_style),
            }
        }
    } else if panel_line_is_empty || line_index.is_none() {
        (None, null_style)
    } else {
        (policy, policy_style)
    };
    match method {
        Some(BgFillMethod::TryAnsiSequence) => {
            panel_line.fill_to_end = Some(fill_style);
        },
        Some(BgFillMethod::Spaces) => {
            let width = panel_line.cells.len();
            if width < panel_width {
                push_spaces(&mut panel_line.cells, fill_style, panel_width - width);
            }
        },
        None => {},
    }
    proof {
        assert(panel_line.cells@.take(cut.len() as int) =~= cut);
        if marked_cells.len() <= panel_width {
            assert(cut == marked_cells);
            if marked_cells.len() > unpadded.len() {
                let k = marked_cells.len() - 1;
                assert(marked_cells[k].1@ == seq![' ']);
                assert(panel_line.cells@.take(cut.len() as int)[k] == panel_line.cells@[k]);
            }
            assert(marked_cells.take(unpadded.len() as int) =~= unpadded);
            assert(panel_line.cells@.take(unpadded.len() as int) =~= unpadded);
        }
    }
}

/// What composing panels needs to know.
#[derive(Clone, Debug)]
pub struct PanelConfig<S> {
    /// Width of the left and of the right panel.
    pub panel_width: MinusPlus<usize>,
    /// Show the `+`/`-` marker column.
    pub keep_plus_minus_markers: bool,
    /// Shown at the right edge of a truncated half-row.
    pub truncation_symbol: String,
    pub minus_style: S,
    pub plus_style: S,
    pub null_style: S,
    pub minus_empty_line_marker_style: S,
    pub plus_empty_line_marker_style: S,
    /// Style of the line-number gutters.
    pub gutter_style: S,
    /// The gutter of the left and of the right panel.
    pub line_numbers_format: MinusPlus<Vec<GutterPart>>,
    /// Put one blank column before the right panel's gutter.
    pub pad_right_gutter: bool,
}

/// The line numbers that the next minus and plus lines get.
#[derive(Clone, Copy, Debug, PartialEq, Eq, Structural)]
pub struct LineNumbers {
    pub minus: usize,
    pub plus: usize,
}


/// The configuration composes rows: the truncation symbol fits each panel.
pub open spec fn panel_config_ok<S>(cfg: PanelConfig<S>) -> bool {
    &&& grapheme_clusters(cfg.truncation_symbol@).len() <= cfg.panel_width.minus
    &&& grapheme_clusters(cfg.truncation_symbol@).len() <= cfg.panel_width.plus
}

/// A right half-row is filled as the policy answered: with spaces to the
/// panel's width, or with the escape sequence.
pub open spec fn right_fill_done<S>(half: PanelLine<S>, method: Option<BgFillMethod>, width: usize) -> bool {
    &&& method == Some(BgFillMethod::Spaces) ==> half.cells@.len() == width
    &&& method == Some(BgFillMethod::TryAnsiSequence) ==> half.fill_to_end is Some
}

/// A composed row has its left half exactly as wide as the left panel and
/// its right half no wider than the right panel.
pub open spec fn row_fits<S>(row: (PanelLine<S>, PanelLine<S>), cfg: PanelConfig<S>) -> bool {
    &&& row.0.cells@.len() == cfg.panel_width.minus
    &&& row.1.cells@.len() <= cfg.panel_width.plus
}



/// The marker shown in front of the content where markers are kept.
fn marker_prefix<S: Copy>(cfg: &PanelConfig<S>, side: MinusPlusIndex, state: State) -> (r: Option<
    (S, &'static str),
>)
    ensures
        marker_text(cfg.keep_plus_minus_markers, side, state) == match r {
            Some(p) => Some(p.1@),
            None => None,
        },
        r matches Some(p) ==> p.0 == if state == State::HunkPlusWrapped || (state
            != State::HunkMinusWrapped && side == MinusPlusIndex::Plus) {
            cfg.plus_style
        } else {
            cfg.minus_style
        },
{
    proof {
        reveal_strlit(" ");
        reveal_strlit("-");
        reveal_strlit("+");
    }
    if !cfg.keep_plus_minus_markers {
        None
    } else {
        match state {
            State::HunkPlusWrapped => Some((cfg.plus_style, " ")),
            State::HunkMinusWrapped => Some((cfg.minus_style, " ")),
            _ => match side {
                MinusPlusIndex::Minus => Some((cfg.minus_style, "-")),
                MinusPlusIndex::Plus => Some((cfg.plus_style, "+")),
            },
        }
    }
}

/// The smaller of two widths.
pub open spec fn narrower(w: MinusPlus<usize>) -> usize {
    if w.minus <= w.plus {
        w.minus
    } else {
        w.plus
    }
}

/// The text of an optional styled prefix.
pub open spec fn prefix_text<S>(prefix: Option<(S, &str)>) -> Option<Seq<char>> {
    match prefix {
        Some(p) => Some(p.1@),
        None => None,
    }
}

/// The marker shown in front of the content where markers are kept: a
/// blank on continuation rows, else `-` on the left and `+` on the right.
pub open spec fn marker_text(keep: bool, side: MinusPlusIndex, state: State) -> Option<Seq<char>> {
    if !keep {
        None
    } else if state == State::HunkPlusWrapped || state == State::HunkMinusWrapped {
        Some(seq![' '])
    } else if side == MinusPlusIndex::Minus {
        Some(seq!['-'])
    } else {
        Some(seq!['+'])
    }
}

/// The clusters a half-row starts with: the padding column before a padded
/// right gutter, the gutter with the given line numbers, the marker if any,
/// and what the line shows.
pub open spec fn half_head<'a, S>(
    cfg: PanelConfig<S>,
    side: MinusPlusIndex,
    row: Seq<(S, &'a str)>,
    numbers: (Option<usize>, Option<usize>),
    marker: Option<Seq<char>>,
) -> Seq<Seq<char>> {
    (if side == MinusPlusIndex::Plus && cfg.pad_right_gutter {
        seq![seq![' ']]
    } else {
        Seq::empty()
    }) + grapheme_clusters(gutter_text(cfg.line_numbers_format.at(side)@, numbers.0, numbers.1))
        + match marker {
        Some(t) => grapheme_clusters(t),
        None => Seq::empty(),
    } + shown_clusters(row)
}

/// The cells show `head`, followed by the one-column empty-line marker
/// where `marked`: in full where that fits the panel, then blanks up to the
/// panel's width where `filled`; else cut and ended by the truncation
/// symbol.
pub open spec fn shows<S>(
    cells: Seq<(S, String)>,
    head: Seq<Seq<char>>,
    marked: bool,
    filled: bool,
    width: nat,
    trunc: Seq<char>,
) -> bool {
    let w = head.len() + if marked { 1nat } else { 0nat };
    &&& w <= width ==> cell_texts(cells).take(head.len() as int) == head
    &&& w <= width ==> cells.len() == (if filled { width } else { w })
    &&& w <= width ==> forall|i: int|
        head.len() <= i < cells.len() ==> (#[trigger] cells[i]).1@ == seq![' ']
    &&& w > width ==> cell_texts(cells) == head.take(width - grapheme_clusters(trunc).len())
        + grapheme_clusters(trunc)
}

/// Paint one half-row and bring it to the panel's width. `numbers` are the
/// line numbers shown in the gutter.
fn compose_half<'a, S: Copy>(
    row: &LineSegments<'a, S>,
    line_index: Option<usize>,
    state: State,
    side: MinusPlusIndex,
    numbers: (Option<usize>, Option<usize>),
    prefix: Option<(S, &str)>,
    cfg: &PanelConfig<S>,
    fill: (Option<BgFillMethod>, S),
) -> (r: PanelLine<S>)
    requires
        panel_config_ok(*cfg),
        line_index is Some ==> marks_empty(state) || state == State::HunkZero || state
            == State::HunkMinusWrapped || state == State::HunkPlusWrapped || state
            == State::HunkZeroWrapped,
    ensures
        side == MinusPlusIndex::Minus ==> r.cells@.len() == cfg.panel_width.minus,
        side == MinusPlusIndex::Plus ==> r.cells@.len() <= cfg.panel_width.plus,
        side == MinusPlusIndex::Plus && line_index is Some && shown_clusters(row@).len() > 0
            ==> right_fill_done(r, fill.0, cfg.panel_width.plus),
        shows(
            r.cells@,
            half_head(
                *cfg,
                side,
                row@,
                numbers,
                prefix_text(prefix),
            ),
            line_index is Some && shown_clusters(row@).len() == 0 && marks_empty(state),
            fill_method(shown_clusters(row@).len() == 0, line_index, side, fill.0) == Some(
                BgFillMethod::Spaces,
            ),
            cfg.panel_width.at(side) as nat,
            cfg.truncation_symbol@,
        ),
{
    let gutter = format_gutter(cfg.line_numbers_format.get(side), numbers.0, numbers.1);
    let (mut line, is_empty) = paint_panel_line(row, gutter.as_str(), cfg.gutter_style, prefix);
    if side == MinusPlusIndex::Plus && cfg.pad_right_gutter {
        let mut cells: Vec<(S, String)> = Vec::new();
        push_spaces(&mut cells, cfg.null_style, 1);
        let ghost pad = cells@;
        let ghost rest = line.cells@;
        cells.append(&mut line.cells);
        line.cells = cells;
        proof {
            assert(cell_texts(line.cells@) =~= cell_texts(pad) + cell_texts(rest));
            assert(cell_texts(pad) =~= seq![seq![' ']]);
        }
    }
    let ghost painted = line.cells@;
    proof {
        let head = half_head(
            *cfg,
            side,
            row@,
            numbers,
            prefix_text(prefix),
        );
        assert(cell_texts(painted) =~= head);
    }
    let width = *cfg.panel_width.get(side);
    let markers = MinusPlus::new(cfg.minus_empty_line_marker_style, cfg.plus_empty_line_marker_style);
    // Only a removed or added line gets the empty-line marker; an empty
    // context or continuation row gets none.
    let marked_state = if is_empty && line_index.is_some() && !(marks_empty_exec(state)) {
        State::HunkZero
    } else {
        state
    };
    pad_panel_line_to_width(
        &mut line,
        is_empty,
        line_index,
        marked_state,
        side,
        width,
        cfg.truncation_symbol.as_str(),
        fill,
        cfg.null_style,
        &markers,
    );
    proof {
        let head = cell_texts(painted);
        let width = cfg.panel_width.at(side);
        let marked = is_empty && line_index is Some && marks_empty(state);
        let w = head.len() + if marked { 1int } else { 0int };
        if w > width {
            let t = grapheme_clusters(cfg.truncation_symbol@).len();
            assert(cell_texts(painted).take(width - t) == head.take(width - t));
        }
        if w <= width {
            assert forall|i: int| head.len() <= i < line.cells@.len() implies (
            #[trigger] line.cells@[i]).1@ == seq![' '] by {
                if i < w {
                    assert(i == w - 1);
                }
            }
            assert(cell_texts(line.cells@).take(head.len() as int) =~= cell_texts(line.cells@.take(painted.len() as int)));
        }
    }
    line
}

fn marks_empty_exec(state: State) -> (r: bool)
    ensures
        r == marks_empty(state),
{
    state == State::HunkMinus || state == State::HunkPlus
}

/// How many entries of `al` show the first row of a minus line.
pub open spec fn minus_first_rows(al: Seq<AlignedPair>, states: Seq<State>) -> nat
    decreases al.len(),
{
    if al.len() == 0 {
        0
    } else {
        minus_first_rows(al.drop_last(), states) + match al.last().0 {
            Some(i) => if states[i as int] == State::HunkMinus {
                1nat
            } else {
                0nat
            },
            None => 0nat,
        }
    }
}

/// How many entries of `al` show the first row of a plus line.
pub open spec fn plus_first_rows(al: Seq<AlignedPair>, states: Seq<State>) -> nat
    decreases al.len(),
{
    if al.len() == 0 {
        0
    } else {
        plus_first_rows(al.drop_last(), states) + match al.last().1 {
            Some(i) => if states[i as int] == State::HunkPlus {
                1nat
            } else {
                0nat
            },
            None => 0nat,
        }
    }
}

/// The state a side of an entry is painted in: its row's, or `none_state`
/// where the side has no row.
pub open spec fn entry_state(ix: Option<usize>, states: Seq<State>, none_state: State) -> State {
    match ix {
        Some(i) => states[i as int],
        None => none_state,
    }
}

/// The line number a side of an entry shows: `next` where the entry holds
/// the first row (`first`) of a line, none otherwise.
pub open spec fn entry_number(ix: Option<usize>, states: Seq<State>, first: State, next: int) -> Option<
    usize,
> {
    match ix {
        Some(i) => if states[i as int] == first {
            Some(next as usize)
        } else {
            None
        },
        None => None,
    }
}

/// The row a side of an entry shows; nothing where it has none.
pub open spec fn entry_row<'a, S>(ix: Option<usize>, rows: Seq<LineSegments<'a, S>>) -> Seq<
    (S, &'a str),
> {
    match ix {
        Some(i) => rows[i as int]@,
        None => Seq::empty(),
    }
}

/// Composed row `k` of a block shows, on each side, the gutter with the
/// line number of a first row (counted on from `numbers`), the marker, and
/// the side's row of entry `k`; a right half that shows a line is filled as
/// the fill policy answered for that row.
pub open spec fn block_row_shows<'a, S>(
    row: (PanelLine<S>, PanelLine<S>),
    cfg: PanelConfig<S>,
    fill_answers: MinusPlus<Vec<(Option<BgFillMethod>, S)>>,
    diff: MinusPlus<Vec<LineSegments<'a, S>>>,
    states: MinusPlus<Vec<State>>,
    al: Seq<AlignedPair>,
    k: int,
    numbers: LineNumbers,
) -> bool {
    let e = al[k];
    let sm = entry_state(e.0, states.minus@, State::HunkMinus);
    let sp = entry_state(e.1, states.plus@, State::HunkPlus);
    let nm = entry_number(
        e.0,
        states.minus@,
        State::HunkMinus,
        numbers.minus + minus_first_rows(al.take(k), states.minus@),
    );
    let np = entry_number(
        e.1,
        states.plus@,
        State::HunkPlus,
        numbers.plus + plus_first_rows(al.take(k), states.plus@),
    );
    &&& shows(
        row.0.cells@,
        half_head(
            cfg,
            MinusPlusIndex::Minus,
            entry_row(e.0, diff.minus@),
            (nm, None),
            marker_text(cfg.keep_plus_minus_markers, MinusPlusIndex::Minus, sm),
        ),
        e.0 is Some && shown_clusters(entry_row(e.0, diff.minus@)).len() == 0 && marks_empty(sm),
        true,
        cfg.panel_width.minus as nat,
        cfg.truncation_symbol@,
    )
    &&& shows(
        row.1.cells@,
        half_head(
            cfg,
            MinusPlusIndex::Plus,
            entry_row(e.1, diff.plus@),
            (None, np),
            marker_text(cfg.keep_plus_minus_markers, MinusPlusIndex::Plus, sp),
        ),
        e.1 is Some && shown_clusters(entry_row(e.1, diff.plus@)).len() == 0 && marks_empty(sp),
        e.1 is Some && shown_clusters(entry_row(e.1, diff.plus@)).len() > 0
            && fill_answers.plus@[e.1->0 as int].0 == Some(BgFillMethod::Spaces),
        cfg.panel_width.plus as nat,
        cfg.truncation_symbol@,
    )
    &&& e.1 is Some && shown_clusters(entry_row(e.1, diff.plus@)).len() > 0 ==> right_fill_done(
        row.1,
        fill_answers.plus@[e.1->0 as int].0,
        cfg.panel_width.plus,
    )
}

/// Compose the rows of a block of minus and plus lines, one per entry of
/// `line_alignment`, and append them to `output`. A side with a line shows
/// it, with its line number on the line's first row; a side without one
/// shows a blank gutter. The line numbers advance by one per first row.
/// The rows given are painted as they are: callers pass rows whose
/// segments already carry the syntax and the diff highlighting combined.
pub fn paint_minus_and_plus_lines_side_by_side<'a, S: Copy>(
    diff_left_right: &MinusPlus<Vec<LineSegments<'a, S>>>,
    states_left_right: &MinusPlus<Vec<State>>,
    line_alignment: &Vec<AlignedPair>,
    output_buffer: &mut Vec<(PanelLine<S>, PanelLine<S>)>,
    config: &PanelConfig<S>,
    line_numbers: &mut LineNumbers,
    fill_answers: &MinusPlus<Vec<(Option<BgFillMethod>, S)>>,
)
    requires
        panel_config_ok(*config),
        fill_answers.minus@.len() == diff_left_right.minus@.len(),
        fill_answers.plus@.len() == diff_left_right.plus@.len(),
        states_left_right.minus@.len() == diff_left_right.minus@.len(),
        states_left_right.plus@.len() == diff_left_right.plus@.len(),
        forall|k: int|
            0 <= k < line_alignment@.len() ==> ((#[trigger] line_alignment@[k]).0 matches Some(i)
                ==> i < diff_left_right.minus@.len()),
        forall|k: int|
            0 <= k < line_alignment@.len() ==> ((#[trigger] line_alignment@[k]).1 matches Some(i)
                ==> i < diff_left_right.plus@.len()),
        forall|i: int|
            0 <= i < states_left_right.minus@.len() ==> (#[trigger] states_left_right.minus@[i])
                == State::HunkMinus || states_left_right.minus@[i] == State::HunkMinusWrapped,
        forall|i: int|
            0 <= i < states_left_right.plus@.len() ==> (#[trigger] states_left_right.plus@[i])
                == State::HunkPlus || states_left_right.plus@[i] == State::HunkPlusWrapped,
        old(line_numbers).minus + line_alignment@.len() <= usize::MAX,
        old(line_numbers).plus + line_alignment@.len() <= usize::MAX,
    ensures
        final(output_buffer)@.len() == old(output_buffer)@.len() + line_alignment@.len(),
        final(output_buffer)@.take(old(output_buffer)@.len() as int) == old(output_buffer)@,
        forall|k: int|
            old(output_buffer)@.len() <= k < final(output_buffer)@.len() ==> row_fits(
                #[trigger] final(output_buffer)@[k],
                *config,
            ),
        forall|k: int|
            0 <= k < line_alignment@.len() ==> block_row_shows(
                #[trigger] final(output_buffer)@[old(output_buffer)@.len() + k],
                *config,
                *fill_answers,
                *diff_left_right,
                *states_left_right,
                line_alignment@,
                k,
                *old(line_numbers),
            ),
        final(line_numbers).minus == old(line_numbers).minus + minus_first_rows(
            line_alignment@,
            states_left_right.minus@,
        ),
        final(line_numbers).plus == old(line_numbers).plus + plus_first_rows(
            line_alignment@,
            states_left_right.plus@,
        ),
{
    let ghost start = output_buffer@.len();
    let ghost base = output_buffer@;
    let ghost n0 = *line_numbers;
    let empty: LineSegments<'a, S> = Vec::new();
    proof {
        assert(line_alignment@.take(0) =~= Seq::<AlignedPair>::empty());
    }
    let mut k: usize = 0;
    while k < line_alignment.len()
        invariant
            k <= line_alignment@.len(),
            panel_config_ok(*config),
            output_buffer@.len() == start + k,
            output_buffer@.take(start as int) == base,
            start == base.len(),
            forall|j: int| start <= j < output_buffer@.len() ==> row_fits(#[trigger] output_buffer@[j], *config),
            line_numbers.minus == n0.minus + minus_first_rows(line_alignment@.take(k as int), states_left_right.minus@),
            line_numbers.plus == n0.plus + plus_first_rows(line_alignment@.take(k as int), states_left_right.plus@),
            empty@ =~= Seq::<(S, &str)>::empty(),
            minus_first_rows(line_alignment@.take(k as int), states_left_right.minus@) <= k,
            forall|j: int|
                0 <= j < k ==> block_row_shows(
                    #[trigger] output_buffer@[start + j],
                    *config,
                    *fill_answers,
                    *diff_left_right,
                    *states_left_right,
                    line_alignment@,
                    j,
                    n0,
                ),
            plus_first_rows(line_alignment@.take(k as int), states_left_right.plus@) <= k,
            n0.minus + line_alignment@.len() <= usize::MAX,
            n0.plus + line_alignment@.len() <= usize::MAX,
            states_left_right.minus@.len() == diff_left_right.minus@.len(),
            fill_answers.minus@.len() == diff_left_right.minus@.len(),
            fill_answers.plus@.len() == diff_left_right.plus@.len(),
            states_left_right.plus@.len() == diff_left_right.plus@.len(),
            forall|k: int|
                0 <= k < line_alignment@.len() ==> ((#[trigger] line_alignment@[k]).0 matches Some(i)
                    ==> i < diff_left_right.minus@.len()),
            forall|k: int|
                0 <= k < line_alignment@.len() ==> ((#[trigger] line_alignment@[k]).1 matches Some(i)
                    ==> i < diff_left_right.plus@.len()),
            forall|i: int|
                0 <= i < states_left_right.minus@.len() ==> (#[trigger] states_left_right.minus@[i])
                    == State::HunkMinus || states_left_right.minus@[i] == State::HunkMinusWrapped,
            forall|i: int|
                0 <= i < states_left_right.plus@.len() ==> (#[trigger] states_left_right.plus@[i])
                    == State::HunkPlus || states_left_right.plus@[i] == State::HunkPlusWrapped,
        decreases line_alignment@.len() - k,
    {
        let (minus_index, plus_index) = line_alignment[k];
        proof {
            assert(line_alignment@[k as int] == (minus_index, plus_index));
            assert(line_alignment@.take(k + 1).drop_last() =~= line_alignment@.take(k as int));
            assert(line_alignment@.take(k + 1).last() == (minus_index, plus_index));
        }
        let ghost lm0 = line_numbers.minus as int;
        let ghost lp0 = line_numbers.plus as int;
        let left_state = match minus_index {
            Some(i) => states_left_right.minus[i],
            None => State::HunkMinus,
        };
        let left_numbers = if minus_index.is_some() && left_state == State::HunkMinus {
            let n = line_numbers.minus;
            line_numbers.minus = n + 1;
            (Some(n), None)
        } else {
            (None, None)
        };
        let left_row = match minus_index {
            Some(i) => &diff_left_right.minus[i],
            None => &empty,
        };
        let left_prefix = marker_prefix(config, MinusPlusIndex::Minus, left_state);
        let left = compose_half(
            left_row,
            minus_index,
            left_state,
            MinusPlusIndex::Minus,
            left_numbers,
            left_prefix,
            config,
            match minus_index {
                Some(i) => fill_answers.minus[i],
                None => (None, config.null_style),
            },
        );
        let right_state = match plus_index {
            Some(i) => states_left_right.plus[i],
            None => State::HunkPlus,
        };
        let right_numbers = if plus_index.is_some() && right_state == State::HunkPlus {
            let n = line_numbers.plus;
            line_numbers.plus = n + 1;
            (None, Some(n))
        } else {
            (None, None)
        };
        let right_row = match plus_index {
            Some(i) => &diff_left_right.plus[i],
            None => &empty,
        };
        let right_prefix = marker_prefix(config, MinusPlusIndex::Plus, right_state);
        let right = compose_half(
            right_row,
            plus_index,
            right_state,
            MinusPlusIndex::Plus,
            right_numbers,
            right_prefix,
            config,
            match plus_index {
                Some(i) => fill_answers.plus[i],
                None => (None, config.null_style),
            },
        );
        let ghost prev = output_buffer@;
        output_buffer.push((left, right));
        proof {
            assert(output_buffer@.take(start as int) =~= prev.take(start as int));
            assert forall|j: int| start <= j < output_buffer@.len() implies row_fits(
                #[trigger] output_buffer@[j],
                *config,
            ) by {
                if j < prev.len() {
                    assert(output_buffer@[j] == prev[j]);
                }
            }
            assert forall|j: int| 0 <= j < k + 1 implies block_row_shows(
                #[trigger] output_buffer@[start + j],
                *config,
                *fill_answers,
                *diff_left_right,
                *states_left_right,
                line_alignment@,
                j,
                n0,
            ) by {
                if j < k {
                    assert(output_buffer@[start + j] == prev[start + j]);
                } else {
                    let e = line_alignment@[k as int];
                    assert(output_buffer@[start + j] == (left, right));
                    assert(left_state == entry_state(e.0, states_left_right.minus@, State::HunkMinus));
                    assert(right_state == entry_state(e.1, states_left_right.plus@, State::HunkPlus));
                    assert(left_row@ == entry_row(e.0, diff_left_right.minus@));
                    assert(right_row@ == entry_row(e.1, diff_left_right.plus@));
                    assert(left_numbers == (entry_number(
                        e.0,
                        states_left_right.minus@,
                        State::HunkMinus,
                        lm0,
                    ), None::<usize>));
                    assert(right_numbers == (None::<usize>, entry_number(
                        e.1,
                        states_left_right.plus@,
                        State::HunkPlus,
                        lp0,
                    )));
                }
            }
        }
        k = k + 1;
    }
    proof {
        assert(line_alignment@.take(line_alignment@.len() as int) =~= line_alignment@);
    }
}

/// Composed row `k` of a context line shows, on both sides, the gutter (with
/// both line numbers on the first row only), the marker, and `line`.
pub open spec fn zero_row_shows<'a, S>(
    row: (PanelLine<S>, PanelLine<S>),
    cfg: PanelConfig<S>,
    line: Seq<(S, &'a str)>,
    k: int,
    numbers: LineNumbers,
    marker: Option<Seq<char>>,
    fill: Option<BgFillMethod>,
) -> bool {
    let n = if k == 0 {
        (Some(numbers.minus), Some(numbers.plus))
    } else {
        (None, None)
    };
    &&& shows(
        row.0.cells@,
        half_head(cfg, MinusPlusIndex::Minus, line, n, marker),
        false,
        true,
        cfg.panel_width.minus as nat,
        cfg.truncation_symbol@,
    )
    &&& shows(
        row.1.cells@,
        half_head(cfg, MinusPlusIndex::Plus, line, n, marker),
        false,
        shown_clusters(line).len() > 0 && fill == Some(BgFillMethod::Spaces),
        cfg.panel_width.plus as nat,
        cfg.truncation_symbol@,
    )
    &&& shown_clusters(line).len() > 0 ==> right_fill_done(row.1, fill, cfg.panel_width.plus)
}

/// The rows appended for a context line are those of `rows`, its physical
/// rows: the line itself where it fits the narrower panel (`width` columns),
/// else exactly the lines it wraps into (`wrap_rows` of its diff-highlighted
/// form, in the styles of `styles`).
pub open spec fn zero_output<'a, SY, S>(
    rows: Seq<LineSegments<'a, S>>,
    added: Seq<(PanelLine<S>, PanelLine<S>)>,
    line: LineSegments<'a, S>,
    raw_line: Seq<char>,
    width: usize,
    wrap_config: WrapConfig,
    styles: WrapStyles<SY, S>,
    cfg: PanelConfig<S>,
    numbers: LineNumbers,
    marker: Option<Seq<char>>,
    fill: Option<BgFillMethod>,
) -> bool {
    &&& grapheme_count(raw_line) <= width + 2 ==> rows.len() == 1 && rows[0]@ == line@
    &&& grapheme_count(raw_line) > width + 2 ==> wraps_as(rows, line@, width, wrap_config)
    &&& grapheme_count(raw_line) > width + 2 ==> rows_view(rows) == wrap_rows(
        line_pieces(line@),
        width as int,
        wrap_config,
        styles.zero_fill,
        styles.diff_hint,
        styles.diff_marker,
    )
    &&& added.len() == rows.len()
    &&& forall|k: int| 0 <= k < rows.len() ==> zero_row_shows(#[trigger] added[k], cfg, rows[k]@, k, numbers, marker, fill)
}

/// Compose the rows of one context line, shown in both panels and wrapped
/// first if it is too long for the narrower one, and append them to
/// `output`. Its first row shows both line numbers, which then advance by
/// one. `fill_answer` is the fill policy's answer for its rows.
/// The diff-highlighted sections are painted as they are: callers pass
/// segments that already carry the syntax and the diff highlighting
/// combined.
pub fn paint_zero_lines_side_by_side<'a, SY: Copy + Default, S: Copy + Default>(
    wrap_config: &'a WrapConfig,
    wrap_styles: &WrapStyles<SY, S>,
    line_width: &MinusPlus<usize>,
    raw_line: &str,
    syntax_style_sections: Vec<LineSegments<'a, SY>>,
    diff_style_sections: Vec<LineSegments<'a, S>>,
    output_buffer: &mut Vec<(PanelLine<S>, PanelLine<S>)>,
    config: &PanelConfig<S>,
    line_numbers: &mut LineNumbers,
    painted_prefix: Option<(S, &str)>,
    fill_answer: (Option<BgFillMethod>, S),
) -> (r: bool)
    requires
        panel_config_ok(*config),
        syntax_style_sections@.len() == 1,
        diff_style_sections@.len() == 1,
        line_width.minus < usize::MAX,
        line_width.plus < usize::MAX,
        old(line_numbers).minus < usize::MAX,
        old(line_numbers).plus < usize::MAX,
    ensures
        r <==> !zero_forms_diverge(
            raw_line@,
            syntax_style_sections@[0]@,
            diff_style_sections@[0]@,
            narrower(*line_width),
            *wrap_config,
            *wrap_styles,
        ),
        !r ==> final(output_buffer)@ == old(output_buffer)@ && *final(line_numbers) == *old(line_numbers),
        r ==> (final(output_buffer)@.len() >= old(output_buffer)@.len()),
        r ==> (final(output_buffer)@.take(old(output_buffer)@.len() as int) == old(output_buffer)@),
        r ==> (forall|k: int|
            old(output_buffer)@.len() <= k < final(output_buffer)@.len() ==> row_fits(
                #[trigger] final(output_buffer)@[k],
                *config,
            )),
        r ==> (final(output_buffer)@.len() > old(output_buffer)@.len() ==> final(line_numbers).minus == old(
            line_numbers,
        ).minus + 1 && final(line_numbers).plus == old(line_numbers).plus + 1),
        r ==> (final(output_buffer)@.len() == old(output_buffer)@.len() ==> *final(line_numbers) == *old(
            line_numbers,
        )),
        r ==> (exists|rows: Seq<LineSegments<'a, S>>|
            #[trigger] zero_output(
                rows,
                final(output_buffer)@.skip(old(output_buffer)@.len() as int),
                diff_style_sections@[0],
                raw_line@,
                narrower(*line_width),
                *wrap_config,
                *wrap_styles,
                *config,
                *old(line_numbers),
                prefix_text(painted_prefix),
                fill_answer.0,
            )),
{
    let ghost line = diff_style_sections@[0];
    let mut states: Vec<State> = Vec::new();
    states.push(State::HunkZero);
    let wrapped = wrap_zero_block(
        wrap_config,
        wrap_styles,
        raw_line,
        states,
        syntax_style_sections,
        diff_style_sections,
        line_width,
    );
    let diff = match wrapped {
        None => {
            return false;
        },
        Some((_states, _syntax, diff)) => diff,
    };
    let ghost start = output_buffer@.len();
    let ghost base = output_buffer@;
    let ghost n0 = *line_numbers;
    let mut k: usize = 0;
    while k < diff.len()
        invariant
            k <= diff@.len(),
            panel_config_ok(*config),
            output_buffer@.len() == start + k,
            output_buffer@.take(start as int) == base,
            start == base.len(),
            forall|j: int| start <= j < output_buffer@.len() ==> row_fits(#[trigger] output_buffer@[j], *config),
            k == 0 ==> *line_numbers == n0,
            k > 0 ==> line_numbers.minus == n0.minus + 1 && line_numbers.plus == n0.plus + 1,
            forall|j: int|
                0 <= j < k ==> zero_row_shows(
                    #[trigger] output_buffer@[start + j],
                    *config,
                    diff@[j]@,
                    j,
                    n0,
                    prefix_text(painted_prefix),
                    fill_answer.0,
                ),
            n0.minus < usize::MAX,
            n0.plus < usize::MAX,
        decreases diff@.len() - k,
    {
        // The first row keeps the line's state, the rows after it continue it.
        let state = if k == 0 {
            State::HunkZero
        } else {
            State::HunkZeroWrapped
        };
        let numbers = if k == 0 {
            (Some(line_numbers.minus), Some(line_numbers.plus))
        } else {
            (None, None)
        };
        let left = compose_half(
            &diff[k],
            Some(k),
            state,
            MinusPlusIndex::Minus,
            numbers,
            painted_prefix,
            config,
            fill_answer,
        );
        let right = compose_half(
            &diff[k],
            Some(k),
            state,
            MinusPlusIndex::Plus,
            numbers,
            painted_prefix,
            config,
            fill_answer,
        );
        if k == 0 {
            line_numbers.minus = line_numbers.minus + 1;
            line_numbers.plus = line_numbers.plus + 1;
        }
        let ghost prev = output_buffer@;
        output_buffer.push((left, right));
        proof {
            assert(output_buffer@.take(start as int) =~= prev.take(start as int));
            assert forall|j: int| start <= j < output_buffer@.len() implies row_fits(
                #[trigger] output_buffer@[j],
                *config,
            ) by {
                if j < prev.len() {
                    assert(output_buffer@[j] == prev[j]);
                }
            }
            assert forall|j: int| 0 <= j < k + 1 implies zero_row_shows(
                #[trigger] output_buffer@[start + j],
                *config,
                diff@[j]@,
                j,
                n0,
                prefix_text(painted_prefix),
                fill_answer.0,
            ) by {
                if j < k {
                    assert(output_buffer@[start + j] == prev[start + j]);
                } else {
                    assert(output_buffer@[start + j] == (left, right));
                }
            }
        }
        k = k + 1;
    }
    proof {
        let added = output_buffer@.skip(start as int);
        assert forall|j: int| 0 <= j < diff@.len() implies zero_row_shows(
            #[trigger] added[j],
            *config,
            diff@[j]@,
            j,
            n0,
            prefix_text(painted_prefix),
            fill_answer.0,
        ) by {
            assert(added[j] == output_buffer@[start + j]);
        }
        assert(zero_output(
            diff@,
            added,
            line,
            raw_line@,
            narrower(*line_width),
            *wrap_config,
            *wrap_styles,
            *config,
            n0,
            prefix_text(painted_prefix),
            fill_answer.0,
        ));
    }
    true
}


/// Does the truncation symbol fit both panels?
pub fn truncation_fits<S>(config: &PanelConfig<S>) -> (r: bool)
    ensures
        r == panel_config_ok(*config),
{
    let n = graphemes(config.truncation_symbol.as_str()).len();
    n <= config.panel_width.minus && n <= config.panel_width.plus
}

/// `paint_minus_and_plus_lines_side_by_side` where the truncation symbol fits both panels (`r`);
/// otherwise nothing is appended and the line numbers stay.
pub fn try_paint_minus_and_plus_lines_side_by_side<'a, S: Copy>(
    diff_left_right: &MinusPlus<Vec<LineSegments<'a, S>>>,
    states_left_right: &MinusPlus<Vec<State>>,
    line_alignment: &Vec<AlignedPair>,
    output_buffer: &mut Vec<(PanelLine<S>, PanelLine<S>)>,
    config: &PanelConfig<S>,
    line_numbers: &mut LineNumbers,
    fill_answers: &MinusPlus<Vec<(Option<BgFillMethod>, S)>>,
) -> (r: bool)
    requires
        fill_answers.minus@.len() == diff_left_right.minus@.len(),
        fill_answers.plus@.len() == diff_left_right.plus@.len(),
        states_left_right.minus@.len() == diff_left_right.minus@.len(),
        states_left_right.plus@.len() == diff_left_right.plus@.len(),
        forall|k: int|
            0 <= k < line_alignment@.len() ==> ((#[trigger] line_alignment@[k]).0 matches Some(i)
                ==> i < diff_left_right.minus@.len()),
        forall|k: int|
            0 <= k < line_alignment@.len() ==> ((#[trigger] line_alignment@[k]).1 matches Some(i)
                ==> i < diff_left_right.plus@.len()),
        forall|i: int|
            0 <= i < states_left_right.minus@.len() ==> (#[trigger] states_left_right.minus@[i])
                == State::HunkMinus || states_left_right.minus@[i] == State::HunkMinusWrapped,
        forall|i: int|
            0 <= i < states_left_right.plus@.len() ==> (#[trigger] states_left_right.plus@[i])
                == State::HunkPlus || states_left_right.plus@[i] == State::HunkPlusWrapped,
        old(line_numbers).minus + line_alignment@.len() <= usize::MAX,
        old(line_numbers).plus + line_alignment@.len() <= usize::MAX,
    ensures
        r == panel_config_ok(*config),
        !r ==> final(output_buffer)@ == old(output_buffer)@ && *final(line_numbers) == *old(line_numbers),
        r ==> (final(output_buffer)@.len() == old(output_buffer)@.len() + line_alignment@.len()),
        r ==> (final(output_buffer)@.take(old(output_buffer)@.len() as int) == old(output_buffer)@),
        r ==> (forall|k: int|
            old(output_buffer)@.len() <= k < final(output_buffer)@.len() ==> row_fits(
                #[trigger] final(output_buffer)@[k],
                *config,
            )),
        r ==> (forall|k: int|
            0 <= k < line_alignment@.len() ==> block_row_shows(
                #[trigger] final(output_buffer)@[old(output_buffer)@.len() + k],
                *config,
                *fill_answers,
                *diff_left_right,
                *states_left_right,
                line_alignment@,
                k,
                *old(line_numbers),
            )),
        r ==> (final(line_numbers).minus == old(line_numbers).minus + minus_first_rows(
            line_alignment@,
            states_left_right.minus@,
        )),
        r ==> (final(line_numbers).plus == old(line_numbers).plus + plus_first_rows(
            line_alignment@,
            states_left_right.plus@,
        )),
{
    if truncation_fits(config) {
        paint_minus_and_plus_lines_side_by_side(
            diff_left_right,
            states_left_right,
            line_alignment,
            output_buffer,
            config,
            line_numbers,
            fill_answers,
        );
        true
    } else {
        false
    }
}

/// `paint_zero_lines_side_by_side` where the truncation symbol fits both
/// panels; `r` says whether rows were composed. Otherwise nothing is
/// appended and the line numbers stay.
pub fn try_paint_zero_lines_side_by_side<'a, SY: Copy + Default, S: Copy + Default>(
    wrap_config: &'a WrapConfig,
    wrap_styles: &WrapStyles<SY, S>,
    line_width: &MinusPlus<usize>,
    raw_line: &str,
    syntax_style_sections: Vec<LineSegments<'a, SY>>,
    diff_style_sections: Vec<LineSegments<'a, S>>,
    output_buffer: &mut Vec<(PanelLine<S>, PanelLine<S>)>,
    config: &PanelConfig<S>,
    line_numbers: &mut LineNumbers,
    painted_prefix: Option<(S, &str)>,
    fill_answer: (Option<BgFillMethod>, S),
) -> (r: bool)
    requires
        syntax_style_sections@.len() == 1,
        diff_style_sections@.len() == 1,
        line_width.minus < usize::MAX,
        line_width.plus < usize::MAX,
        old(line_numbers).minus < usize::MAX,
        old(line_numbers).plus < usize::MAX,
    ensures
        r <==> panel_config_ok(*config) && !zero_forms_diverge(
            raw_line@,
            syntax_style_sections@[0]@,
            diff_style_sections@[0]@,
            narrower(*line_width),
            *wrap_config,
            *wrap_styles,
        ),
        !r ==> final(output_buffer)@ == old(output_buffer)@ && *final(line_numbers) == *old(line_numbers),
        r ==> (final(output_buffer)@.len() >= old(output_buffer)@.len()),
        r ==> (final(output_buffer)@.take(old(output_buffer)@.len() as int) == old(output_buffer)@),
        r ==> (forall|k: int|
            old(output_buffer)@.len() <= k < final(output_buffer)@.len() ==> row_fits(
                #[trigger] final(output_buffer)@[k],
                *config,
            )),
        r ==> (final(output_buffer)@.len() > old(output_buffer)@.len() ==> final(line_numbers).minus == old(
            line_numbers,
        ).minus + 1 && final(line_numbers).plus == old(line_numbers).plus + 1),
        r ==> (final(output_buffer)@.len() == old(output_buffer)@.len() ==> *final(line_numbers) == *old(
            line_numbers,
        )),
        r ==> (exists|rows: Seq<LineSegments<'a, S>>|
            #[trigger] zero_output(
                rows,
                final(output_buffer)@.skip(old(output_buffer)@.len() as int),
                diff_style_sections@[0],
                raw_line@,
                narrower(*line_width),
                *wrap_config,
                *wrap_styles,
                *config,
                *old(line_numbers),
                prefix_text(painted_prefix),
                fill_answer.0,
            )),
{
    if truncation_fits(config) {
        return paint_zero_lines_side_by_side(
            wrap_config,
            wrap_styles,
            line_width,
            raw_line,
            syntax_style_sections,
            diff_style_sections,
            output_buffer,
            config,
            line_numbers,
            painted_prefix,
            fill_answer,
        );
    }
    false
}

} // verus!
