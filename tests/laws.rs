use side_by_side::minusplus::{MinusPlus, MinusPlusIndex};
use side_by_side::panel::{
    format_gutter, pad_panel_line_to_width, paint_panel_line, truncation_fits,
    try_paint_minus_and_plus_lines_side_by_side, Align, GutterPart, LineNumbers, PanelConfig,
    PanelLine,
};
use side_by_side::side_by_side::{
    available_line_width, has_long_lines, make_feature, BgFillMethod, OptionValue, Panel,
    SideBySideData, UseFullPanelWidth, Width,
};
use side_by_side::wrapping::{
    line_is_too_long, right_align_line, wrap_clustered_line, wrap_line, wrap_minusplus_block,
    wrap_minusplus_block_exact,
    wrap_zero_block, State, WrapConfig, WrapStyles,
};

#[derive(Clone, Copy, Debug, Default, PartialEq)]
struct St(u8);

fn cfg(max_lines: usize, permille: usize) -> WrapConfig {
    WrapConfig {
        left_symbol: "+".to_string(),
        right_symbol: "<".to_string(),
        right_prefix_symbol: ">".to_string(),
        use_wrap_right_permille: permille,
        max_lines,
    }
}

fn styles() -> WrapStyles<St, St> {
    WrapStyles {
        syntax_fill: St(0),
        syntax_hint: None,
        diff_fill: MinusPlus::new(St(1), St(2)),
        diff_hint: None,
        zero_fill: St(0),
        syntax_marker: St(0),
        diff_marker: St(0),
    }
}

fn texts(cells: &[(St, String)]) -> String {
    cells.iter().map(|(_, t)| t.as_str()).collect()
}

#[test]
fn make_feature_sets_side_by_side_defaults() {
    let f = make_feature();
    assert_eq!(f.len(), 4);
    assert_eq!(f[0], ("side-by-side".to_string(), OptionValue::Boolean(true)));
    assert_eq!(f[1], ("features".to_string(), OptionValue::Text("line-numbers".to_string())));
    assert_eq!(f[2].1, OptionValue::Text("│{nm:^4}│".to_string()));
    assert_eq!(f[3].1, OptionValue::Text("│{np:^4}│".to_string()));
}

#[test]
fn panels_split_width_in_half() {
    let fixed = SideBySideData::new_sbs(&Width::Fixed(41), &100);
    assert_eq!(fixed.minus, Panel { width: 20 });
    assert_eq!(fixed.plus, Panel { width: 20 });
    let variable = SideBySideData::new_sbs(&Width::Variable, &81);
    assert_eq!(variable.minus.width, 40);
}

#[test]
fn odd_width_with_ansi_widens_right_panel() {
    let w = Width::Fixed(33);
    let sbs = UseFullPanelWidth::sbs_odd_fix(&w, &BgFillMethod::TryAnsiSequence, SideBySideData::new_sbs(&w, &0));
    assert_eq!((sbs.minus.width, sbs.plus.width), (16, 17));
    let sbs = UseFullPanelWidth::sbs_odd_fix(&w, &BgFillMethod::Spaces, SideBySideData::new_sbs(&w, &0));
    assert_eq!((sbs.minus.width, sbs.plus.width), (16, 16));
    assert!(UseFullPanelWidth::new(true, &w, &BgFillMethod::TryAnsiSequence).pad_width());
    assert!(!UseFullPanelWidth::new(false, &w, &BgFillMethod::TryAnsiSequence).pad_width());
    assert!(!UseFullPanelWidth::new(true, &Width::Fixed(34), &BgFillMethod::TryAnsiSequence).pad_width());
}

#[test]
fn available_width_saturates() {
    let sbs = MinusPlus::new(Panel { width: 20 }, Panel { width: 5 });
    let w = available_line_width(&sbs, &MinusPlus::new(6, 6), true);
    assert_eq!((w.minus, w.plus), (13, 0));
    let w = available_line_width(&sbs, &MinusPlus::new(6, 2), false);
    assert_eq!((w.minus, w.plus), (14, 3));
}

#[test]
fn too_long_counts_grapheme_clusters() {
    // Marker and newline are free: 5 + 2 graphemes fit a width of 5.
    assert!(!line_is_too_long("-abcde\n", 5));
    assert!(line_is_too_long("-abcdef\n", 5));
    // "ö̲" is three code points but one cluster.
    assert!(!line_is_too_long("-ö̲ö̲ö̲\n", 3));
    assert!(line_is_too_long("-ö̲ö̲ö̲ö̲\n", 3));
    assert!(!line_is_too_long("", 0));
}

#[test]
fn has_long_lines_flags_each_side() {
    let lines = MinusPlus::new(
        vec![("-short\n".to_string(), State::HunkMinus), ("-much too long\n".to_string(), State::HunkMinus)],
        vec![("+ok\n".to_string(), State::HunkPlus)],
    );
    let (any, flags) = has_long_lines(&lines, &MinusPlus::new(6, 6));
    assert!(any);
    assert_eq!(flags.minus, vec![false, true]);
    assert_eq!(flags.plus, vec![false]);
    let (any, _) = has_long_lines(&lines, &MinusPlus::new(20, 20));
    assert!(!any);
}

#[test]
fn wrap_cap_bounds_rows() {
    let line = vec![(St(1), "_abcdefghijklmnopqrstuvwxyz")];
    for cap in 1..6 {
        let c = cfg(cap, 0);
        let rows = wrap_line(&c, &line, 4, &St(0), &None);
        assert!(rows.len() <= cap);
    }
    // Unlimited: at most one row per `width - 1` graphemes, plus one.
    let c = cfg(0, 0);
    let rows = wrap_line(&c, &line, 4, &St(0), &None);
    assert_eq!(rows.len(), 9);
    assert!(3 * (rows.len() - 1) <= 27);
    // Nothing but the marker fits: one row.
    let rows = wrap_line(&c, &line, 1, &St(0), &None);
    assert_eq!(rows.len(), 1);
}

#[test]
fn continuation_marks_every_row_but_the_last() {
    let c = cfg(0, 0);
    let line = vec![(St(1), "_abcdefghij"), (St(2), "klmnopq")];
    let rows = wrap_line(&c, &line, 5, &St(0), &Some(St(9)));
    assert!(rows.len() > 1);
    for row in &rows[..rows.len() - 1] {
        assert_eq!(*row.last().unwrap(), (St(9), "+"));
    }
    assert_ne!(rows.last().unwrap().last().unwrap().1, "+");
}

#[test]
fn right_align_keeps_the_tail() {
    let c = cfg(5, 370);
    let line = vec![(St(1), "_0123456789ab")];
    let rows = wrap_line(&c, &line, 11, &St(3), &None);
    assert_eq!(rows.len(), 2);
    assert_eq!(rows[0].last().unwrap().1, "<");
    assert_eq!(rows[1], vec![(St(0), "_"), (St(3), "         "), (St(3), ">"), (St(1), "ab")]);

    let tail = vec![(St(0), "_"), (St(4), "x"), (St(5), "yz")];
    let aligned = right_align_line(&tail, 70, St(3), St(7), "»", St(0));
    assert_eq!(aligned[0].1, "_");
    assert_eq!(&aligned[aligned.len() - 2..], &tail[1..]);
    assert_eq!(aligned[aligned.len() - 3], (St(7), "»"));
    let pad: String = aligned[1..aligned.len() - 3].iter().map(|s| s.1).collect();
    assert_eq!(pad, " ".repeat(70));
}

#[test]
fn unwrapped_block_is_unchanged() {
    let c = cfg(3, 370);
    let minus = vec![vec![(St(1), "-a\n")], vec![(St(1), "-b\n")]];
    let plus = vec![vec![(St(2), "+c\n")]];
    let syntax = MinusPlus::new(minus.clone(), plus.clone());
    let diff = MinusPlus::new(minus.clone(), plus.clone());
    let alignment = vec![(Some(0), Some(0)), (Some(1), None)];
    let flags = MinusPlus::new(vec![false, false], vec![false]);
    let b = wrap_minusplus_block(&c, &styles(), &syntax, &diff, &alignment, &MinusPlus::new(10, 10), &flags)
        .unwrap();
    assert_eq!(b.alignment, alignment);
    assert_eq!(b.diff.minus, minus);
    assert_eq!(b.diff.plus, plus);
    assert_eq!(b.syntax.minus, minus);
    assert_eq!(b.states.minus, vec![State::HunkMinus, State::HunkMinus]);
    assert_eq!(b.states.plus, vec![State::HunkPlus]);
}

#[test]
fn uneven_pair_is_padded_and_keeps_order() {
    let c = cfg(0, 0);
    // Minus line of three rows paired with a plus line of one, then a plus line alone.
    let minus = vec![vec![(St(1), "-abcdefghi\n")]];
    let plus = vec![vec![(St(2), "+x\n")], vec![(St(2), "+y\n")]];
    let syntax = MinusPlus::new(minus.clone(), plus.clone());
    let diff = MinusPlus::new(minus, plus);
    let alignment = vec![(Some(0), Some(0)), (None, Some(1))];
    let flags = MinusPlus::new(vec![true], vec![false, false]);
    let b = wrap_minusplus_block(&c, &styles(), &syntax, &diff, &alignment, &MinusPlus::new(4, 4), &flags)
        .unwrap();
    assert_eq!(b.rows.minus, vec![3]);
    assert_eq!(b.rows.plus, vec![1, 1]);
    assert_eq!(
        b.alignment,
        vec![(Some(0), Some(0)), (Some(1), None), (Some(2), None), (None, Some(1))]
    );
    assert_eq!(
        b.states.minus,
        vec![State::HunkMinus, State::HunkMinusWrapped, State::HunkMinusWrapped]
    );
    // Dropping the continuation rows leaves the old alignment.
    let kept: Vec<_> = b
        .alignment
        .iter()
        .filter(|(m, p)| {
            m.map_or(false, |i| b.states.minus[i] == State::HunkMinus)
                || p.map_or(false, |i| b.states.plus[i] == State::HunkPlus)
        })
        .map(|(m, p)| {
            (
                m.map(|i| b.states.minus[..i].iter().filter(|s| **s == State::HunkMinus).count()),
                p.map(|i| b.states.plus[..i].iter().filter(|s| **s == State::HunkPlus).count()),
            )
        })
        .collect();
    assert_eq!(kept, alignment);
}

#[test]
fn zero_block_wraps_for_narrower_panel() {
    let c = cfg(0, 0);
    let line = " abcdefgh\n";
    let seg = vec![(St(0), line)];
    let (states, syntax, diff) =
        wrap_zero_block(&c, &styles(), line, vec![State::HunkZero], vec![seg.clone()], vec![seg.clone()], &MinusPlus::new(20, 4)).unwrap();
    assert_eq!(syntax.len(), 3);
    assert_eq!(diff.len(), 3);
    assert_eq!(states, vec![State::HunkZero, State::HunkZeroWrapped, State::HunkZeroWrapped]);
    let (states, syntax, _) =
        wrap_zero_block(&c, &styles(), line, vec![State::HunkZero], vec![seg.clone()], vec![seg.clone()], &MinusPlus::new(20, 8)).unwrap();
    assert_eq!(states, vec![State::HunkZero]);
    assert_eq!(syntax, vec![seg]);
}

#[test]
fn gutter_fields_are_aligned() {
    let parts = vec![
        GutterPart::Text("│".to_string()),
        GutterPart::Number { side: MinusPlusIndex::Minus, width: 4, align: Align::Center },
        GutterPart::Text("│".to_string()),
        GutterPart::Number { side: MinusPlusIndex::Plus, width: 4, align: Align::Right },
        GutterPart::Number { side: MinusPlusIndex::Plus, width: 4, align: Align::Left },
    ];
    assert_eq!(format_gutter(&parts, Some(7), Some(123)), "│ 7  │ 123123 ");
    assert_eq!(format_gutter(&parts, None, Some(123456)), "│    │123456123456");
    assert_eq!(format_gutter(&parts, Some(0), None), "│ 0  │        ");
}

#[test]
fn panel_line_drops_marker_and_newline() {
    let row = vec![(St(1), "-ab"), (St(2), "c\n")];
    let (line, empty) = paint_panel_line(&row, "│1│", St(0), Some((St(5), "+")));
    assert!(!empty);
    assert_eq!(texts(&line.cells), "│1│+abc");
    let (line, empty) = paint_panel_line(&vec![(St(1), "-\n")], "│ │", St(0), None);
    assert!(empty);
    assert_eq!(texts(&line.cells), "│ │");
}

#[test]
fn padding_makes_exact_widths() {
    let markers = MinusPlus::new(St(1), St(2));
    // Left: spaces to the panel width.
    let (mut line, empty) = paint_panel_line(&vec![(St(1), "-abc\n")], "│", St(0), None);
    pad_panel_line_to_width(&mut line, empty, Some(0), State::HunkMinus, MinusPlusIndex::Minus, 10, ">", (None, St(0)), St(0), &markers);
    assert_eq!(texts(&line.cells), "│abc      ");
    assert_eq!(line.cells.len(), 10);
    // Right, escape-sequence fill: no spaces, fill flagged.
    let (mut line, empty) = paint_panel_line(&vec![(St(2), "+abc\n")], "│", St(0), None);
    pad_panel_line_to_width(&mut line, empty, Some(0), State::HunkPlus, MinusPlusIndex::Plus, 10, ">", (Some(BgFillMethod::TryAnsiSequence), St(2)), St(0), &markers);
    assert_eq!(texts(&line.cells), "│abc");
    assert_eq!(line.fill_to_end, Some(St(2)));
    // Truncation keeps the panel width with the symbol last.
    let (mut line, empty) = paint_panel_line(&vec![(St(2), "+abcdefghijk\n")], "│", St(0), None);
    pad_panel_line_to_width(&mut line, empty, Some(0), State::HunkPlus, MinusPlusIndex::Plus, 6, "→", (Some(BgFillMethod::Spaces), St(2)), St(0), &markers);
    assert_eq!(texts(&line.cells), "│abcd→");
    // An empty line with an index gets the empty-line marker.
    let (mut line, empty) = paint_panel_line(&vec![(St(2), "+\n")], "│", St(0), None);
    assert!(empty);
    pad_panel_line_to_width(&mut line, empty, Some(0), State::HunkPlus, MinusPlusIndex::Plus, 6, ">", (Some(BgFillMethod::Spaces), St(2)), St(0), &markers);
    assert_eq!(line.cells.len(), 2);
    assert_eq!(line.cells[1], (St(2), " ".to_string()));
    // A right half without a line gets no fill.
    let mut line = PanelLine { cells: vec![(St(0), "│".to_string())], fill_to_end: None };
    pad_panel_line_to_width(&mut line, true, None, State::HunkPlus, MinusPlusIndex::Plus, 6, ">", (Some(BgFillMethod::Spaces), St(2)), St(0), &markers);
    assert_eq!(line.cells.len(), 1);
}

#[test]
fn wrapping_never_splits_a_given_cluster() {
    let c = cfg(0, 0);
    let line = vec![(St(1), "_abcd", vec!["_", "ab", "c", "d"])];
    let rows = wrap_clustered_line(&c, line, 2, &St(0), &None, &St(0));
    assert_eq!(rows, vec![vec![(St(1), "_ab"), (St(0), "+")], vec![(St(0), "_"), (St(1), "cd")]]);

    // Segmented by the library, every letter is a cluster of its own.
    let rows = wrap_line(&c, &vec![(St(1), "_abcd")], 2, &St(0), &None);
    assert_eq!(
        rows,
        vec![
            vec![(St(1), "_a"), (St(0), "+")],
            vec![(St(0), "_"), (St(1), "b"), (St(0), "+")],
            vec![(St(0), "_"), (St(1), "cd")]
        ]
    );
}

#[test]
fn final_line_feed_takes_no_column() {
    let c = cfg(0, 0);
    // Width 3: the marker, three columns and the line feed fit one row.
    let rows = wrap_line(&c, &vec![(St(1), "_abc\n")], 3, &St(0), &None);
    assert_eq!(rows, vec![vec![(St(1), "_abc\n")]]);
    let rows = wrap_line(&c, &vec![(St(1), "_abcd")], 3, &St(0), &None);
    assert_eq!(rows.len(), 2);
}

#[test]
fn block_fails_only_where_the_two_forms_wrap_differently() {
    let c = cfg(0, 0);
    let syntax = MinusPlus::new(vec![vec![(St(1), "-abcdefghi\n")]], vec![]);
    let diff_same = MinusPlus::new(vec![vec![(St(5), "-abcd"), (St(6), "efghi\n")]], vec![]);
    let diff_other = MinusPlus::new(vec![vec![(St(5), "-ab\n")]], vec![]);
    let alignment = vec![(Some(0), None)];
    let flags = MinusPlus::new(vec![true], vec![]);
    let widths = MinusPlus::new(4, 4);
    let same = wrap_minusplus_block(&c, &styles(), &syntax, &diff_same, &alignment, &widths, &flags);
    assert!(same.is_some());
    assert_eq!(same.unwrap().rows.minus, vec![3]);
    let other = wrap_minusplus_block(&c, &styles(), &syntax, &diff_other, &alignment, &widths, &flags);
    assert!(other.is_none());
    // Not flagged: nothing is wrapped, so nothing can differ.
    let unflagged = MinusPlus::new(vec![false], vec![]);
    assert!(wrap_minusplus_block(&c, &styles(), &syntax, &diff_other, &alignment, &widths, &unflagged).is_some());
}

fn panel_config(width: usize, trunc: &str) -> PanelConfig<St> {
    let fmt = vec![GutterPart::Text("│".to_string())];
    PanelConfig {
        panel_width: MinusPlus::new(width, width),
        keep_plus_minus_markers: false,
        truncation_symbol: trunc.to_string(),
        minus_style: St(1),
        plus_style: St(2),
        null_style: St(0),
        minus_empty_line_marker_style: St(1),
        plus_empty_line_marker_style: St(2),
        gutter_style: St(0),
        line_numbers_format: MinusPlus::new(fmt.clone(), fmt),
        pad_right_gutter: false,
    }
}

#[test]
fn composing_checks_the_truncation_symbol() {
    assert!(truncation_fits(&panel_config(3, ">")));
    assert!(!truncation_fits(&panel_config(0, ">")));
    assert!(!truncation_fits(&panel_config(2, ">>>")));
    let diff = MinusPlus::new(vec![vec![(St(1), "-abc\n")]], vec![]);
    let states = MinusPlus::new(vec![State::HunkMinus], vec![]);
    let answers = MinusPlus::new(vec![(Some(BgFillMethod::Spaces), St(1))], vec![]);
    let mut out = Vec::new();
    let mut numbers = LineNumbers { minus: 1, plus: 1 };
    let ok = try_paint_minus_and_plus_lines_side_by_side(
        &diff, &states, &vec![(Some(0), None)], &mut out, &panel_config(0, ">"), &mut numbers, &answers,
    );
    assert!(!ok);
    assert!(out.is_empty());
    let ok = try_paint_minus_and_plus_lines_side_by_side(
        &diff, &states, &vec![(Some(0), None)], &mut out, &panel_config(3, ">"), &mut numbers, &answers,
    );
    assert!(ok);
    assert_eq!(texts(&out[0].0.cells), "│a>");
    assert_eq!(numbers, LineNumbers { minus: 2, plus: 1 });
}

#[test]
fn context_line_fails_only_where_its_forms_wrap_differently() {
    let c = cfg(0, 0);
    let line = " abcdefgh\n";
    let syntax = vec![(St(0), line)];
    let diff = vec![(St(0), " ab\n")];
    let r = wrap_zero_block(&c, &styles(), line, vec![State::HunkZero], vec![syntax], vec![diff], &MinusPlus::new(4, 4));
    assert!(r.is_none());
}

#[test]
fn left_padding_of_a_row_without_content_uses_the_null_style() {
    let markers = MinusPlus::new(St(1), St(2));
    // Empty minus row with a line: the marker, then null-style blanks.
    let (mut line, empty) = paint_panel_line(&vec![(St(1), "-\n")], "│", St(0), None);
    pad_panel_line_to_width(&mut line, empty, Some(0), State::HunkMinus, MinusPlusIndex::Minus, 5, ">", (Some(BgFillMethod::Spaces), St(9)), St(0), &markers);
    assert_eq!(line.cells.len(), 5);
    assert_eq!(line.cells[1], (St(1), " ".to_string()));
    assert!(line.cells[2..].iter().all(|c| c.0 == St(0)));
    // A left half with no line: null-style blanks.
    let mut line = PanelLine { cells: vec![(St(0), "│".to_string())], fill_to_end: None };
    pad_panel_line_to_width(&mut line, false, None, State::HunkMinus, MinusPlusIndex::Minus, 4, ">", (Some(BgFillMethod::Spaces), St(9)), St(0), &markers);
    assert_eq!(line.cells.len(), 4);
    assert!(line.cells[1..].iter().all(|c| c == &(St(0), " ".to_string())));
    // A left half that shows a line: the policy's style.
    let (mut line, empty) = paint_panel_line(&vec![(St(1), "-a\n")], "│", St(0), None);
    pad_panel_line_to_width(&mut line, empty, Some(0), State::HunkMinus, MinusPlusIndex::Minus, 4, ">", (Some(BgFillMethod::Spaces), St(9)), St(0), &markers);
    assert!(line.cells[2..].iter().all(|c| c.0 == St(9)));
}

#[test]
fn exact_block_wrapper_pairs_two_rows_with_three() {
    let c = cfg(0, 0);
    let minus = vec![vec![(St(1), "-abcdef\n")]];
    let plus = vec![vec![(St(2), "+abcdefghi\n")]];
    let syntax = MinusPlus::new(minus.clone(), plus.clone());
    let diff = MinusPlus::new(minus, plus);
    let alignment = vec![(Some(0), Some(0))];
    let flags = MinusPlus::new(vec![true], vec![true]);
    let b = wrap_minusplus_block_exact(&c, &styles(), &syntax, &diff, &alignment, &MinusPlus::new(4, 4), &flags);
    assert_eq!(b.rows.minus, vec![2]);
    assert_eq!(b.rows.plus, vec![3]);
    assert_eq!(b.alignment, vec![(Some(0), Some(0)), (Some(1), Some(1)), (None, Some(2))]);
    assert_eq!(b.states.minus, vec![State::HunkMinus, State::HunkMinusWrapped]);
    assert_eq!(
        b.states.plus,
        vec![State::HunkPlus, State::HunkPlusWrapped, State::HunkPlusWrapped]
    );
}
