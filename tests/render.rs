use side_by_side::minusplus::{MinusPlus, MinusPlusIndex};
use side_by_side::panel::{
    format_gutter, paint_minus_and_plus_lines_side_by_side, paint_zero_lines_side_by_side, Align,
    GutterPart, LineNumbers, PanelConfig, PanelLine,
};
use side_by_side::side_by_side::{
    available_line_width, has_long_lines, BgFillMethod, SideBySideData, UseFullPanelWidth, Width,
};
use side_by_side::wrapping::{wrap_minusplus_block, LineSegments, State, WrapConfig, WrapStyles};

#[derive(Clone, Copy, Debug, Default, PartialEq)]
struct St(u8);

const NULL: St = St(0);
const MINUS: St = St(1);
const PLUS: St = St(2);

struct Setup {
    width: usize,
    fill: BgFillMethod,
    keep_markers: bool,
    left_format: Vec<GutterPart>,
    right_format: Vec<GutterPart>,
    truncation_symbol: &'static str,
    wrap: WrapConfig,
}

fn text(s: &str) -> GutterPart {
    GutterPart::Text(s.to_string())
}

fn number(side: MinusPlusIndex) -> GutterPart {
    GutterPart::Number { side, width: 4, align: Align::Center }
}

/// Side-by-side defaults: `│{nm:^4}│` and `│{np:^4}│` gutters, ANSI fill.
fn setup(width: usize) -> Setup {
    Setup {
        width,
        fill: BgFillMethod::TryAnsiSequence,
        keep_markers: false,
        left_format: vec![text("│"), number(MinusPlusIndex::Minus), text("│")],
        right_format: vec![text("│"), number(MinusPlusIndex::Plus), text("│")],
        truncation_symbol: "→",
        wrap: WrapConfig {
            left_symbol: "↵".to_string(),
            right_symbol: "↴".to_string(),
            right_prefix_symbol: "…".to_string(),
            use_wrap_right_permille: 370,
            max_lines: 3,
        },
    }
}

/// The wrap symbols and limits used by the wrapping tests.
fn wrap_setup(width: usize) -> Setup {
    let mut s = setup(width);
    s.wrap = WrapConfig {
        left_symbol: "+".to_string(),
        right_symbol: "<".to_string(),
        right_prefix_symbol: ">".to_string(),
        use_wrap_right_permille: 370,
        max_lines: 5,
    };
    s
}

fn render_row(row: &(PanelLine<St>, PanelLine<St>)) -> String {
    let mut s = String::new();
    for (_, t) in row.0.cells.iter().chain(row.1.cells.iter()) {
        s.push_str(t);
    }
    s
}

/// Render the lines of one hunk (each starting with ' ', '-' or '+'),
/// numbered from `start`. Removed lines are paired in order with the added
/// lines that follow them.
fn run(s: &Setup, lines: &[&str], start: (usize, usize)) -> Vec<String> {
    let width = Width::Fixed(s.width);
    let sbs = SideBySideData::new_sbs(&width, &0);
    let sbs = UseFullPanelWidth::sbs_odd_fix(&width, &s.fill, sbs);
    let pad = UseFullPanelWidth::new(true, &width, &s.fill).pad_width();
    let gutter_width = |f: &Vec<GutterPart>| format_gutter(f, None, None).chars().count();
    let numbers_width =
        MinusPlus::new(gutter_width(&s.left_format), gutter_width(&s.right_format) + pad as usize);
    let avail = available_line_width(&sbs, &numbers_width, s.keep_markers);
    let cfg = PanelConfig {
        panel_width: MinusPlus::new(sbs.minus.width, sbs.plus.width),
        keep_plus_minus_markers: s.keep_markers,
        truncation_symbol: s.truncation_symbol.to_string(),
        minus_style: MINUS,
        plus_style: PLUS,
        null_style: NULL,
        minus_empty_line_marker_style: MINUS,
        plus_empty_line_marker_style: PLUS,
        gutter_style: NULL,
        line_numbers_format: MinusPlus::new(s.left_format.clone(), s.right_format.clone()),
        pad_right_gutter: pad,
    };
    // The fill policy: removed and added lines have a background and are
    // filled as the method says; context lines have none.
    let zero_fill = (None, NULL);
    let styles = WrapStyles {
        syntax_fill: NULL,
        syntax_hint: None,
        diff_fill: MinusPlus::new(MINUS, PLUS),
        diff_hint: None,
        zero_fill: NULL,
        syntax_marker: NULL,
        diff_marker: NULL,
    };
    let texts: Vec<String> = lines.iter().map(|l| format!("{}\n", l)).collect();
    let mut out: Vec<(PanelLine<St>, PanelLine<St>)> = Vec::new();
    let mut numbers = LineNumbers { minus: start.0, plus: start.1 };
    let mut i = 0;
    while i < texts.len() {
        if texts[i].starts_with(' ') {
            let seg: LineSegments<St> = vec![(NULL, texts[i].as_str())];
            let prefix = if s.keep_markers { Some((NULL, " ")) } else { None };
            let composed = paint_zero_lines_side_by_side(
                &s.wrap,
                &styles,
                &avail,
                &texts[i],
                vec![seg.clone()],
                vec![seg],
                &mut out,
                &cfg,
                &mut numbers,
                prefix,
                zero_fill,
            );
            assert!(composed);
            i += 1;
            continue;
        }
        let mut minus: Vec<(String, State)> = Vec::new();
        let mut plus: Vec<(String, State)> = Vec::new();
        while i < texts.len() && texts[i].starts_with('-') {
            minus.push((texts[i].clone(), State::HunkMinus));
            i += 1;
        }
        while i < texts.len() && texts[i].starts_with('+') {
            plus.push((texts[i].clone(), State::HunkPlus));
            i += 1;
        }
        let lines_lr = MinusPlus::new(minus, plus);
        let (_, wrapinfo) = has_long_lines(&lines_lr, &avail);
        let diff = MinusPlus::new(
            lines_lr.minus.iter().map(|(t, _)| vec![(MINUS, t.as_str())]).collect::<Vec<_>>(),
            lines_lr.plus.iter().map(|(t, _)| vec![(PLUS, t.as_str())]).collect::<Vec<_>>(),
        );
        let syntax = diff.clone();
        let n = lines_lr.minus.len().max(lines_lr.plus.len());
        let alignment: Vec<(Option<usize>, Option<usize>)> = (0..n)
            .map(|k| {
                (
                    if k < lines_lr.minus.len() { Some(k) } else { None },
                    if k < lines_lr.plus.len() { Some(k) } else { None },
                )
            })
            .collect();
        let block =
            wrap_minusplus_block(&s.wrap, &styles, &syntax, &diff, &alignment, &avail, &wrapinfo)
                .unwrap();
        paint_minus_and_plus_lines_side_by_side(
            &block.diff,
            &block.states,
            &block.alignment,
            &mut out,
            &cfg,
            &mut numbers,
            &MinusPlus::new(
                vec![(Some(s.fill), MINUS); block.diff.minus.len()],
                vec![(Some(s.fill), PLUS); block.diff.plus.len()],
            ),
        );
    }
    out.iter().map(render_row).collect()
}

const TWO_MINUS_LINES: &[&str] = &["-a = 1", "-b = 23456"];
const TWO_PLUS_LINES: &[&str] = &["+a = 1", "+b = 234567"];
const ONE_MINUS_ONE_PLUS_LINE: &[&str] = &[" a = 1", "-b = 2", "+bb = 2"];

#[test]
fn test_two_minus_lines() {
    let s = setup(40);
    let lines = run(&s, TWO_MINUS_LINES, (1, 1));
    assert_eq!("│ 1  │a = 1         │    │", lines[0]);
    assert_eq!("│ 2  │b = 23456     │    │", lines[1]);
}

#[test]
fn test_two_minus_lines_truncated() {
    let mut s = setup(28);
    s.wrap.max_lines = 1;
    s.fill = BgFillMethod::Spaces;
    s.truncation_symbol = ">";
    let lines = run(&s, TWO_MINUS_LINES, (1, 1));
    assert_eq!("│ 1  │a = 1   │    │", lines[0]);
    assert_eq!("│ 2  │b = 234>│    │", lines[1]);
}

#[test]
fn test_two_plus_lines() {
    let mut s = setup(41);
    s.fill = BgFillMethod::Spaces;
    let lines = run(&s, TWO_PLUS_LINES, (1, 1));
    assert_eq!("│    │              │ 1  │a = 1         ", lines[0]);
    assert_eq!("│    │              │ 2  │b = 234567    ", lines[1]);
}

#[test]
fn test_two_plus_lines_truncated() {
    let mut s = setup(30);
    s.wrap.max_lines = 1;
    s.fill = BgFillMethod::Spaces;
    s.truncation_symbol = ">";
    let lines = run(&s, TWO_PLUS_LINES, (1, 1));
    assert_eq!("│    │         │ 1  │a = 1    ", lines[0]);
    assert_eq!("│    │         │ 2  │b = 2345>", lines[1]);
}

#[test]
fn test_two_plus_lines_exact_fit() {
    let s = setup(33);
    let lines = run(&s, TWO_PLUS_LINES, (1, 1));
    assert_eq!("│    │           │ 1  │a = 1", lines[0]);
    assert_eq!("│    │           │ 2  │b = 234567", lines[1]);
}

#[test]
fn test_one_minus_one_plus_line() {
    let mut s = setup(40);
    s.fill = BgFillMethod::Spaces;
    let lines = run(&s, ONE_MINUS_ONE_PLUS_LINE, (1, 1));
    assert_eq!("│ 1  │a = 1         │ 1  │a = 1", lines[0]);
    assert_eq!("│ 2  │b = 2         │ 2  │bb = 2        ", lines[1]);
}

const ZERO_LINE: &str =
    " abcdefghijklmnopqrstuvwxzy 0123456789 0123456789 0123456789 0123456789 0123456789";
const ALIGN_SHORT: &str = ".........1.........2....";
const ALIGN_LONG: &str = ".........1.........2.........3.........4.........5.........6";

#[test]
fn test_wrap_with_unequal_hunk_zero_width() {
    let mut s = wrap_setup(40);
    s.left_format = vec![text("│L│")];
    s.right_format = vec![text("│RRRR│")];
    s.fill = BgFillMethod::Spaces;
    s.truncation_symbol = ">";
    let lines = run(&s, &[ZERO_LINE, "-a = 1", "+a = 2"], (4, 15));
    let expected = vec![
        "│L│abcdefghijklm+   │RRRR│abcdefghijklm+",
        "│L│nopqrstuvwxzy+   │RRRR│nopqrstuvwxzy+",
        "│L│ 0123456789 0+   │RRRR│ 0123456789 0+",
        "│L│123456789 012+   │RRRR│123456789 012+",
        "│L│3456789 01234567>│RRRR│3456789 01234>",
        "│L│a = 1            │RRRR│a = 2         ",
    ];
    assert_eq!(lines, expected);
}

#[test]
fn test_wrap_with_keep_markers() {
    let mut s = wrap_setup(45);
    s.keep_markers = true;
    s.truncation_symbol = ">";
    let minus = "-a = 0123456789 0123456789 0123456789 0123456789 0123456789";
    let plus = "+b = 0123456789 0123456789 0123456789 0123456789 0123456789";
    let lines = run(&s, &[ZERO_LINE, minus, plus], (4, 15));
    let expected = vec![
        "│ 4  │ abcdefghijklmn+ │ 15 │ abcdefghijklmn+",
        "│    │ opqrstuvwxzy 0+ │    │ opqrstuvwxzy 0+",
        "│    │ 123456789 0123+ │    │ 123456789 0123+",
        "│    │ 456789 0123456+ │    │ 456789 0123456+",
        "│    │ 789 0123456789> │    │ 789 0123456789>",
        "│ 5  │-a = 0123456789+ │ 16 │+b = 0123456789+",
        "│    │  0123456789 01+ │    │  0123456789 01+",
        "│    │ 23456789 01234+ │    │ 23456789 01234+",
        "│    │ 56789 01234567+ │    │ 56789 01234567+",
        "│    │ 89              │    │ 89",
    ];
    assert_eq!(lines, expected);

    for line in lines {
        assert_eq!(line.chars().nth(22), Some(' '));
    }
}

#[test]
fn test_alignment_2_lines_vs_3_lines() {
    let s = wrap_setup(55);
    {
        let minus = format!("-{}", ALIGN_SHORT);
        let plus = format!("+{}", ALIGN_LONG);
        let lines = run(&s, &[minus.as_str(), plus.as_str()], (1, 1));
        let expected = vec![
            "│ 1  │.........1.........2< │ 1  │.........1.........2+",
            "│    │                >.... │    │.........3.........4+",
            "│    │                      │    │.........5.........6",
        ];
        assert_eq!(lines, expected);
    }
    {
        let minus = format!("-{}", ALIGN_LONG);
        let plus = format!("+{}", ALIGN_SHORT);
        let lines = run(&s, &[minus.as_str(), plus.as_str()], (1, 1));
        let expected = vec![
            "│ 1  │.........1.........2+ │ 1  │.........1.........2<",
            "│    │.........3.........4+ │    │                >....",
            "│    │.........5.........6  │    │",
        ];
        assert_eq!(lines, expected);
    }
}

#[test]
fn test_alignment_1_line_vs_3_lines() {
    let mut s = wrap_setup(61);
    s.fill = BgFillMethod::Spaces;
    {
        let minus = format!("-{}", ALIGN_SHORT);
        let plus = format!("+{}", ALIGN_LONG);
        let lines = run(&s, &[minus.as_str(), plus.as_str()], (1, 1));
        let expected = vec![
            "│ 1  │.........1.........2....│ 1  │.........1.........2...+",
            "│    │                        │    │......3.........4......+",
            "│    │                        │    │...5.........6          ",
        ];
        assert_eq!(lines, expected);
    }
    {
        let minus = format!("-{}", ALIGN_LONG);
        let plus = format!("+{}", ALIGN_SHORT);
        let lines = run(&s, &[minus.as_str(), plus.as_str()], (1, 1));
        let expected = vec![
            "│ 1  │.........1.........2...+│ 1  │.........1.........2....",
            "│    │......3.........4......+│    │",
            "│    │...5.........6          │    │",
        ];
        assert_eq!(lines, expected);
    }
}

#[test]
fn test_wrap_max_lines_2() {
    let mut s = wrap_setup(72);
    s.fill = BgFillMethod::Spaces;
    s.truncation_symbol = ">";
    let minus = format!("-{}", ALIGN_SHORT);
    let plus = format!("+{}", ALIGN_LONG);
    {
        let lines = run(&s, &[minus.as_str(), plus.as_str()], (1, 1));
        let expected = vec![
            "│ 1  │.........1.........2....      │ 1  │.........1.........2.........+",
            "│    │                              │    │3.........4.........5........+",
            "│    │                              │    │.6                            ",
        ];
        assert_eq!(lines, expected);
    }
    {
        s.wrap.max_lines = 2;
        let lines = run(&s, &[minus.as_str(), plus.as_str()], (1, 1));
        let expected = vec![
            "│ 1  │.........1.........2....      │ 1  │.........1.........2.........+",
            "│    │                              │    │3.........4.........5........>",
        ];
        assert_eq!(lines, expected);
    }
}

#[test]
fn test_wrap_with_large_hunk_zero_line_numbers() {
    let mut s = wrap_setup(60);
    s.left_format = vec![text("│LLL│")];
    // `{nm}` and `{np:2}` take the width of the hunk's widest line number.
    s.right_format = vec![
        text("│WW "),
        GutterPart::Number { side: MinusPlusIndex::Minus, width: 6, align: Align::Center },
        text(" +- "),
        GutterPart::Number { side: MinusPlusIndex::Plus, width: 6, align: Align::Center },
        text(" WW│"),
    ];
    s.truncation_symbol = ">";
    let lines = run(&s, &[ZERO_LINE, "-a = 1", "+a = 2"], (10, 101999));
    let expected = vec![
        "│LLL│abcde+                   │WW   10   +- 101999 WW│abcde+",
        "│LLL│fghij+                   │WW        +-        WW│fghij+",
        "│LLL│klmno+                   │WW        +-        WW│klmno+",
        "│LLL│pqrst+                   │WW        +-        WW│pqrst+",
        "│LLL│uvwxzy 0123456789 012345>│WW        +-        WW│uvwxz>",
        "│LLL│a = 1                    │WW        +- 102000 WW│a = 2",
    ];
    assert_eq!(lines, expected);
}
