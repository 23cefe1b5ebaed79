use side_by_side::wrapping::{wrap_line, LineSegments, WrapConfig};

#[derive(Clone, Copy, Debug, Default, PartialEq)]
struct Style {
    is_syntax_highlighted: bool,
    is_emph: bool,
}

const S1: Style = Style { is_syntax_highlighted: true, is_emph: false };
const S2: Style = Style { is_syntax_highlighted: false, is_emph: true };
const SY: Style = Style { is_syntax_highlighted: false, is_emph: false };
const SD: Style = Style { is_syntax_highlighted: false, is_emph: false };

const W: &str = "+";
const WR: &str = "<";
const RA: &str = ">";

fn test_wrap_cfg() -> WrapConfig {
    WrapConfig {
        left_symbol: W.to_string(),
        right_symbol: WR.to_string(),
        right_prefix_symbol: RA.to_string(),
        use_wrap_right_permille: 370,
        max_lines: 5,
    }
}

fn wrap_test<'a>(cfg: &'a WrapConfig, line: Vec<(Style, &'a str)>, line_width: usize) -> Vec<LineSegments<'a, Style>> {
    wrap_line(cfg, &line, line_width, &Style::default(), &None)
}

#[test]
fn test_wrap_line_single() {
    let cfg = test_wrap_cfg();

    {
        let line = vec![(S1, "")];
        let lines = wrap_test(&cfg, line, 6);
        assert!(lines.is_empty());
    }
    {
        let line = vec![(SY, "_0")];
        let lines = wrap_test(&cfg, line, 6);
        assert_eq!(lines, vec![vec![(SY, "_0")]]);
    }
    {
        let line = vec![(S1, "_")];
        let lines = wrap_test(&cfg, line, 6);
        assert_eq!(lines, vec![vec![(S1, "_")]]);
    }
    {
        let line = vec![(S1, "_"), (S2, "0")];
        let lines = wrap_test(&cfg, line, 6);
        assert_eq!(lines, vec![vec![(S1, "_"), (S2, "0")]]);
    }
    {
        let line = vec![(S1, "_012"), (S2, "34")];
        let lines = wrap_test(&cfg, line, 6);
        assert_eq!(lines, vec![vec![(S1, "_012"), (S2, "34")]]);
    }
    {
        let line = vec![(S1, "_012"), (S2, "345")];
        let lines = wrap_test(&cfg, line, 6);
        assert_eq!(lines, vec![vec![(S1, "_012"), (S2, "345")]]);
    }
}

#[test]
fn test_wrap_line_align_right() {
    let cfg = test_wrap_cfg();

    let line = vec![(S1, "_0123456789ab")];
    let lines = wrap_test(&cfg, line, 11);
    assert_eq!(lines.len(), 2);
    assert_eq!(lines[0].last().unwrap().1, WR);
    assert_eq!(lines[1], vec![(SD, "_"), (SD, "         "), (SD, ">"), (S1, "ab")]);
}

#[test]
fn test_wrap_line_align_right_2() {
    let line = vec![(S1, "_012"), (S2, "3456")];

    {
        let cfg = test_wrap_cfg();
        let lines = wrap_test(&cfg, line.clone(), 6);
        assert_eq!(
            lines,
            vec![
                vec![(S1, "_012"), (S2, "34"), (SD, WR)],
                vec![(SD, "_"), (SD, "    "), (SD, RA), (S2, "56")]
            ]
        );
    }

    {
        let mut no_align_right = test_wrap_cfg();
        no_align_right.use_wrap_right_permille = 1;
        let lines = wrap_test(&no_align_right, line, 6);
        assert_eq!(
            lines,
            vec![vec![(S1, "_012"), (S2, "34"), (SD, W)], vec![(SD, "_"), (S2, "56")]]
        );
    }
}

fn mk_input(len: usize) -> LineSegments<'static, Style> {
    const IN: &str = "_0123456789abcdefZ";
    let styles = [S1, S2];
    IN.matches(|_| true)
        .take(len + 1)
        .enumerate()
        .map(|(i, text)| (styles[i % 2], text))
        .collect()
}

fn mk_input_nl(len: usize) -> LineSegments<'static, Style> {
    let mut line = mk_input(len);
    line.push((S2, "\n"));
    line
}

fn mk_expected<'a>(
    prepend: Option<(Style, &'a str)>,
    vec: &LineSegments<'a, Style>,
    from: usize,
    to: usize,
    append: Option<(Style, &'a str)>,
) -> LineSegments<'a, Style> {
    let mut result: Vec<_> = vec[from..to].to_vec();
    if let Some(val) = append {
        result.push(val);
    }
    if let Some(val) = prepend {
        result.insert(0, val);
    }
    result
}

#[test]
fn test_wrap_line_newlines() {
    let cfg = test_wrap_cfg();

    {
        let line = vec![(S1, "_012"), (S2, "345\n")];
        let lines = wrap_test(&cfg, line, 6);
        assert_eq!(lines, vec![vec![(S1, "_012"), (S2, "345\n")]]);
    }

    {
        for i in 0..=6 {
            let line = mk_input(i);
            let lines = wrap_test(&cfg, line, 6);
            assert_eq!(lines, vec![mk_input(i)]);

            let line = mk_input_nl(i);
            let lines = wrap_test(&cfg, line, 6);
            assert_eq!(lines, vec![mk_input_nl(i)]);
        }
    }

    {
        let line = mk_input_nl(9);
        let lines = wrap_test(&cfg, line, 3);
        let expected = mk_input_nl(9);
        let line1 = mk_expected(None, &expected, 0, 3, Some((SD, W)));
        let line2 = mk_expected(Some((SD, "_")), &expected, 3, 5, Some((SD, W)));
        let line3 = mk_expected(Some((SD, "_")), &expected, 5, 7, Some((SD, W)));
        let line4 = mk_expected(Some((SD, "_")), &expected, 7, 11, None);
        assert_eq!(lines, vec![line1, line2, line3, line4]);
    }

    {
        let line = mk_input_nl(10);
        let lines = wrap_test(&cfg, line, 3);
        let expected = mk_input_nl(10);
        let line1 = mk_expected(None, &expected, 0, 3, Some((SD, W)));
        let line2 = mk_expected(Some((SD, "_")), &expected, 3, 5, Some((SD, W)));
        let line3 = mk_expected(Some((SD, "_")), &expected, 5, 7, Some((SD, W)));
        let line4 = mk_expected(Some((SD, "_")), &expected, 7, 9, Some((SD, W)));
        let line5 = mk_expected(Some((SD, "_")), &expected, 9, 11, Some((S2, "\n")));
        assert_eq!(lines, vec![line1, line2, line3, line4, line5]);
    }

    {
        let line = vec![(S1, "_abc"), (S2, "01230123012301230123"), (S1, "ZZZZZ")];

        let wcfg1 = WrapConfig { max_lines: 1, ..test_wrap_cfg() };
        let wcfg2 = WrapConfig { max_lines: 2, ..test_wrap_cfg() };
        let wcfg3 = WrapConfig { max_lines: 3, ..test_wrap_cfg() };

        let lines = wrap_line(&wcfg1, &line, 4, &Style::default(), &None);
        assert_eq!(lines.len(), 1);
        assert_eq!(lines.last().unwrap().last().unwrap().1, "ZZZZZ");
        let lines = wrap_line(&wcfg2, &line, 4, &Style::default(), &None);
        assert_eq!(lines.len(), 2);
        assert_eq!(lines.last().unwrap().last().unwrap().1, "ZZZZZ");
        let lines = wrap_line(&wcfg3, &line, 4, &Style::default(), &None);
        assert_eq!(lines.len(), 3);
        assert_eq!(lines.last().unwrap().last().unwrap().1, "ZZZZZ");
    }
}

#[test]
fn test_wrap_line_unicode() {
    let cfg = test_wrap_cfg();

    let line = vec![(S1, "_abc"), (S2, "mnö̲"), (S1, "xyz")];
    let lines = wrap_test(&cfg, line, 4);
    assert_eq!(
        lines,
        vec![
            vec![(S1, "_abc"), (SD, W)],
            vec![(SD, "_"), (S2, "mnö̲"), (SD, W)],
            vec![(SD, "_"), (S1, "xyz")]
        ]
    );

    let line = vec![(S1, "_abc"), (S2, "deநி"), (S1, "ghij")];
    let lines = wrap_test(&cfg, line, 4);
    assert_eq!(
        lines,
        vec![
            vec![(S1, "_abc"), (SD, W)],
            vec![(SD, "_"), (S2, "deநி"), (SD, W)],
            vec![(SD, "_"), (S1, "ghij")]
        ]
    );
}
