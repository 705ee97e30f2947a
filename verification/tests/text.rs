use clip_cli::text::trim;

#[test]
fn trim_agrees_with_std() {
    let samples = [
        "", " ", "abc", "  abc  ", "\t\n a b \r\n", "\u{a0}x\u{3000}", "\u{2009}mid dle\u{85}",
        "\u{200b}zero-width is not space\u{200b}", "é ", " \u{1680}\u{2028}\u{2029}\u{202f}\u{205f}",
    ];
    for s in samples {
        assert_eq!(trim(s), s.trim(), "input {s:?}");
    }
}
