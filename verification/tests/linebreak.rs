use browser::linebreak::segments;
use browser::style::WordBreak;

/// `word-break: normal`, the default.
fn seg(run: &str) -> Vec<&str> {
    segments(run, WordBreak::Normal)
}

#[test]
fn latin_runs_are_never_segmented() {
    assert_eq!(seg("hello"), vec!["hello"]);
    assert_eq!(seg(""), vec![""]);
}

#[test]
fn ideographs_break_between_every_character() {
    assert_eq!(seg("漢字"), vec!["漢", "字"]);
    assert_eq!(seg("テスト"), vec!["テ", "ス", "ト"]);
}

#[test]
fn closing_marks_do_not_start_a_line() {
    assert_eq!(seg("「漢字」"), vec!["「漢", "字」"]);
    assert_eq!(seg("漢。"), vec!["漢。"]);
    assert_eq!(seg("あっ"), vec!["あっ"]);
}

#[test]
fn opening_brackets_do_not_end_a_line() {
    assert_eq!(seg("字（漢"), vec!["字", "（漢"]);
}

#[test]
fn hangul_is_left_alone() {
    assert_eq!(seg("한국어"), vec!["한국어"]);
}

#[test]
fn mixed_latin_and_ideographs_keeps_latin_intact() {
    assert_eq!(seg("ab漢字"), vec!["ab漢", "字"]);
}

#[test]
fn keep_all_makes_a_cjk_run_atomic() {
    assert_eq!(segments("漢字", WordBreak::KeepAll), vec!["漢字"]);
    assert_eq!(segments("テスト", WordBreak::KeepAll), vec!["テスト"]);
}

#[test]
fn keep_all_still_breaks_after_ideographic_space() {
    assert_eq!(
        segments("字字\u{3000}字字", WordBreak::KeepAll),
        vec!["字字\u{3000}", "字字"]
    );
}

#[test]
fn break_all_segments_latin_too() {
    assert_eq!(segments("hello", WordBreak::BreakAll), vec!["h", "e", "l", "l", "o"]);
}

#[test]
fn break_all_still_honours_pair_prohibitions() {
    assert_eq!(
        segments("漢。", WordBreak::BreakAll),
        vec!["漢。"],
        "。 must not be pushed to the next line",
    );
    assert_eq!(
        segments("a（b", WordBreak::BreakAll),
        vec!["a", "（b"],
        "（ must not be left at the end of a line",
    );
}

#[test]
fn segments_rejoin_to_the_run() {
    for (run, mode) in [
        ("「漢字」テスト abc", WordBreak::Normal),
        ("字字\u{3000}字字", WordBreak::KeepAll),
        ("hello 漢。", WordBreak::BreakAll),
    ] {
        assert_eq!(segments(run, mode).concat(), run);
    }
}
