use browser::selection::{has_selection, selected_text, selection_ranges};

fn runs() -> (Vec<String>, Vec<bool>) {
    (
        vec!["Hello".to_string(), "world".to_string(), "next line".to_string()],
        vec![false, false, true],
    )
}

#[test]
fn selected_text_joins_runs_by_line() {
    let (r, b) = runs();
    assert_eq!(selected_text(&r, &b, (0, 1), (2, 4)), "ello world\nnext");
    assert_eq!(selected_text(&r, &b, (2, 4), (0, 1)), "ello world\nnext");
    assert_eq!(selected_text(&r, &b, (1, 2), (1, 4)), "rl");
    assert_eq!(selected_text(&r, &b, (0, 5), (1, 0)), "");
    assert_eq!(selected_text(&r, &b, (0, 9), (1, 99)), "world");
}

#[test]
fn collapsed_or_empty_selections_select_nothing() {
    let (r, b) = runs();
    assert_eq!(selected_text(&r, &b, (1, 3), (1, 3)), "");
    assert!(!has_selection(&r, &b, (1, 3), (1, 3)));
    assert!(has_selection(&r, &b, (1, 3), (1, 4)));
    assert_eq!(selected_text(&vec![], &vec![], (0, 0), (5, 5)), "");
    assert!(selection_ranges(&vec![5, 5], (0, 2), (0, 2)).is_empty());
    assert!(selection_ranges(&vec![], (0, 0), (1, 1)).is_empty());
}

#[test]
fn ranges_are_clamped_per_run() {
    assert_eq!(
        selection_ranges(&vec![5, 5, 9, 3], (2, 4), (0, 1)),
        vec![Some((1, 5)), Some((0, 5)), Some((0, 4)), None]
    );
    assert_eq!(
        selection_ranges(&vec![5, 0, 3], (0, 7), (2, 9)),
        vec![None, None, Some((0, 3))]
    );
}
