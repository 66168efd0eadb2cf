use browser::font::SystemFont;

#[test]
fn bytes_that_are_not_a_font_are_refused() {
    assert!(SystemFont::from_bytes(vec![]).is_none());
    assert!(SystemFont::from_bytes(b"wOF2 not an sfnt".to_vec()).is_none());
    assert!(SystemFont::from_bytes(vec![0, 1, 0, 0, 0, 0]).is_none());
}
