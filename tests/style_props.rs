use style_tree::{collapse_white_space, ResolvedProperty, ResolvedStyle};

fn base() -> ResolvedStyle {
    ResolvedStyle {
        font_size: 16,
        font_weight: 400,
        letter_spacing: 0,
        brush: 1,
        underline: false,
        strikethrough: false,
    }
}

#[test]
fn apply_sets_one_field() {
    let cases = [
        (ResolvedProperty::FontSize(9), ResolvedStyle { font_size: 9, ..base() }),
        (ResolvedProperty::FontWeight(100), ResolvedStyle { font_weight: 100, ..base() }),
        (ResolvedProperty::LetterSpacing(-3), ResolvedStyle { letter_spacing: -3, ..base() }),
        (ResolvedProperty::Brush(42), ResolvedStyle { brush: 42, ..base() }),
        (ResolvedProperty::Underline(true), ResolvedStyle { underline: true, ..base() }),
        (ResolvedProperty::Strikethrough(true), ResolvedStyle { strikethrough: true, ..base() }),
    ];
    for (prop, expected) in cases {
        let mut s = base();
        s.apply(prop);
        assert_eq!(s, expected);
    }
}

#[test]
fn collapse_white_space_settings() {
    let t = " \t a \n\n b\r ";
    assert_eq!(collapse_white_space(t, false, false), " a b ");
    assert_eq!(collapse_white_space(t, true, false), "a b ");
    assert_eq!(collapse_white_space(t, false, true), " a b");
    assert_eq!(collapse_white_space(t, true, true), "a b");
    assert_eq!(collapse_white_space("", true, true), "");
    assert_eq!(collapse_white_space("   ", false, false), " ");
    assert_eq!(collapse_white_space("   ", true, false), "");
    assert_eq!(collapse_white_space("\u{a0}x\u{a0}", true, true), "\u{a0}x\u{a0}");
}

#[test]
fn collapse_white_space_is_idempotent() {
    for t in ["  a  b  ", "\tx\n\ny\r", "none", "", "  ", "é  ü"] {
        for (s, e) in [(false, false), (true, false), (false, true), (true, true)] {
            let once = collapse_white_space(t, s, e);
            assert_eq!(collapse_white_space(&once, s, e), once);
        }
    }
}
