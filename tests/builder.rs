use style_tree::{RangedStyle, ResolvedProperty, ResolvedStyle, TreeStyleBuilder, WhiteSpaceCollapse};

fn style(font_size: u32) -> ResolvedStyle {
    ResolvedStyle {
        font_size,
        font_weight: 400,
        letter_spacing: 0,
        brush: 0x000000ff,
        underline: false,
        strikethrough: false,
    }
}

fn run(style: ResolvedStyle, start: usize, end: usize) -> RangedStyle {
    RangedStyle { style, range: start..end }
}

fn started(root: ResolvedStyle) -> TreeStyleBuilder {
    let mut b = TreeStyleBuilder::default();
    b.begin(root);
    b
}

fn assert_covers(runs: &[RangedStyle], len: usize) {
    let mut at = 0;
    for r in runs {
        assert_eq!(r.range.start, at);
        assert!(r.range.start < r.range.end);
        at = r.range.end;
    }
    assert_eq!(at, len);
}

#[test]
fn preserve_nested_scope_runs() {
    let (s0, s1) = (style(16), style(24));
    let mut b = started(s0);
    b.push_text("Hello ");
    b.push_style_span(s1);
    b.push_text("world");
    b.pop_style_span();
    b.push_text("!");
    let mut runs = Vec::new();
    let text = b.finish(&mut runs);
    assert_eq!(text, "Hello world!");
    assert_eq!(runs, vec![run(s0, 0, 6), run(s1, 6, 11), run(s0, 11, 12)]);
}

#[test]
fn collapse_trims_and_joins_runs() {
    let s0 = style(16);
    let mut b = started(s0);
    b.set_white_space_mode(WhiteSpaceCollapse::Collapse);
    b.push_text("   Hi   there  ");
    let mut runs = Vec::new();
    let text = b.finish(&mut runs);
    assert_eq!(text, "Hi there");
    assert_eq!(runs, vec![run(s0, 0, 8)]);
}

#[test]
fn begin_resets_white_space_mode() {
    let s0 = style(16);
    let mut b = TreeStyleBuilder::default();
    b.set_white_space_mode(WhiteSpaceCollapse::Collapse);
    b.begin(s0);
    b.push_text("   Hi   there  ");
    let mut runs = Vec::new();
    let text = b.finish(&mut runs);
    assert_eq!(text, "   Hi   there  ");
    assert_eq!(runs, vec![run(s0, 0, 15)]);
}

#[test]
fn empty_scope_emits_no_run() {
    let mut b = started(style(16));
    b.push_style_span(style(24));
    b.pop_style_span();
    let mut runs = vec![run(style(8), 0, 3)];
    let text = b.finish(&mut runs);
    assert_eq!(text, "");
    assert!(runs.is_empty());
}

#[test]
fn modification_span_flush_clears_scope_start() {
    // The flush at the modification boundary clears the scope-start flag,
    // so the leading run of spaces is collapsed rather than trimmed.
    let s0 = style(16);
    let mut b = started(s0);
    b.set_white_space_mode(WhiteSpaceCollapse::Collapse);
    b.push_style_modification_span(&[ResolvedProperty::FontWeight(700)]);
    b.push_text("  x");
    let mut runs = Vec::new();
    let text = b.finish(&mut runs);
    let bold = ResolvedStyle { font_weight: 700, ..s0 };
    assert_eq!(text, " x");
    assert_eq!(runs, vec![run(bold, 0, 2)]);
}

#[test]
fn modification_span_does_not_mark_scope_start() {
    let s0 = style(16);
    let mut b = started(s0);
    b.set_white_space_mode(WhiteSpaceCollapse::Collapse);
    b.push_text("a");
    b.push_style_modification_span(&[ResolvedProperty::Underline(true)]);
    b.push_text("  x");
    let mut runs = Vec::new();
    let text = b.finish(&mut runs);
    let underlined = ResolvedStyle { underline: true, ..s0 };
    assert_eq!(text, "a x");
    assert_eq!(runs, vec![run(s0, 0, 1), run(underlined, 1, 3)]);
}

#[test]
fn style_span_marks_scope_start() {
    let (s0, s1) = (style(16), style(24));
    let mut b = started(s0);
    b.set_white_space_mode(WhiteSpaceCollapse::Collapse);
    b.push_text("a");
    b.push_style_span(s1);
    b.push_text("  x");
    let mut runs = Vec::new();
    let text = b.finish(&mut runs);
    assert_eq!(text, "ax");
    assert_eq!(runs, vec![run(s0, 0, 1), run(s1, 1, 2)]);
}

#[test]
fn white_space_only_scope_carries_into_parent() {
    let (s0, s1) = (style(16), style(24));
    let mut b = started(s0);
    b.set_white_space_mode(WhiteSpaceCollapse::Collapse);
    b.push_text("a");
    b.push_style_span(s1);
    b.push_text(" \t ");
    b.pop_style_span();
    b.push_text("b");
    let mut runs = Vec::new();
    let text = b.finish(&mut runs);
    assert_eq!(text, "a b");
    assert_eq!(runs, vec![run(s0, 0, 1), run(s0, 1, 3)]);
}

#[test]
fn preserve_output_is_pushed_text_in_order() {
    let chunks = ["one ", "", "two\t", "  three", "\n", "four"];
    let mut b = started(style(10));
    for (i, c) in chunks.iter().enumerate() {
        if i % 2 == 0 {
            b.push_style_span(style(11 + i as u32));
        }
        b.push_text(c);
        if i % 3 == 2 {
            b.pop_style_span();
        }
    }
    let mut runs = Vec::new();
    let text = b.finish(&mut runs);
    assert_eq!(text, chunks.concat());
    assert_covers(&runs, text.len());
}

#[test]
fn runs_cover_output_in_collapse_mode() {
    let mut b = started(style(10));
    b.set_white_space_mode(WhiteSpaceCollapse::Collapse);
    b.push_text("  lead ");
    b.push_style_span(style(12));
    b.push_text("  inner   text ");
    b.push_style_span(style(14));
    b.pop_style_span();
    b.push_style_modification_span(&[ResolvedProperty::Brush(7)]);
    b.push_text("\n\nmore");
    let mut runs = Vec::new();
    let text = b.finish(&mut runs);
    assert_eq!(text, "lead inner text  more");
    assert_covers(&runs, text.len());
    assert_eq!(runs.len(), 3);
}

#[test]
fn ranges_count_bytes() {
    let (s0, s1) = (style(16), style(24));
    let mut b = started(s0);
    b.push_text("héllo ");
    assert_eq!(b.current_text_len(), 0);
    b.push_style_span(s1);
    assert_eq!(b.current_text_len(), 7);
    b.push_text("wörld");
    b.pop_style_span();
    assert_eq!(b.current_text_len(), 13);
    let mut runs = Vec::new();
    let text = b.finish(&mut runs);
    assert_eq!(text, "héllo wörld");
    assert_eq!(runs, vec![run(s0, 0, 7), run(s1, 7, 13)]);
    assert_eq!(b.current_text_len(), 0);
}

#[test]
fn modification_later_delta_wins() {
    let s0 = style(16);
    let mut b = started(s0);
    b.push_style_modification_span(&[
        ResolvedProperty::FontSize(20),
        ResolvedProperty::Strikethrough(true),
        ResolvedProperty::FontSize(30),
    ]);
    b.push_text("x");
    let mut runs = Vec::new();
    let text = b.finish(&mut runs);
    let expected = ResolvedStyle { font_size: 30, strikethrough: true, ..s0 };
    assert_eq!(text, "x");
    assert_eq!(runs, vec![run(expected, 0, 1)]);
}

#[test]
fn modification_builds_on_current_scope() {
    let s0 = style(16);
    let s1 = ResolvedStyle { brush: 0xff0000ff, letter_spacing: -2, ..style(24) };
    let mut b = started(s0);
    b.push_style_span(s1);
    b.push_style_modification_span(&[ResolvedProperty::FontWeight(900)]);
    b.push_text("y");
    b.pop_style_span();
    b.push_text("z");
    let mut runs = Vec::new();
    let text = b.finish(&mut runs);
    assert_eq!(text, "yz");
    assert_eq!(
        runs,
        vec![run(ResolvedStyle { font_weight: 900, ..s1 }, 0, 1), run(s1, 1, 2)]
    );
}

#[test]
fn finish_closes_open_scopes() {
    let (s0, s1, s2) = (style(16), style(24), style(32));
    let mut b = started(s0);
    b.push_text("a");
    b.push_style_span(s1);
    b.push_text("b");
    b.push_style_span(s2);
    b.push_text("c");
    let mut runs = Vec::new();
    let text = b.finish(&mut runs);
    assert_eq!(text, "abc");
    assert_eq!(runs, vec![run(s0, 0, 1), run(s1, 1, 2), run(s2, 2, 3)]);
}

#[test]
fn builder_is_reusable_after_finish() {
    let (s0, s1) = (style(16), style(24));
    let mut b = started(s0);
    b.push_text("first");
    let mut runs = Vec::new();
    assert_eq!(b.finish(&mut runs), "first");
    b.begin(s1);
    b.push_text("second");
    let text = b.finish(&mut runs);
    assert_eq!(text, "second");
    assert_eq!(runs, vec![run(s1, 0, 6)]);
}

#[test]
fn explicit_flush_emits_run() {
    let s0 = style(16);
    let mut b = started(s0);
    b.push_text("ab");
    b.push_uncomitted_text(false);
    assert_eq!(b.current_text_len(), 2);
    b.push_text("cd");
    let mut runs = Vec::new();
    let text = b.finish(&mut runs);
    assert_eq!(text, "abcd");
    assert_eq!(runs, vec![run(s0, 0, 2), run(s0, 2, 4)]);
}
