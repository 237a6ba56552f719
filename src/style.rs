//! Resolved styles, property deltas and styled runs.
use core::ops::Range;
use vstd::prelude::*;

verus! {

/// How white space in text is treated when it is flattened.
#[derive(Clone, Copy, Debug, PartialEq, Eq)]
pub enum WhiteSpaceCollapse {
    /// Runs of white space become one space; scope edges are trimmed.
    Collapse,
    /// Text is kept exactly as it was pushed.
    Preserve,
}

/// A fully resolved style: every property has a value.
#[derive(Clone, Copy, Debug, PartialEq, Eq)]
pub struct ResolvedStyle {
    pub font_size: u32,
    pub font_weight: u16,
    pub letter_spacing: i32,
    pub brush: u32,
    pub underline: bool,
    pub strikethrough: bool,
}

/// A single property override.
#[derive(Clone, Copy, Debug, PartialEq, Eq)]
pub enum ResolvedProperty {
    FontSize(u32),
    FontWeight(u16),
    LetterSpacing(i32),
    Brush(u32),
    Underline(bool),
    Strikethrough(bool),
}

/// The number of properties a style carries.
pub const STYLE_FIELD_COUNT: u64 = 6;

/// Which property of a style `p` sets, numbered in declaration order.
pub open spec fn field_of(p: ResolvedProperty) -> nat {
    match p {
        ResolvedProperty::FontSize(_) => 0,
        ResolvedProperty::FontWeight(_) => 1,
        ResolvedProperty::LetterSpacing(_) => 2,
        ResolvedProperty::Brush(_) => 3,
        ResolvedProperty::Underline(_) => 4,
        ResolvedProperty::Strikethrough(_) => 5,
    }
}

pub open spec fn flag_value(b: bool) -> int {
    if b {
        1
    } else {
        0
    }
}

/// The value that `p` sets, as an integer.
pub open spec fn value_of(p: ResolvedProperty) -> int {
    match p {
        ResolvedProperty::FontSize(v) => v as int,
        ResolvedProperty::FontWeight(v) => v as int,
        ResolvedProperty::LetterSpacing(v) => v as int,
        ResolvedProperty::Brush(v) => v as int,
        ResolvedProperty::Underline(v) => flag_value(v),
        ResolvedProperty::Strikethrough(v) => flag_value(v),
    }
}

impl ResolvedStyle {
    /// The value of property number `k` of this style, as an integer.
    pub open spec fn field(self, k: nat) -> int {
        if k == 0 {
            self.font_size as int
        } else if k == 1 {
            self.font_weight as int
        } else if k == 2 {
            self.letter_spacing as int
        } else if k == 3 {
            self.brush as int
        } else if k == 4 {
            flag_value(self.underline)
        } else if k == 5 {
            flag_value(self.strikethrough)
        } else {
            0
        }
    }

    /// This style with `p` merged into it.
    pub open spec fn applied(self, p: ResolvedProperty) -> ResolvedStyle {
        match p {
            ResolvedProperty::FontSize(v) => ResolvedStyle { font_size: v, ..self },
            ResolvedProperty::FontWeight(v) => ResolvedStyle { font_weight: v, ..self },
            ResolvedProperty::LetterSpacing(v) => ResolvedStyle { letter_spacing: v, ..self },
            ResolvedProperty::Brush(v) => ResolvedStyle { brush: v, ..self },
            ResolvedProperty::Underline(v) => ResolvedStyle { underline: v, ..self },
            ResolvedProperty::Strikethrough(v) => ResolvedStyle { strikethrough: v, ..self },
        }
    }

    /// This style with each of `ps` merged into it, first to last.
    pub open spec fn applied_all(self, ps: Seq<ResolvedProperty>) -> ResolvedStyle
        decreases ps.len(),
    {
        if ps.len() == 0 {
            self
        } else {
            self.applied_all(ps.drop_last()).applied(ps.last())
        }
    }

    /// Merges one property into this style.
    pub fn apply(&mut self, prop: ResolvedProperty)
        ensures
            *final(self) == old(self).applied(prop),
    {
        match prop {
            ResolvedProperty::FontSize(v) => self.font_size = v,
            ResolvedProperty::FontWeight(v) => self.font_weight = v,
            ResolvedProperty::LetterSpacing(v) => self.letter_spacing = v,
            ResolvedProperty::Brush(v) => self.brush = v,
            ResolvedProperty::Underline(v) => self.underline = v,
            ResolvedProperty::Strikethrough(v) => self.strikethrough = v,
        }
    }
}

/// Two styles that agree on every property are the same style.
pub proof fn lemma_style_fields_determine(a: ResolvedStyle, b: ResolvedStyle)
    requires
        forall|k: nat| k < STYLE_FIELD_COUNT ==> a.field(k) == b.field(k),
    ensures
        a == b,
{
    assert(a.field(0) == b.field(0));
    assert(a.field(1) == b.field(1));
    assert(a.field(2) == b.field(2));
    assert(a.field(3) == b.field(3));
    assert(a.field(4) == b.field(4));
    assert(a.field(5) == b.field(5));
}

proof fn lemma_applied_field(s: ResolvedStyle, p: ResolvedProperty, k: nat)
    ensures
        s.applied(p).field(k) == if field_of(p) == k {
            value_of(p)
        } else {
            s.field(k)
        },
{
}

/// Merging a list of properties into a style: a property that no delta of
/// the list sets keeps the style's value, and one that several deltas set
/// takes the value of the last of them.
pub proof fn lemma_applied_all_fields(s: ResolvedStyle, ps: Seq<ResolvedProperty>, k: nat)
    ensures
        (forall|i: int| 0 <= i < ps.len() ==> field_of(#[trigger] ps[i]) != k) ==> s.applied_all(
            ps,
        ).field(k) == s.field(k),
        forall|i: int|
            0 <= i < ps.len() && field_of(#[trigger] ps[i]) == k && (forall|j: int|
                i < j < ps.len() ==> field_of(ps[j]) != k) ==> s.applied_all(ps).field(k)
                == value_of(ps[i]),
    decreases ps.len(),
{
    if ps.len() > 0 {
        let p = ps.drop_last();
        lemma_applied_all_fields(s, p, k);
        let last = ps.last();
        assert(s.applied_all(ps) == s.applied_all(p).applied(last));
        lemma_applied_field(s.applied_all(p), last, k);
        assert(forall|i: int| 0 <= i < p.len() ==> p[i] == ps[i]);
        if forall|i: int| 0 <= i < ps.len() ==> field_of(#[trigger] ps[i]) != k {
            assert(field_of(ps[ps.len() - 1]) != k);
            assert(forall|i: int| 0 <= i < p.len() ==> field_of(#[trigger] p[i]) != k);
        }
        assert forall|i: int|
            0 <= i < ps.len() && field_of(#[trigger] ps[i]) == k && (forall|j: int|
                i < j < ps.len() ==> field_of(ps[j]) != k) implies s.applied_all(ps).field(k)
            == value_of(ps[i]) by {
            if i < ps.len() - 1 {
                assert(field_of(ps[ps.len() - 1]) != k);
                assert(field_of(p[i]) == k);
            }
        }
    }
}

/// A style that holds over a half-open byte range of the flattened text.
#[derive(Debug, PartialEq, Eq)]
pub struct RangedStyle {
    pub style: ResolvedStyle,
    pub range: Range<usize>,
}

impl Clone for RangedStyle {
    fn clone(&self) -> (r: RangedStyle)
        ensures
            r == *self,
    {
        RangedStyle { style: self.style, range: Range { start: self.range.start, end: self.range.end } }
    }
}

} // verus!
