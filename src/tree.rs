//! Hierarchical tree based style application.
use core::ops::Range;
use vstd::prelude::*;
use vstd::utf8::encode_utf8;

use crate::style::{RangedStyle, ResolvedProperty, ResolvedStyle, WhiteSpaceCollapse};
use crate::whitespace::{collapse_white_space, collapsed, lemma_collapsed_end_silent};

verus! {

/// The length in bytes of the UTF-8 encoding of `s`.
pub open spec fn byte_len(s: Seq<char>) -> nat {
    encode_utf8(s).len()
}

/// Holds when `runs` lie in order, each non-empty, each starting where the
/// one before it ends, together covering exactly the bytes `[0, len)`.
pub open spec fn covers(runs: Seq<RangedStyle>, len: int) -> bool {
    &&& runs.len() == 0 ==> len == 0
    &&& runs.len() > 0 ==> runs[0].range.start == 0 && runs.last().range.end == len
    &&& forall|i: int| 0 <= i < runs.len() ==> (#[trigger] runs[i]).range.start < runs[i].range.end
    &&& forall|i: int|
        0 <= i < runs.len() - 1 ==> (#[trigger] runs[i]).range.end == runs[i + 1].range.start
}

proof fn lemma_covers_ordered(runs: Seq<RangedStyle>, len: int, i: int, j: int)
    requires
        covers(runs, len),
        0 <= i < j < runs.len(),
    ensures
        runs[i].range.end <= runs[j].range.start,
    decreases j - i,
{
    if j > i + 1 {
        lemma_covers_ordered(runs, len, i, j - 1);
        assert(runs[j - 1].range.end == runs[j].range.start);
        assert(runs[j - 1].range.start < runs[j - 1].range.end);
    } else {
        assert(runs[i].range.end == runs[i + 1].range.start);
    }
}

proof fn lemma_covers_prefix(runs: Seq<RangedStyle>, len: int)
    requires
        covers(runs, len),
        runs.len() > 0,
    ensures
        covers(runs.drop_last(), runs.last().range.start as int),
{
    let p = runs.drop_last();
    assert forall|i: int| 0 <= i < p.len() implies (#[trigger] p[i]).range.start < p[i].range.end by {
        assert(p[i] == runs[i]);
    }
    assert forall|i: int| 0 <= i < p.len() - 1 implies (#[trigger] p[i]).range.end
        == p[i + 1].range.start by {
        assert(p[i] == runs[i] && p[i + 1] == runs[i + 1]);
    }
    if p.len() > 0 {
        assert(runs[p.len() - 1].range.end == runs[p.len() as int].range.start);
    }
}

/// Whether byte offset `x` lies in one of `runs`.
pub open spec fn in_some_run(runs: Seq<RangedStyle>, x: int) -> bool {
    exists|i: int| 0 <= i < runs.len() && (#[trigger] runs[i]).range.start <= x < runs[i].range.end
}

/// Runs that cover `[0, len)` partition it: they are sorted and pairwise
/// disjoint, each lies inside `[0, len)`, and every byte offset below `len`
/// lies in one of them.
pub proof fn lemma_covers_partition(runs: Seq<RangedStyle>, len: int)
    requires
        covers(runs, len),
    ensures
        forall|i: int, j: int|
            0 <= i < j < runs.len() ==> (#[trigger] runs[i]).range.end <= (#[trigger] runs[j]).range.start,
        forall|i: int|
            0 <= i < runs.len() ==> 0 <= (#[trigger] runs[i]).range.start && runs[i].range.end <= len,
        forall|x: int| 0 <= x < len ==> #[trigger] in_some_run(runs, x),
    decreases runs.len(),
{
    assert forall|i: int, j: int| 0 <= i < j < runs.len() implies (#[trigger] runs[i]).range.end
        <= (#[trigger] runs[j]).range.start by {
        lemma_covers_ordered(runs, len, i, j);
    }
    if runs.len() > 0 {
        let n = runs.len() - 1;
        let p = runs.drop_last();
        lemma_covers_prefix(runs, len);
        lemma_covers_partition(p, runs[n].range.start as int);
        assert forall|i: int| 0 <= i < runs.len() implies 0 <= (#[trigger] runs[i]).range.start
            && runs[i].range.end <= len by {
            if i < n {
                assert(runs[i] == p[i]);
                assert(runs[n].range.start < runs[n].range.end);
            }
        }
        assert forall|x: int| 0 <= x < len implies #[trigger] in_some_run(runs, x) by {
            if x < runs[n].range.start {
                assert(in_some_run(p, x));
                let i = choose|i: int|
                    0 <= i < p.len() && (#[trigger] p[i]).range.start <= x < p[i].range.end;
                assert(runs[i] == p[i]);
            } else {
                assert(runs[n].range.start <= x < runs[n].range.end);
            }
        }
    }
}

/// The text that a flush emits from `pending` in white-space mode `mode`.
pub open spec fn flush_text(
    mode: WhiteSpaceCollapse,
    pending: Seq<char>,
    at_start: bool,
    at_end: bool,
) -> Seq<char> {
    match mode {
        WhiteSpaceCollapse::Preserve => pending,
        WhiteSpaceCollapse::Collapse => collapsed(pending, at_start, at_end),
    }
}

proof fn lemma_encode_utf8_concat(a: Seq<char>, b: Seq<char>)
    ensures
        encode_utf8(a + b) == encode_utf8(a) + encode_utf8(b),
    decreases a.len(),
{
    if a.len() == 0 {
        assert(a + b =~= b);
        assert(encode_utf8(a) + encode_utf8(b) =~= encode_utf8(b));
    } else {
        assert((a + b)[0] == a[0]);
        assert((a + b).drop_first() =~= a.drop_first() + b);
        lemma_encode_utf8_concat(a.drop_first(), b);
        assert(encode_utf8(a + b) =~= encode_utf8(a) + encode_utf8(b));
    }
}

proof fn lemma_byte_len_positive(s: Seq<char>)
    requires
        s.len() > 0,
    ensures
        byte_len(s) > 0,
{
    assert(encode_utf8(s) == vstd::utf8::encode_scalar(s[0] as u32) + encode_utf8(s.drop_first()));
}

/// The length of `s` in bytes.
///
/// Relies on `String::len`, which returns the length of the string's UTF-8
/// encoding.
#[verifier::external_body]
fn byte_length(s: &String) -> (r: usize)
    ensures
        r == byte_len(s@),
{
    s.len()
}

struct StyleSpan {
    style: ResolvedStyle,
}

struct TextSpan {
    text_range: Range<usize>,
}

enum StyleTreeNodeData {
    Span(StyleSpan),
    Text(TextSpan),
}

impl StyleTreeNodeData {
    fn as_span(&self) -> (r: Option<&StyleSpan>)
        ensures
            match self {
                StyleTreeNodeData::Span(span) => r == Some(span),
                StyleTreeNodeData::Text(_) => r is None,
            },
    {
        match self {
            StyleTreeNodeData::Span(span) => Some(span),
            StyleTreeNodeData::Text(_) => None,
        }
    }
}

struct StyleTreeNode {
    parent: Option<usize>,
    data: StyleTreeNodeData,
}

impl StyleTreeNode {
    fn span(parent: Option<usize>, style: ResolvedStyle) -> (r: StyleTreeNode)
        ensures
            r.parent == parent,
            r.data == StyleTreeNodeData::Span(StyleSpan { style }),
    {
        StyleTreeNode { parent, data: StyleTreeNodeData::Span(StyleSpan { style }) }
    }

    /// A marker for a range of text; reserved for content that is not text,
    /// such as inline boxes.
    #[allow(dead_code)]
    fn text(parent: usize, text_range: Range<usize>) -> (r: StyleTreeNode)
        ensures
            r.parent == Some(parent),
            r.data == StyleTreeNodeData::Text(TextSpan { text_range }),
    {
        StyleTreeNode { parent: Some(parent), data: StyleTreeNodeData::Text(TextSpan { text_range }) }
    }
}

spec fn node_style(n: StyleTreeNode) -> ResolvedStyle {
    match n.data {
        StyleTreeNodeData::Span(span) => span.style,
        StyleTreeNodeData::Text(_) => arbitrary(),
    }
}

/// The styles of the scopes from the root down to node `i`.
spec fn scope_chain(tree: Seq<StyleTreeNode>, i: int) -> Seq<ResolvedStyle>
    decreases i,
{
    if 0 <= i < tree.len() {
        match tree[i].parent {
            Some(p) => if 0 <= p < i {
                scope_chain(tree, p as int).push(node_style(tree[i]))
            } else {
                seq![node_style(tree[i])]
            },
            None => seq![node_style(tree[i])],
        }
    } else {
        Seq::empty()
    }
}

proof fn lemma_scope_chain_stable(t1: Seq<StyleTreeNode>, t2: Seq<StyleTreeNode>, i: int)
    requires
        0 <= i < t1.len() <= t2.len(),
        forall|j: int| 0 <= j < t1.len() ==> t2[j] == t1[j],
    ensures
        scope_chain(t2, i) == scope_chain(t1, i),
    decreases i,
{
    match t1[i].parent {
        Some(p) => if 0 <= p < i {
            lemma_scope_chain_stable(t1, t2, p as int);
        },
        None => {},
    }
}

proof fn lemma_scope_chain_len(t: Seq<StyleTreeNode>, i: int)
    requires
        0 <= i < t.len(),
    ensures
        scope_chain(t, i).len() >= 1,
        scope_chain(t, i).last() == node_style(t[i]),
        scope_chain(t, i).len() == 1 <==> !(t[i].parent matches Some(p) && (0 <= p < i)),
    decreases i,
{
    match t[i].parent {
        Some(p) => if 0 <= p < i {
            lemma_scope_chain_len(t, p as int);
        },
        None => {},
    }
}

/// Builder for constructing a tree of styles
pub struct TreeStyleBuilder {
    tree: Vec<StyleTreeNode>,
    flatted_styles: Vec<RangedStyle>,
    white_space_collapse: WhiteSpaceCollapse,
    text: String,
    uncomitted_text: String,
    current_span: usize,
    is_span_first: bool,
    /// All text pushed since the last `begin` or `finish`.
    pushed: Ghost<Seq<char>>,
    /// Whether the white-space mode has stayed `Preserve` since then.
    preserving: Ghost<bool>,
}

impl TreeStyleBuilder {
    /// The flattened text committed so far.
    pub closed spec fn output(&self) -> Seq<char> {
        self.text@
    }

    /// Text pushed since the last flush and not yet committed.
    pub closed spec fn pending(&self) -> Seq<char> {
        self.uncomitted_text@
    }

    /// The styled runs emitted so far.
    pub closed spec fn runs(&self) -> Seq<RangedStyle> {
        self.flatted_styles@
    }

    pub closed spec fn mode(&self) -> WhiteSpaceCollapse {
        self.white_space_collapse
    }

    /// Whether no flush has happened since the current scope was opened.
    pub closed spec fn at_scope_start(&self) -> bool {
        self.is_span_first
    }

    /// The resolved styles of the open scopes, root first.
    pub closed spec fn scopes(&self) -> Seq<ResolvedStyle> {
        scope_chain(self.tree@, self.current_span as int)
    }

    /// All text pushed since the last `begin` or `finish`.
    pub closed spec fn pushed(&self) -> Seq<char> {
        self.pushed@
    }

    /// Whether the white-space mode has stayed `Preserve` since the last
    /// `begin` or `finish`.
    pub closed spec fn preserving(&self) -> bool {
        self.preserving@
    }

    /// The resolved style of the innermost open scope.
    pub open spec fn current(&self) -> ResolvedStyle {
        self.scopes().last()
    }

    /// The text that a flush would emit now.
    pub open spec fn chunk(&self, at_end: bool) -> Seq<char> {
        flush_text(self.mode(), self.pending(), self.at_scope_start(), at_end)
    }

    /// The committed text after a flush.
    pub open spec fn output_after_flush(&self, at_end: bool) -> Seq<char> {
        self.output() + self.chunk(at_end)
    }

    /// The runs after a flush: one more, in the current style, when the
    /// flush emits any text.
    pub open spec fn runs_after_flush(&self, at_end: bool) -> Seq<RangedStyle> {
        let c = self.chunk(at_end);
        if c.len() == 0 {
            self.runs()
        } else {
            let start = byte_len(self.output());
            self.runs().push(
                RangedStyle {
                    style: self.current(),
                    range: Range { start: start as usize, end: (start + byte_len(c)) as usize },
                },
            )
        }
    }

    /// The pending text after a flush: emptied when the flush emits text.
    pub open spec fn pending_after_flush(&self, at_end: bool) -> Seq<char> {
        if self.chunk(at_end).len() == 0 {
            self.pending()
        } else {
            Seq::empty()
        }
    }

    /// The builder's invariant, established by `begin`.
    pub closed spec fn wf(&self) -> bool {
        let t = self.tree@;
        &&& t.len() >= 1
        &&& self.current_span < t.len()
        &&& t[0].parent is None
        &&& forall|i: int|
            0 < i < t.len() ==> ((#[trigger] t[i].parent) matches Some(p) && p < i)
        &&& forall|i: int| 0 <= i < t.len() ==> (#[trigger] t[i].data) is Span
        &&& covers(self.flatted_styles@, byte_len(self.text@) as int)
        &&& self.preserving@ ==> self.white_space_collapse == WhiteSpaceCollapse::Preserve
        &&& self.preserving@ ==> self.text@ + self.uncomitted_text@ == self.pushed@
    }

    fn current_style(&self) -> (r: ResolvedStyle)
        requires
            self.wf(),
        ensures
            r == self.current(),
    {
        proof {
            lemma_scope_chain_len(self.tree@, self.current_span as int);
        }
        self.tree[self.current_span].data.as_span().unwrap().style
    }
}

impl Default for TreeStyleBuilder {
    fn default() -> (r: TreeStyleBuilder)
        ensures
            r.scopes() == Seq::<ResolvedStyle>::empty(),
            r.output() == Seq::<char>::empty(),
            r.pending() == Seq::<char>::empty(),
            r.runs() == Seq::<RangedStyle>::empty(),
            r.mode() == WhiteSpaceCollapse::Preserve,
            !r.at_scope_start(),
    {
        TreeStyleBuilder {
            tree: Vec::new(),
            flatted_styles: Vec::new(),
            white_space_collapse: WhiteSpaceCollapse::Preserve,
            text: String::new(),
            uncomitted_text: String::new(),
            current_span: usize::MAX,
            is_span_first: false,
            pushed: Ghost(Seq::empty()),
            preserving: Ghost(true),
        }
    }
}

impl TreeStyleBuilder {
    /// Prepares the builder for a new pass whose root scope has `root_style`.
    /// The white-space mode goes back to `Preserve`.
    pub fn begin(&mut self, root_style: ResolvedStyle)
        ensures
            final(self).wf(),
            final(self).scopes() == seq![root_style],
            final(self).output() == Seq::<char>::empty(),
            final(self).pending() == Seq::<char>::empty(),
            final(self).runs() == Seq::<RangedStyle>::empty(),
            final(self).mode() == WhiteSpaceCollapse::Preserve,
            final(self).at_scope_start(),
            final(self).pushed() == Seq::<char>::empty(),
            final(self).preserving(),
    {
        self.tree.clear();
        self.flatted_styles.clear();
        self.white_space_collapse = WhiteSpaceCollapse::Preserve;
        self.text = String::new();
        self.uncomitted_text = String::new();

        self.tree.push(StyleTreeNode::span(None, root_style));
        self.current_span = 0;
        self.is_span_first = true;
        self.pushed = Ghost(Seq::empty());
        self.preserving = Ghost(true);
        proof {
            assert(self.text@ + self.uncomitted_text@ =~= Seq::<char>::empty());
            assert(encode_utf8(self.text@) =~= Seq::<u8>::empty());
        }
    }

    /// Sets how white space is treated by every later flush of this pass.
    pub fn set_white_space_mode(&mut self, white_space_collapse: WhiteSpaceCollapse)
        ensures
            old(self).wf() ==> final(self).wf(),
            final(self).mode() == white_space_collapse,
            final(self).preserving() == (old(self).preserving() && white_space_collapse
                == WhiteSpaceCollapse::Preserve),
            final(self).scopes() == old(self).scopes(),
            final(self).output() == old(self).output(),
            final(self).pending() == old(self).pending(),
            final(self).runs() == old(self).runs(),
            final(self).at_scope_start() == old(self).at_scope_start(),
            final(self).pushed() == old(self).pushed(),
    {
        self.white_space_collapse = white_space_collapse;
        if let WhiteSpaceCollapse::Collapse = white_space_collapse {
            self.preserving = Ghost(false);
        }
    }

    /// Flushes the pending text into the current scope: the text is trimmed
    /// and collapsed as the white-space mode asks (trimmed at the end when
    /// `is_span_last`), and, when anything is left, committed under a new
    /// run in the current style.
    pub fn push_uncomitted_text(&mut self, is_span_last: bool)
        requires
            old(self).wf(),
        ensures
            final(self).wf(),
            final(self).output() == old(self).output_after_flush(is_span_last),
            final(self).runs() == old(self).runs_after_flush(is_span_last),
            final(self).pending() == old(self).pending_after_flush(is_span_last),
            !final(self).at_scope_start(),
            final(self).scopes() == old(self).scopes(),
            final(self).mode() == old(self).mode(),
            final(self).pushed() == old(self).pushed(),
            final(self).preserving() == old(self).preserving(),
    {
        let span_text: String = match self.white_space_collapse {
            WhiteSpaceCollapse::Preserve => self.uncomitted_text.clone(),
            WhiteSpaceCollapse::Collapse => collapse_white_space(
                self.uncomitted_text.as_str(),
                self.is_span_first,
                is_span_last,
            ),
        };
        // Nothing is emitted for an empty chunk, as for an inline box.
        if span_text.as_str().is_empty() {
            self.is_span_first = false;
            proof {
                assert(self.text@ =~= old(self).output_after_flush(is_span_last));
            }
            return;
        }
        let ghost old_text = self.text@;
        let start = byte_length(&self.text);
        let style = self.current_style();
        self.text.append(span_text.as_str());
        let end = byte_length(&self.text);
        proof {
            lemma_encode_utf8_concat(old_text, span_text@);
            lemma_byte_len_positive(span_text@);
        }
        self.flatted_styles.push(RangedStyle { style, range: Range { start, end } });
        self.uncomitted_text = String::new();
        self.is_span_first = false;
        proof {
            let runs = self.flatted_styles@;
            assert(runs == old(self).runs_after_flush(is_span_last));
            assert(forall|i: int| 0 <= i < runs.len() - 1 ==> runs[i] == old(self).flatted_styles@[i]);
            assert(covers(runs, byte_len(self.text@) as int));
            if self.preserving@ {
                assert(self.text@ + self.uncomitted_text@ =~= old_text + old(self).uncomitted_text@);
            }
        }
    }

    /// The length in bytes of the text committed so far.
    pub fn current_text_len(&self) -> (r: usize)
        ensures
            r == byte_len(self.output()),
    {
        byte_length(&self.text)
    }

    /// Appends text to the pending text of the current scope.
    pub fn push_text(&mut self, text: &str)
        ensures
            old(self).wf() ==> final(self).wf(),
            final(self).pending() == old(self).pending() + text@,
            final(self).pushed() == old(self).pushed() + text@,
            final(self).scopes() == old(self).scopes(),
            final(self).output() == old(self).output(),
            final(self).runs() == old(self).runs(),
            final(self).mode() == old(self).mode(),
            final(self).at_scope_start() == old(self).at_scope_start(),
            final(self).preserving() == old(self).preserving(),
    {
        if !text.is_empty() {
            self.uncomitted_text.append(text);
        }
        self.pushed = Ghost(self.pushed@ + text@);
        proof {
            assert(self.uncomitted_text@ =~= old(self).uncomitted_text@ + text@);
            assert(self.text@ + self.uncomitted_text@ =~= (old(self).text@
                + old(self).uncomitted_text@) + text@);
        }
    }
}

impl TreeStyleBuilder {
    /// Opens a child scope of the current scope with `style` and makes it
    /// current.
    fn open_scope(&mut self, style: ResolvedStyle)
        requires
            old(self).wf(),
        ensures
            final(self).wf(),
            final(self).scopes() == old(self).scopes().push(style),
            final(self).output() == old(self).output(),
            final(self).runs() == old(self).runs(),
            final(self).pending() == old(self).pending(),
            final(self).at_scope_start() == old(self).at_scope_start(),
            final(self).mode() == old(self).mode(),
            final(self).pushed() == old(self).pushed(),
            final(self).preserving() == old(self).preserving(),
    {
        let ghost t1 = self.tree@;
        self.tree.push(StyleTreeNode::span(Some(self.current_span), style));
        self.current_span = self.tree.len() - 1;
        proof {
            let t2 = self.tree@;
            lemma_scope_chain_stable(t1, t2, old(self).current_span as int);
            assert(t2[self.current_span as int].parent == Some(old(self).current_span));
            assert(forall|i: int| 0 <= i < t1.len() ==> t2[i] == t1[i]);
        }
    }

    /// Flushes the pending text into the current scope, then opens a child
    /// scope with `style`. Text pushed next starts a scope for white-space
    /// purposes.
    pub fn push_style_span(&mut self, style: ResolvedStyle)
        requires
            old(self).wf(),
        ensures
            final(self).wf(),
            final(self).output() == old(self).output_after_flush(false),
            final(self).runs() == old(self).runs_after_flush(false),
            final(self).pending() == old(self).pending_after_flush(false),
            final(self).scopes() == old(self).scopes().push(style),
            final(self).at_scope_start(),
            final(self).mode() == old(self).mode(),
            final(self).pushed() == old(self).pushed(),
            final(self).preserving() == old(self).preserving(),
    {
        self.push_uncomitted_text(false);
        self.open_scope(style);
        self.is_span_first = true;
    }

    /// Opens a child scope whose style is the current style with
    /// `properties` merged into it in order, after flushing the pending text
    /// into the current scope. Unlike `push_style_span`, this does not mark
    /// the start of a scope for white-space purposes.
    pub fn push_style_modification_span(&mut self, properties: &[ResolvedProperty])
        requires
            old(self).wf(),
        ensures
            final(self).wf(),
            final(self).output() == old(self).output_after_flush(false),
            final(self).runs() == old(self).runs_after_flush(false),
            final(self).pending() == old(self).pending_after_flush(false),
            final(self).scopes() == old(self).scopes().push(
                old(self).current().applied_all(properties@),
            ),
            !final(self).at_scope_start(),
            final(self).mode() == old(self).mode(),
            final(self).pushed() == old(self).pushed(),
            final(self).preserving() == old(self).preserving(),
    {
        let mut new_style = self.current_style();
        let mut i: usize = 0;
        while i < properties.len()
            invariant
                i <= properties@.len(),
                new_style == old(self).current().applied_all(properties@.subrange(0, i as int)),
            decreases properties@.len() - i,
        {
            proof {
                let ps = properties@.subrange(0, i + 1);
                assert(ps.drop_last() =~= properties@.subrange(0, i as int));
            }
            new_style.apply(properties[i]);
            i = i + 1;
        }
        proof {
            assert(properties@.subrange(0, i as int) =~= properties@);
        }

        self.push_uncomitted_text(false);
        self.open_scope(new_style);
    }

    /// Flushes the pending text as the end of the current scope, then closes
    /// the scope. The root scope cannot be closed.
    pub fn pop_style_span(&mut self)
        requires
            old(self).wf(),
            old(self).scopes().len() > 1,
        ensures
            final(self).wf(),
            final(self).output() == old(self).output_after_flush(true),
            final(self).runs() == old(self).runs_after_flush(true),
            final(self).pending() == old(self).pending_after_flush(true),
            final(self).scopes() == old(self).scopes().drop_last(),
            !final(self).at_scope_start(),
            final(self).mode() == old(self).mode(),
            final(self).pushed() == old(self).pushed(),
            final(self).preserving() == old(self).preserving(),
    {
        self.push_uncomitted_text(true);
        let ghost t = self.tree@;
        let ghost cur = self.current_span as int;
        proof {
            lemma_scope_chain_len(t, cur);
        }
        self.current_span = self.tree[self.current_span].parent.expect("Popped root style");
        proof {
            assert(scope_chain(t, cur) == scope_chain(t, self.current_span as int).push(
                node_style(t[cur]),
            ));
            assert(old(self).scopes().drop_last() =~= self.scopes());
        }
    }
}

impl TreeStyleBuilder {
    /// After a flush at the end of a scope, a second such flush emits
    /// nothing.
    proof fn lemma_end_flush_silent(before: TreeStyleBuilder, after: TreeStyleBuilder)
        requires
            after.pending() == before.pending_after_flush(true),
            !after.at_scope_start(),
            after.mode() == before.mode(),
        ensures
            after.chunk(true).len() == 0,
    {
        let c = before.chunk(true);
        if before.mode() == WhiteSpaceCollapse::Collapse {
            if c.len() == 0 {
                lemma_collapsed_end_silent(before.pending(), before.at_scope_start());
            } else {
                lemma_collapsed_end_silent(after.pending(), false);
            }
        }
    }

    /// Closes every open scope but the root, flushing the pending text as
    /// the end of a scope, and hands out the result: the flattened text is
    /// returned and `styles` is replaced by the runs, which cover it. The
    /// builder is left with no committed text and no runs.
    pub fn finish(&mut self, styles: &mut Vec<RangedStyle>) -> (r: String)
        requires
            old(self).wf(),
        ensures
            r@ == old(self).output_after_flush(true),
            final(styles)@ == old(self).runs_after_flush(true),
            covers(final(styles)@, byte_len(r@) as int),
            old(self).preserving() ==> r@ == old(self).pushed(),
            final(self).wf(),
            final(self).scopes() == seq![old(self).scopes()[0]],
            final(self).output() == Seq::<char>::empty(),
            final(self).runs() == Seq::<RangedStyle>::empty(),
            final(self).pending() == old(self).pending_after_flush(true),
            final(self).pushed() == final(self).pending(),
            !final(self).at_scope_start(),
            final(self).mode() == old(self).mode(),
            final(self).preserving() == old(self).preserving(),
    {
        let ghost start = *self;
        let ghost mut popped = false;
        proof {
            lemma_scope_chain_len(self.tree@, self.current_span as int);
        }
        while self.tree[self.current_span].parent.is_some()
            invariant
                self.wf(),
                self.mode() == start.mode(),
                self.pushed() == start.pushed(),
                self.preserving() == start.preserving(),
                1 <= self.scopes().len() <= start.scopes().len(),
                self.scopes() == start.scopes().subrange(0, self.scopes().len() as int),
                !popped ==> *self == start,
                popped ==> {
                    &&& self.output() == start.output_after_flush(true)
                    &&& self.runs() == start.runs_after_flush(true)
                    &&& self.pending() == start.pending_after_flush(true)
                    &&& self.chunk(true).len() == 0
                    &&& !self.at_scope_start()
                },
            decreases self.scopes().len(),
        {
            let ghost before = *self;
            proof {
                lemma_scope_chain_len(self.tree@, self.current_span as int);
            }
            self.pop_style_span();
            proof {
                Self::lemma_end_flush_silent(before, *self);
                assert(self.scopes() =~= start.scopes().subrange(0, self.scopes().len() as int));
                if popped {
                    assert(before.chunk(true).len() == 0);
                    assert(self.output() =~= before.output());
                }
                popped = true;
            }
        }
        proof {
            lemma_scope_chain_len(self.tree@, self.current_span as int);
        }
        let ghost before = *self;
        self.push_uncomitted_text(true);
        proof {
            if popped {
                assert(self.output() =~= before.output());
            }
        }

        let mut text = String::new();
        core::mem::swap(&mut text, &mut self.text);
        styles.clear();
        core::mem::swap(styles, &mut self.flatted_styles);
        self.pushed = Ghost(self.uncomitted_text@);
        proof {
            assert(self.text@ + self.uncomitted_text@ =~= self.uncomitted_text@);
            assert(encode_utf8(self.text@) =~= Seq::<u8>::empty());
            assert(self.scopes() =~= seq![start.scopes()[0]]);
            if start.preserving() {
                assert(text@ =~= start.pushed());
                assert(self.uncomitted_text@ =~= Seq::<char>::empty());
            }
        }
        text
    }
}

} // verus!
