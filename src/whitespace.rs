//! Inline white-space collapsing over ASCII white space.
use vstd::prelude::*;

verus! {

/// The characters that `char::is_ascii_whitespace` accepts.
pub open spec fn is_ascii_ws(c: char) -> bool {
    c == ' ' || c == '\t' || c == '\n' || c == '\x0C' || c == '\r'
}

/// `s` without its leading ASCII white space.
pub open spec fn trim_start(s: Seq<char>) -> Seq<char>
    decreases s.len(),
{
    if s.len() > 0 && is_ascii_ws(s[0]) {
        trim_start(s.drop_first())
    } else {
        s
    }
}

/// `s` without its trailing ASCII white space.
pub open spec fn trim_end(s: Seq<char>) -> Seq<char>
    decreases s.len(),
{
    if s.len() > 0 && is_ascii_ws(s.last()) {
        trim_end(s.drop_last())
    } else {
        s
    }
}

/// `s` with each maximal run of ASCII white space replaced by one space,
/// read from left to right.
pub open spec fn collapse_runs(s: Seq<char>) -> Seq<char>
    decreases s.len(),
{
    if s.len() == 0 {
        s
    } else {
        let p = s.drop_last();
        if !is_ascii_ws(s.last()) {
            collapse_runs(p).push(s.last())
        } else if p.len() > 0 && is_ascii_ws(p.last()) {
            collapse_runs(p)
        } else {
            collapse_runs(p).push(' ')
        }
    }
}

/// The text that collapsing makes of `s`: trimmed at the start when
/// `at_start`, at the end when `at_end`, then with its runs collapsed.
pub open spec fn collapsed(s: Seq<char>, at_start: bool, at_end: bool) -> Seq<char> {
    let a = if at_start {
        trim_start(s)
    } else {
        s
    };
    let b = if at_end {
        trim_end(a)
    } else {
        a
    };
    collapse_runs(b)
}

/// Holds when every white-space character of `s` is a plain space and no
/// two white-space characters are adjacent: the shape of collapsed text.
pub open spec fn is_collapsed(s: Seq<char>) -> bool {
    forall|i: int|
        0 <= i < s.len() && is_ascii_ws(#[trigger] s[i]) ==> s[i] == ' ' && (i + 1 < s.len()
            ==> !is_ascii_ws(s[i + 1]))
}

proof fn lemma_trim_start_shape(s: Seq<char>)
    ensures
        trim_start(s).len() > 0 ==> !is_ascii_ws(trim_start(s)[0]),
    decreases s.len(),
{
    if s.len() > 0 && is_ascii_ws(s[0]) {
        lemma_trim_start_shape(s.drop_first());
    }
}

proof fn lemma_trim_end_shape(s: Seq<char>)
    ensures
        trim_end(s).len() <= s.len(),
        forall|i: int| 0 <= i < trim_end(s).len() ==> #[trigger] trim_end(s)[i] == s[i],
        trim_end(s).len() > 0 ==> !is_ascii_ws(trim_end(s).last()),
    decreases s.len(),
{
    if s.len() > 0 && is_ascii_ws(s.last()) {
        lemma_trim_end_shape(s.drop_last());
    }
}

proof fn lemma_collapse_runs_shape(s: Seq<char>)
    ensures
        is_collapsed(collapse_runs(s)),
        collapse_runs(s).len() == 0 <==> s.len() == 0,
        s.len() > 0 ==> (is_ascii_ws(collapse_runs(s)[0]) <==> is_ascii_ws(s[0])),
        s.len() > 0 ==> (is_ascii_ws(collapse_runs(s).last()) <==> is_ascii_ws(s.last())),
    decreases s.len(),
{
    if s.len() > 0 {
        let p = s.drop_last();
        lemma_collapse_runs_shape(p);
        let cp = collapse_runs(p);
        let c = collapse_runs(s);
        if p.len() > 0 {
            assert(p[0] == s[0]);
        }
        if !is_ascii_ws(s.last()) {
            assert(c == cp.push(s.last()));
        } else if p.len() > 0 && is_ascii_ws(p.last()) {
            assert(c == cp);
        } else {
            assert(c == cp.push(' '));
        }
        assert forall|i: int| 0 <= i < c.len() && is_ascii_ws(#[trigger] c[i]) implies c[i] == ' '
            && (i + 1 < c.len() ==> !is_ascii_ws(c[i + 1])) by {
            if i + 1 < cp.len() {
                assert(c[i] == cp[i] && c[i + 1] == cp[i + 1]);
            }
        }
    }
}

proof fn lemma_collapse_runs_fixed(s: Seq<char>)
    requires
        is_collapsed(s),
    ensures
        collapse_runs(s) == s,
    decreases s.len(),
{
    if s.len() > 0 {
        let p = s.drop_last();
        assert(is_collapsed(p)) by {
            assert forall|i: int| 0 <= i < p.len() && is_ascii_ws(#[trigger] p[i]) implies p[i]
                == ' ' && (i + 1 < p.len() ==> !is_ascii_ws(p[i + 1])) by {
                assert(p[i] == s[i]);
                if i + 1 < p.len() {
                    assert(p[i + 1] == s[i + 1]);
                }
            }
        }
        lemma_collapse_runs_fixed(p);
        if p.len() > 0 && is_ascii_ws(s.last()) {
            assert(is_ascii_ws(s[s.len() - 1]));
            assert(!is_ascii_ws(p.last()));
        }
        assert(collapse_runs(s) =~= s);
    }
}

/// Collapsing is idempotent: text that has already been trimmed and
/// collapsed comes back unchanged when it is trimmed and collapsed again
/// with the same settings.
pub proof fn lemma_collapse_idempotent(s: Seq<char>, at_start: bool, at_end: bool)
    ensures
        collapsed(collapsed(s, at_start, at_end), at_start, at_end) == collapsed(
            s,
            at_start,
            at_end,
        ),
{
    let a = if at_start {
        trim_start(s)
    } else {
        s
    };
    let b = if at_end {
        trim_end(a)
    } else {
        a
    };
    let t = collapse_runs(b);
    lemma_trim_start_shape(s);
    lemma_trim_end_shape(a);
    lemma_collapse_runs_shape(b);
    if at_start && t.len() > 0 {
        assert(b[0] == a[0]);
        assert(trim_start(t) == t);
    }
    if at_end && t.len() > 0 {
        assert(trim_end(t) == t);
    }
    lemma_collapse_runs_fixed(t);
}

spec fn all_ws(s: Seq<char>) -> bool {
    forall|i: int| 0 <= i < s.len() ==> is_ascii_ws(#[trigger] s[i])
}

proof fn lemma_all_ws_split(s: Seq<char>)
    requires
        s.len() > 0,
    ensures
        all_ws(s) <==> all_ws(s.drop_last()) && is_ascii_ws(s.last()),
        all_ws(s) <==> all_ws(s.drop_first()) && is_ascii_ws(s[0]),
{
    let p = s.drop_last();
    let q = s.drop_first();
    if all_ws(p) && is_ascii_ws(s.last()) {
        assert forall|i: int| 0 <= i < s.len() implies is_ascii_ws(#[trigger] s[i]) by {
            if i < s.len() - 1 {
                assert(s[i] == p[i]);
            }
        }
    }
    if all_ws(q) && is_ascii_ws(s[0]) {
        assert forall|i: int| 0 <= i < s.len() implies is_ascii_ws(#[trigger] s[i]) by {
            if i > 0 {
                assert(s[i] == q[i - 1]);
            }
        }
    }
    if all_ws(s) {
        assert(is_ascii_ws(s[s.len() - 1]));
        assert(is_ascii_ws(s[0]));
        assert forall|i: int| 0 <= i < p.len() implies is_ascii_ws(#[trigger] p[i]) by {
            assert(p[i] == s[i]);
        }
        assert forall|i: int| 0 <= i < q.len() implies is_ascii_ws(#[trigger] q[i]) by {
            assert(q[i] == s[i + 1]);
        }
    }
}

proof fn lemma_trim_end_empty(s: Seq<char>)
    ensures
        trim_end(s).len() == 0 <==> all_ws(s),
    decreases s.len(),
{
    if s.len() > 0 {
        lemma_all_ws_split(s);
        lemma_trim_end_empty(s.drop_last());
        if !is_ascii_ws(s.last()) {
            assert(trim_end(s) == s);
        }
    }
}

proof fn lemma_trim_start_all_ws(s: Seq<char>)
    ensures
        all_ws(trim_start(s)) ==> all_ws(s),
    decreases s.len(),
{
    if s.len() > 0 && is_ascii_ws(s[0]) {
        lemma_all_ws_split(s);
        lemma_trim_start_all_ws(s.drop_first());
        assert(trim_start(s) == trim_start(s.drop_first()));
    }
}

/// A flush at the end of a scope that emits nothing still emits nothing
/// when the text is no longer at the start of a scope.
pub(crate) proof fn lemma_collapsed_end_silent(s: Seq<char>, at_start: bool)
    requires
        collapsed(s, at_start, true).len() == 0,
    ensures
        collapsed(s, false, true).len() == 0,
        collapsed(Seq::empty(), false, true).len() == 0,
{
    let a = if at_start {
        trim_start(s)
    } else {
        s
    };
    lemma_collapse_runs_shape(trim_end(a));
    lemma_trim_end_empty(a);
    if at_start {
        lemma_trim_start_all_ws(s);
    }
    lemma_trim_end_empty(s);
    lemma_collapse_runs_shape(trim_end(s));
    lemma_trim_end_empty(Seq::<char>::empty());
    lemma_collapse_runs_shape(trim_end(Seq::<char>::empty()));
}

fn is_ws(c: char) -> (r: bool)
    ensures
        r == is_ascii_ws(c),
{
    c == ' ' || c == '\t' || c == '\n' || c == '\x0C' || c == '\r'
}

proof fn lemma_trim_start_skip(s: Seq<char>, k: int)
    requires
        0 <= k <= s.len(),
        forall|i: int| 0 <= i < k ==> is_ascii_ws(#[trigger] s[i]),
    ensures
        trim_start(s) == trim_start(s.subrange(k, s.len() as int)),
    decreases k,
{
    if k > 0 {
        assert(s.drop_first() =~= s.subrange(1, s.len() as int));
        lemma_trim_start_skip(s.drop_first(), k - 1);
        assert(s.drop_first().subrange(k - 1, s.drop_first().len() as int) =~= s.subrange(
            k,
            s.len() as int,
        ));
    } else {
        assert(s.subrange(0, s.len() as int) =~= s);
    }
}

proof fn lemma_trim_end_skip(s: Seq<char>, k: int)
    requires
        0 <= k <= s.len(),
        forall|i: int| k <= i < s.len() ==> is_ascii_ws(#[trigger] s[i]),
    ensures
        trim_end(s) == trim_end(s.subrange(0, k)),
    decreases s.len() - k,
{
    if k < s.len() {
        assert(s.drop_last() =~= s.subrange(0, s.len() - 1));
        lemma_trim_end_skip(s.drop_last(), k);
        assert(s.drop_last().subrange(0, k) =~= s.subrange(0, k));
    } else {
        assert(s.subrange(0, k) =~= s);
    }
}

/// Pushes one character onto a string.
///
/// Relies on `String::push`, which appends the character at the end.
#[verifier::external_body]
fn push_char(s: &mut String, c: char)
    ensures
        final(s)@ == old(s)@.push(c),
{
    s.push(c)
}

/// Applies inline white-space collapsing to `text`: leading white space is
/// dropped when `at_start`, trailing white space when `at_end`, and every
/// remaining run of ASCII white space becomes a single space.
pub fn collapse_white_space(text: &str, at_start: bool, at_end: bool) -> (r: String)
    ensures
        r@ == collapsed(text@, at_start, at_end),
{
    let mut chars: Vec<char> = Vec::new();
    for c in it: text.chars()
        invariant
            chars@ == it.seq().subrange(0, it.index() as int),
    {
        chars.push(c);
    }
    proof {
        assert(chars@ =~= text@);
    }
    let n = chars.len();
    let mut lo: usize = 0;
    if at_start {
        while lo < n && is_ws(chars[lo])
            invariant
                lo <= n,
                n == chars@.len(),
                forall|i: int| 0 <= i < lo ==> is_ascii_ws(#[trigger] chars@[i]),
            decreases n - lo,
        {
            lo = lo + 1;
        }
        proof {
            lemma_trim_start_skip(chars@, lo as int);
            let t = chars@.subrange(lo as int, n as int);
            assert(t.len() > 0 ==> t[0] == chars@[lo as int]);
            assert(trim_start(t) == t);
        }
    }
    proof {
        assert(chars@.subrange(0, n as int) =~= chars@);
    }
    let ghost a = chars@.subrange(lo as int, n as int);
    let mut hi: usize = n;
    if at_end {
        while hi > lo && is_ws(chars[hi - 1])
            invariant
                lo <= hi <= n,
                n == chars@.len(),
                forall|i: int| hi <= i < n ==> is_ascii_ws(#[trigger] chars@[i]),
            decreases hi,
        {
            hi = hi - 1;
        }
        proof {
            lemma_trim_end_skip(a, hi - lo);
            let t = a.subrange(0, hi - lo);
            assert(t =~= chars@.subrange(lo as int, hi as int));
            assert(t.len() > 0 ==> t.last() == chars@[hi - 1]);
            assert(trim_end(t) == t);
        }
    } else {
        assert(a =~= chars@.subrange(lo as int, hi as int));
    }
    let mut out = String::new();
    let mut prev_ws = false;
    let mut i: usize = lo;
    while i < hi
        invariant
            lo <= i <= hi <= n,
            n == chars@.len(),
            out@ == collapse_runs(chars@.subrange(lo as int, i as int)),
            prev_ws == (i > lo && is_ascii_ws(chars@[i - 1])),
        decreases hi - i,
    {
        let c = chars[i];
        let ws = is_ws(c);
        proof {
            let s = chars@.subrange(lo as int, i + 1);
            assert(s.drop_last() =~= chars@.subrange(lo as int, i as int));
        }
        if !ws {
            push_char(&mut out, c);
        } else if !prev_ws {
            push_char(&mut out, ' ');
        }
        prev_ws = ws;
        i = i + 1;
    }
    proof {
        if at_start {
            assert(trim_start(text@) == a);
        } else {
            assert(a =~= text@);
        }
    }
    out
}

} // verus!
