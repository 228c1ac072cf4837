use crate::style::{replaced, style_template, Style, StyleElement, TemplateConfig};
use crate::style::replace_all;
use crate::text::{count_lines, line_count, trim, trim_end, trimmed, trimmed_end};
use vstd::prelude::*;
use vstd::string::StringExecFns;

verus! {

/// Where a fragment stands in the document tree: the index of its node, and
/// whether that node is an inline or a block.
#[derive(Clone, Copy, Debug, PartialEq, Eq, Structural)]
pub enum NodeRef {
    Inline(usize),
    Block(usize),
}

/// What a fragment is and how it is typeset.
#[derive(Debug)]
pub enum FragmentKind {
    /// Inline math in the given formatting context.
    InlineMath(Style),
    /// Display math, wrapped in the display template.
    DisplayMath,
    /// Source taken into the typesetting file as it is.
    RawBlock,
    /// Source that is typeset but never shown (macro definitions).
    DontShow,
}

/// A math or raw node that the walk found, before deduplication.
#[derive(Debug)]
pub struct MathNode {
    pub kind: FragmentKind,
    /// Source text as written in the node.
    pub src: String,
    pub node_ref: NodeRef,
}

/// One distinct renderable unit and the places in the tree that show it.
#[derive(Debug)]
pub struct Fragment {
    pub kind: FragmentKind,
    /// Trimmed source text.
    pub src: String,
    pub refs: Vec<NodeRef>,
}

/// Half-open range of 1-based lines of the typesetting source.
#[derive(Clone, Copy, Debug, PartialEq, Eq, Structural)]
pub struct LineRange {
    pub start: usize,
    pub end: usize,
}

/// Collects the fragments of a document and writes the typesetting source.
pub struct FragmentRenderer {
    pub template: TemplateConfig,
    pub preamble: String,
    pub postamble: String,
    pub fragments: Vec<Fragment>,
}

/// `f` is inline math with style elements `e` and source `t`.
pub open spec fn is_inline_with(f: Fragment, e: Seq<StyleElement>, t: Seq<char>) -> bool {
    match f.kind {
        FragmentKind::InlineMath(st) => st.elems() == e && f.src@ == t,
        _ => false,
    }
}

/// Index of the first inline-math fragment of `fs` with style elements `e` and
/// source `t`.
pub open spec fn find_inline(fs: Seq<Fragment>, e: Seq<StyleElement>, t: Seq<char>) -> Option<int>
    decreases fs.len(),
{
    if fs.len() == 0 {
        None
    } else {
        match find_inline(fs.drop_last(), e, t) {
            Some(j) => Some(j),
            None => if is_inline_with(fs.last(), e, t) {
                Some(fs.len() - 1)
            } else {
                None
            },
        }
    }
}

/// No two inline-math fragments share both style and source.
pub open spec fn inline_distinct(fs: Seq<Fragment>) -> bool {
    forall|i: int, j: int|
        0 <= i < j < fs.len() ==> !(#[trigger] fs[i].kind is InlineMath && #[trigger] fs[j].kind is InlineMath
            && fs[i].src@ == fs[j].src@ && fs[i].kind->InlineMath_0.elems()
            == fs[j].kind->InlineMath_0.elems())
}

/// `new` is `old` after adding a fragment of kind `kind` with trimmed source `t`
/// shown at `r`: inline math that matches an earlier inline fragment in style and
/// source gains one more reference; anything else is appended as a new fragment.
pub open spec fn fragment_added(
    old: Seq<Fragment>,
    new: Seq<Fragment>,
    kind: FragmentKind,
    t: Seq<char>,
    r: NodeRef,
) -> bool {
    let found = match kind {
        FragmentKind::InlineMath(st) => find_inline(old, st.elems(), t),
        _ => None,
    };
    match found {
        Some(j) => {
            &&& new.len() == old.len()
            &&& forall|i: int| 0 <= i < old.len() && i != j ==> new[i] == old[i]
            &&& new[j].kind == old[j].kind
            &&& new[j].src@ == old[j].src@
            &&& new[j].refs@ == old[j].refs@.push(r)
        },
        None => {
            &&& new.len() == old.len() + 1
            &&& new.drop_last() == old
            &&& new.last().kind == kind
            &&& new.last().src@ == t
            &&& new.last().refs@ == seq![r]
        },
    }
}

/// The expansion of one fragment in the typesetting source, before trimming.
pub open spec fn expansion(f: Fragment, c: TemplateConfig) -> Seq<char> {
    match f.kind {
        FragmentKind::InlineMath(st) => replaced(
            c.inline_math@,
            c.placeholder@,
            replaced(style_template(st.elems(), c), c.placeholder@, f.src@),
        ),
        FragmentKind::DisplayMath => replaced(c.display_math@, c.placeholder@, f.src@),
        _ => f.src@,
    }
}

/// The text of one fragment in the typesetting source.
pub open spec fn block_text(f: Fragment, c: TemplateConfig) -> Seq<char> {
    trimmed_end(expansion(f, c))
}

/// Every fragment followed by a blank line.
pub open spec fn body_text(fs: Seq<Fragment>, c: TemplateConfig) -> Seq<char>
    decreases fs.len(),
{
    if fs.len() == 0 {
        Seq::empty()
    } else {
        body_text(fs.drop_last(), c) + block_text(fs.last(), c) + seq!['\n', '\n']
    }
}

/// The whole typesetting source: the trimmed preamble and a line feed, the
/// fragments, the postamble.
pub open spec fn assembled(
    fs: Seq<Fragment>,
    c: TemplateConfig,
    pre: Seq<char>,
    post: Seq<char>,
) -> Seq<char> {
    trimmed_end(pre) + seq!['\n'] + body_text(fs, c) + post
}

/// First line of fragment `k`: each fragment before it takes its lines and one
/// blank line.
pub open spec fn start_line(fs: Seq<Fragment>, c: TemplateConfig, pre: Seq<char>, k: int) -> int
    decreases k,
{
    if k <= 0 {
        line_count(trimmed_end(pre)) as int + 1
    } else {
        start_line(fs, c, pre, k - 1) + line_count(block_text(fs[k - 1], c)) as int + 1
    }
}

/// Every inline-math fragment's style has templates in `c`.
pub open spec fn styles_fit(fs: Seq<Fragment>, c: TemplateConfig) -> bool {
    forall|k: int|
        0 <= k < fs.len() && (#[trigger] fs[k].kind is InlineMath) ==> fs[k].kind->InlineMath_0.fits(c)
}

impl FragmentRenderer {
    pub fn new(template: TemplateConfig, preamble: String, postamble: String) -> (r: Self)
        ensures
            r.template == template,
            r.preamble == preamble,
            r.postamble == postamble,
            r.fragments@.len() == 0,
    {
        FragmentRenderer { template, preamble, postamble, fragments: Vec::new() }
    }

    /// Adds a fragment of kind `kind` with source `src` (trimmed) shown at
    /// `node_ref`. Inline math equal in trimmed source and style to an earlier
    /// inline fragment is merged into it; no other kind is ever merged.
    pub fn add_fragment(&mut self, kind: FragmentKind, src: &str, node_ref: NodeRef)
        ensures
            fragment_added(old(self).fragments@, final(self).fragments@, kind, trimmed(src@), node_ref),
            inline_distinct(old(self).fragments@) ==> inline_distinct(final(self).fragments@),
            final(self).template == old(self).template,
            final(self).preamble == old(self).preamble,
            final(self).postamble == old(self).postamble,
    {
        let t = trim(src).to_owned();
        let ghost tv = trimmed(src@);
        if let FragmentKind::InlineMath(style) = &kind {
            let mut i: usize = 0;
            while i < self.fragments.len()
                invariant
                    i <= self.fragments@.len(),
                    self.fragments@ == old(self).fragments@,
                    self.template == old(self).template,
                    self.preamble == old(self).preamble,
                    self.postamble == old(self).postamble,
                    t@ == tv,
                    tv == trimmed(src@),
                    kind is InlineMath && kind->InlineMath_0 == *style,
                    find_inline(self.fragments@.subrange(0, i as int), style.elems(), tv) is None,
                decreases self.fragments@.len() - i,
            {
                let hit = match &self.fragments[i].kind {
                    FragmentKind::InlineMath(rs) => self.fragments[i].src == t && style.same_as(rs),
                    _ => false,
                };
                proof {
                    let fs = self.fragments@;
                    assert(fs.subrange(0, i + 1).drop_last() =~= fs.subrange(0, i as int));
                    assert(fs.subrange(0, i + 1).last() == fs[i as int]);
                    assert(hit == is_inline_with(fs[i as int], style.elems(), tv));
                }
                if hit {
                    proof {
                        let fs = self.fragments@;
                        assert(find_inline(fs.subrange(0, i + 1), style.elems(), tv) == Some(i as int));
                        lemma_find_prefix(self.fragments@, style.elems(), tv, i + 1);
                    }
                    let ghost old_f = self.fragments@[i as int];
                    let mut f = self.fragments.remove(i);
                    assert(f == old_f);
                    f.refs.push(node_ref);
                    self.fragments.insert(i, f);
                    proof {
                        let fs = self.fragments@;
                        assert(fs[i as int] == f);
                        assert forall|a: int| 0 <= a < fs.len() && a != i implies fs[a] == old(self).fragments@[a] by {
                            if a < i {
                                assert(fs[a] == old(self).fragments@[a]);
                            } else {
                                assert(fs[a] == old(self).fragments@[a]);
                            }
                        }
                        assert(fs.len() == old(self).fragments@.len());
                        assert forall|a: int, b: int|
                            0 <= a < b < fs.len() && inline_distinct(old(self).fragments@) implies !(
                        #[trigger] fs[a].kind is InlineMath && #[trigger] fs[b].kind is InlineMath
                            && fs[a].src@ == fs[b].src@ && fs[a].kind->InlineMath_0.elems()
                            == fs[b].kind->InlineMath_0.elems()) by {
                            assert(old(self).fragments@[a].kind == fs[a].kind);
                            assert(old(self).fragments@[b].kind == fs[b].kind);
                            assert(old(self).fragments@[a].src == fs[a].src);
                            assert(old(self).fragments@[b].src == fs[b].src);
                        }
                    }
                    assert(self.fragments@[i as int].refs@ == old(self).fragments@[i as int].refs@.push(node_ref));
                    return;
                }
                i = i + 1;
            }
            proof {
                assert(self.fragments@.subrange(0, i as int) =~= self.fragments@);
            }
        }
        let ghost before = self.fragments@;
        self.fragments.push(Fragment { kind, src: t, refs: vec![node_ref] });
        proof {
            let fs = self.fragments@;
            assert(fs.drop_last() =~= before);
            assert(fs.last().refs@ =~= seq![node_ref]);
            if inline_distinct(before) {
                assert forall|a: int, b: int|
                    0 <= a < b < fs.len() implies !(#[trigger] fs[a].kind is InlineMath
                    && #[trigger] fs[b].kind is InlineMath && fs[a].src@ == fs[b].src@
                    && fs[a].kind->InlineMath_0.elems() == fs[b].kind->InlineMath_0.elems()) by {
                    if b == fs.len() - 1 && fs[b].kind is InlineMath && fs[a].kind is InlineMath
                        && fs[a].src@ == fs[b].src@ && fs[a].kind->InlineMath_0.elems()
                        == fs[b].kind->InlineMath_0.elems() {
                        assert(is_inline_with(before[a], fs[b].kind->InlineMath_0.elems(), tv));
                        lemma_find_complete(before, fs[b].kind->InlineMath_0.elems(), tv, a);
                    }
                }
            }
        }
    }
}

/// The expansion of one fragment (see `expansion`).
fn expand(f: &Fragment, c: &TemplateConfig) -> (r: String)
    requires
        f.kind is InlineMath ==> f.kind->InlineMath_0.fits(*c),
    ensures
        r@ == expansion(*f, *c),
{
    match &f.kind {
        FragmentKind::InlineMath(st) => {
            let styled = st.template(c);
            let inner = replace_all(styled.as_str(), c.placeholder.as_str(), f.src.as_str());
            replace_all(c.inline_math.as_str(), c.placeholder.as_str(), inner.as_str())
        },
        FragmentKind::DisplayMath => replace_all(
            c.display_math.as_str(),
            c.placeholder.as_str(),
            f.src.as_str(),
        ),
        _ => f.src.clone(),
    }
}

impl FragmentRenderer {
    /// Whether every inline fragment's style has templates in the configuration.
    pub fn styles_fit_config(&self) -> (r: bool)
        ensures
            r == styles_fit(self.fragments@, self.template),
    {
        let mut k: usize = 0;
        while k < self.fragments.len()
            invariant
                k <= self.fragments@.len(),
                forall|j: int|
                    0 <= j < k && (#[trigger] self.fragments@[j].kind is InlineMath) ==> self.fragments@[j].kind->InlineMath_0.fits(
                        self.template,
                    ),
            decreases self.fragments@.len() - k,
        {
            if let FragmentKind::InlineMath(st) = &self.fragments[k].kind {
                if !st.fits_config(&self.template) {
                    return false;
                }
            }
            k = k + 1;
        }
        true
    }

    /// Writes the typesetting source: the trimmed preamble, each fragment's trimmed
    /// expansion followed by a blank line, and the postamble; with the range of
    /// lines that each fragment takes. `None` where a line number would not fit a
    /// `usize`.
    pub fn generate_latex_with_line_mappings(&self) -> (r: Option<(String, Vec<LineRange>)>)
        requires
            styles_fit(self.fragments@, self.template),
        ensures
            match r {
                Some((out, lines)) => {
                    &&& out@ == assembled(
                        self.fragments@,
                        self.template,
                        self.preamble@,
                        self.postamble@,
                    )
                    &&& lines@.len() == self.fragments@.len()
                    &&& forall|k: int|
                        0 <= k < lines@.len() ==> (#[trigger] lines@[k]).start == start_line(
                            self.fragments@,
                            self.template,
                            self.preamble@,
                            k,
                        ) && lines@[k].end == lines@[k].start + line_count(
                            block_text(self.fragments@[k], self.template),
                        )
                },
                None => start_line(
                    self.fragments@,
                    self.template,
                    self.preamble@,
                    self.fragments@.len() as int,
                ) > usize::MAX,
            },
    {
        let ghost fs = self.fragments@;
        let ghost c = self.template;
        let ghost pre = self.preamble@;
        let pre_t = trim_end(self.preamble.as_str());
        let mut out = String::new();
        out.append(pre_t);
        proof {
            reveal_strlit("\n");
            reveal_strlit("\n\n");
        }
        out.append("\n");
        let first = count_lines(pre_t);
        let mut current: usize = match first.checked_add(1) {
            Some(v) => v,
            None => {
                proof {
                    lemma_start_line_grows(fs, c, pre, 0, fs.len() as int);
                }
                return None;
            },
        };
        let mut lines: Vec<LineRange> = Vec::new();
        let mut k: usize = 0;
        while k < self.fragments.len()
            invariant
                fs == self.fragments@,
                c == self.template,
                pre == self.preamble@,
                styles_fit(fs, c),
                k <= fs.len(),
                out@ == trimmed_end(pre) + seq!['\n'] + body_text(fs.subrange(0, k as int), c),
                current == start_line(fs, c, pre, k as int),
                lines@.len() == k,
                forall|j: int|
                    0 <= j < k ==> (#[trigger] lines@[j]).start == start_line(fs, c, pre, j)
                        && lines@[j].end == lines@[j].start + line_count(block_text(fs[j], c)),
            decreases fs.len() - k,
        {
            assert(fs[k as int].kind is InlineMath ==> fs[k as int].kind->InlineMath_0.fits(c));
            let expanded = expand(&self.fragments[k], &self.template);
            let e = trim_end(expanded.as_str());
            let n = count_lines(e);
            let end = match current.checked_add(n) {
                Some(v) => v,
                None => {
                    proof {
                        lemma_start_line_grows(fs, c, pre, k + 1, fs.len() as int);
                    }
                    return None;
                },
            };
            let next = match end.checked_add(1) {
                Some(v) => v,
                None => {
                    proof {
                        lemma_start_line_grows(fs, c, pre, k + 1, fs.len() as int);
                    }
                    return None;
                },
            };
            lines.push(LineRange { start: current, end });
            proof {
                reveal_strlit("\n\n");
            }
            let ghost before = out@;
            out.append(e);
            out.append("\n\n");
            assert(out@ == before + block_text(fs[k as int], c) + seq!['\n', '\n']);
            proof {
                let sub = fs.subrange(0, k + 1);
                assert(sub.drop_last() =~= fs.subrange(0, k as int));
                assert(sub.last() == fs[k as int]);
                assert(out@ =~= trimmed_end(pre) + seq!['\n'] + body_text(sub, c));
            }
            current = next;
            k = k + 1;
        }
        assert(fs.subrange(0, fs.len() as int) =~= fs);
        out.append(self.postamble.as_str());
        Some((out, lines))
    }
}

/// Line numbers only grow from one fragment to the next.
pub proof fn lemma_start_line_grows(
    fs: Seq<Fragment>,
    c: TemplateConfig,
    pre: Seq<char>,
    a: int,
    b: int,
)
    requires
        0 <= a <= b,
    ensures
        start_line(fs, c, pre, a) <= start_line(fs, c, pre, b),
    decreases b - a,
{
    if a < b {
        lemma_start_line_grows(fs, c, pre, a, b - 1);
    }
}

/// The line ranges of consecutive fragments leave exactly one blank line between
/// them: the next fragment starts one line after the end of the previous one.
pub proof fn lemma_line_ranges_contiguous(
    fs: Seq<Fragment>,
    c: TemplateConfig,
    pre: Seq<char>,
    k: int,
)
    requires
        0 <= k,
    ensures
        start_line(fs, c, pre, k + 1) == start_line(fs, c, pre, k) + line_count(
            block_text(fs[k], c),
        ) + 1,
        start_line(fs, c, pre, k) < start_line(fs, c, pre, k + 1),
{
}

/// Adding the same inline math (same style, same trimmed source) a second time
/// creates no second fragment: the one fragment that holds it gains the second
/// reference.
pub proof fn lemma_inline_dedup(
    a: Seq<Fragment>,
    b: Seq<Fragment>,
    c: Seq<Fragment>,
    kind: FragmentKind,
    t: Seq<char>,
    r1: NodeRef,
    r2: NodeRef,
)
    requires
        kind is InlineMath,
        fragment_added(a, b, kind, t, r1),
        fragment_added(b, c, kind, t, r2),
    ensures
        c.len() == b.len(),
        find_inline(b, kind->InlineMath_0.elems(), t) is Some,
        ({
            let j = find_inline(b, kind->InlineMath_0.elems(), t)->Some_0;
            &&& is_inline_with(c[j], kind->InlineMath_0.elems(), t)
            &&& c[j].refs@ == b[j].refs@.push(r2)
        }),
{
    let e = kind->InlineMath_0.elems();
    match find_inline(a, e, t) {
        Some(j) => {
            lemma_find_bounds(a, e, t);
            assert(is_inline_with(b[j], e, t));
            lemma_find_complete(b, e, t, j);
        },
        None => {
            assert(is_inline_with(b[b.len() - 1], e, t));
            lemma_find_complete(b, e, t, b.len() - 1);
        },
    }
    lemma_find_bounds(b, e, t);
}

/// The index that `find_inline` gives holds a match.
pub proof fn lemma_find_bounds(fs: Seq<Fragment>, e: Seq<StyleElement>, t: Seq<char>)
    ensures
        match find_inline(fs, e, t) {
            Some(j) => 0 <= j < fs.len() && is_inline_with(fs[j], e, t),
            None => true,
        },
    decreases fs.len(),
{
    if fs.len() > 0 {
        lemma_find_bounds(fs.drop_last(), e, t);
        if let Some(j) = find_inline(fs.drop_last(), e, t) {
            assert(fs.drop_last()[j] == fs[j]);
        }
    }
}

/// `find_inline` on a prefix that already holds a match gives the same index as on
/// the whole sequence.
pub proof fn lemma_find_prefix(fs: Seq<Fragment>, e: Seq<StyleElement>, t: Seq<char>, k: int)
    requires
        0 <= k <= fs.len(),
        find_inline(fs.subrange(0, k), e, t) is Some,
    ensures
        find_inline(fs, e, t) == find_inline(fs.subrange(0, k), e, t),
    decreases fs.len() - k,
{
    if k < fs.len() {
        assert(fs.subrange(0, k + 1).drop_last() =~= fs.subrange(0, k));
        lemma_find_prefix(fs, e, t, k + 1);
    } else {
        assert(fs.subrange(0, k) =~= fs);
    }
}

/// Where some fragment matches, `find_inline` finds one.
pub proof fn lemma_find_complete(fs: Seq<Fragment>, e: Seq<StyleElement>, t: Seq<char>, a: int)
    requires
        0 <= a < fs.len(),
        is_inline_with(fs[a], e, t),
    ensures
        find_inline(fs, e, t) is Some,
    decreases fs.len(),
{
    if a < fs.len() - 1 {
        assert(fs.drop_last()[a] == fs[a]);
        lemma_find_complete(fs.drop_last(), e, t, a);
    }
}

} // verus!
