use crate::fragment::{
    find_inline, fragment_added, inline_distinct, is_inline_with, lemma_find_bounds, Fragment,
    FragmentKind, FragmentRenderer, MathNode, NodeRef,
};
use crate::style::StyleElement;
use crate::tree::{is_array, opt};
use crate::text::trimmed;
use crate::tree::{
    arr_len, collect_math, document_math, elem, field, find_key, str_at, views, Document, Json,
    TreeError,
};
use vstd::prelude::*;
use vstd::string::StringExecFns;

verus! {

/// `new` comes from `old` by adding the nodes `ms` one after another.
pub open spec fn all_added(old: Seq<Fragment>, new: Seq<Fragment>, ms: Seq<MathNode>) -> bool {
    exists|chain: Seq<Seq<Fragment>>|
        chain.len() == ms.len() + 1 && chain[0] == old && chain[ms.len() as int] == new && forall|
            i: int,
        |
            0 <= i < ms.len() ==> #[trigger] fragment_added(
                chain[i],
                chain[i + 1],
                ms[i].kind,
                trimmed(ms[i].src@),
                ms[i].node_ref,
            )
}

pub open spec fn refs_of(ms: Seq<MathNode>) -> Seq<NodeRef> {
    ms.map_values(|m: MathNode| m.node_ref)
}

/// The node `m` is inline math with style elements `e` and trimmed source `t`.
pub open spec fn inline_node(m: MathNode, e: Seq<StyleElement>, t: Seq<char>) -> bool {
    m.kind is InlineMath && m.kind->InlineMath_0.elems() == e && trimmed(m.src@) == t
}

proof fn lemma_find_first(s: Seq<Fragment>, e: Seq<StyleElement>, t: Seq<char>, n: int)
    requires
        0 <= n < s.len(),
        is_inline_with(s[n], e, t),
        forall|j: int| 0 <= j < n ==> !is_inline_with(#[trigger] s[j], e, t),
    ensures
        find_inline(s, e, t) == Some(n),
    decreases s.len(),
{
    if n < s.len() - 1 {
        assert forall|j: int| 0 <= j < n implies !is_inline_with(#[trigger] s.drop_last()[j], e, t) by {
            assert(s.drop_last()[j] == s[j]);
        }
        lemma_find_first(s.drop_last(), e, t, n);
    } else {
        lemma_find_none(s.drop_last(), e, t);
    }
}

proof fn lemma_find_none(s: Seq<Fragment>, e: Seq<StyleElement>, t: Seq<char>)
    requires
        forall|j: int| 0 <= j < s.len() ==> !is_inline_with(#[trigger] s[j], e, t),
    ensures
        find_inline(s, e, t) is None,
    decreases s.len(),
{
    if s.len() > 0 {
        assert forall|j: int| 0 <= j < s.len() - 1 implies !is_inline_with(#[trigger] s.drop_last()[j], e, t) by {
            assert(s.drop_last()[j] == s[j]);
        }
        lemma_find_none(s.drop_last(), e, t);
    }
}

/// What the first `k` of the equal inline nodes leave: the old fragments, then
/// one fragment for them holding their references in call order.
pub open spec fn one_fragment_for(
    old: Seq<Fragment>,
    f: Seq<Fragment>,
    ms: Seq<MathNode>,
    e: Seq<StyleElement>,
    t: Seq<char>,
    k: int,
) -> bool {
    &&& f.len() == old.len() + 1
    &&& forall|j: int| 0 <= j < old.len() ==> f[j] == old[j]
    &&& is_inline_with(f[old.len() as int], e, t)
    &&& f[old.len() as int].refs@ == refs_of(ms.subrange(0, k))
    &&& find_inline(f, e, t) == Some(old.len() as int)
}

proof fn lemma_chain_prefix(
    old: Seq<Fragment>,
    chain: Seq<Seq<Fragment>>,
    ms: Seq<MathNode>,
    e: Seq<StyleElement>,
    t: Seq<char>,
    k: int,
)
    requires
        1 <= k <= ms.len(),
        chain.len() == ms.len() + 1,
        chain[0] == old,
        forall|i: int|
            0 <= i < ms.len() ==> #[trigger] fragment_added(
                chain[i],
                chain[i + 1],
                ms[i].kind,
                trimmed(ms[i].src@),
                ms[i].node_ref,
            ),
        forall|i: int| 0 <= i < ms.len() ==> inline_node(#[trigger] ms[i], e, t),
        find_inline(old, e, t) is None,
    ensures
        one_fragment_for(old, chain[k], ms, e, t, k),
    decreases k,
{
    let n = old.len() as int;
    let i = k - 1;
    assert(fragment_added(chain[i], chain[i + 1], ms[i].kind, trimmed(ms[i].src@), ms[i].node_ref));
    assert(inline_node(ms[i], e, t));
    let f = chain[k];
    if k == 1 {
        assert(f.drop_last() == old);
        assert forall|j: int| 0 <= j < n implies f[j] == old[j] by {
            assert(f.drop_last()[j] == f[j]);
        }
        assert(refs_of(ms.subrange(0, 1)) =~= seq![ms[0].node_ref]);
        lemma_find_bounds(old, e, t);
        assert forall|j: int| 0 <= j < n implies !is_inline_with(#[trigger] f[j], e, t) by {
            if is_inline_with(f[j], e, t) {
                crate::fragment::lemma_find_complete(old, e, t, j);
            }
        }
        lemma_find_first(f, e, t, n);
    } else {
        lemma_chain_prefix(old, chain, ms, e, t, k - 1);
        let g = chain[i];
        assert(refs_of(ms.subrange(0, k)) =~= refs_of(ms.subrange(0, i)).push(ms[i].node_ref));
        assert forall|j: int| 0 <= j < n implies !is_inline_with(#[trigger] f[j], e, t) by {
            assert(f[j] == g[j] && g[j] == old[j]);
            if is_inline_with(old[j], e, t) {
                crate::fragment::lemma_find_complete(old, e, t, j);
            }
        }
        lemma_find_first(f, e, t, n);
    }
}

/// Adding one or more inline math nodes with the same style and trimmed source,
/// none of which the fragments held before, creates exactly one fragment: it
/// comes after the old ones, which stay as they were, and holds the nodes'
/// references in call order.
pub proof fn lemma_equal_inline_nodes_merge(
    old: Seq<Fragment>,
    new: Seq<Fragment>,
    ms: Seq<MathNode>,
    e: Seq<StyleElement>,
    t: Seq<char>,
)
    requires
        all_added(old, new, ms),
        ms.len() >= 1,
        forall|i: int| 0 <= i < ms.len() ==> inline_node(#[trigger] ms[i], e, t),
        find_inline(old, e, t) is None,
    ensures
        new.len() == old.len() + 1,
        forall|j: int| 0 <= j < old.len() ==> new[j] == old[j],
        new[old.len() as int].refs@ == refs_of(ms),
        forall|j: int| 0 <= j < new.len() ==> (is_inline_with(#[trigger] new[j], e, t) <==> j == old.len()),
{
    let chain = choose|chain: Seq<Seq<Fragment>>|
        chain.len() == ms.len() + 1 && chain[0] == old && chain[ms.len() as int] == new && forall|
            i: int,
        |
            0 <= i < ms.len() ==> #[trigger] fragment_added(
                chain[i],
                chain[i + 1],
                ms[i].kind,
                trimmed(ms[i].src@),
                ms[i].node_ref,
            );
    lemma_chain_prefix(old, chain, ms, e, t, ms.len() as int);
    assert(ms.subrange(0, ms.len() as int) =~= ms);
    assert forall|j: int| 0 <= j < new.len() implies (is_inline_with(#[trigger] new[j], e, t) <==> j
        == old.len()) by {
        if j < old.len() && is_inline_with(new[j], e, t) {
            lemma_find_bounds(new, e, t);
            crate::fragment::lemma_find_complete(new.subrange(0, old.len() as int), e, t, j);
            assert(new.subrange(0, old.len() as int)[j] == new[j]);
            assert(new.subrange(0, old.len() as int) =~= old);
        }
    }
}

/// Node `id` of `d` reads as a raw node of kind `tag` in format `html` holding
/// `text`.
pub open spec fn raw_html_at(d: Seq<Json>, id: int, tag: Seq<char>, text: Seq<char>) -> bool {
    let c = field(d, id, "c"@);
    &&& str_at(d, field(d, id, "t"@)) == Some(tag)
    &&& arr_len(d, c) == 2
    &&& str_at(d, elem(d, c, 0)) == Some("html"@)
    &&& str_at(d, elem(d, c, 1)) == Some(text)
}

/// The parts of raw node `id` (its fields and their items) all lie at or after
/// `bound`.
pub open spec fn parts_from(d: Seq<Json>, id: int, bound: int) -> bool {
    let c = field(d, id, "c"@);
    &&& field(d, id, "t"@) >= bound
    &&& c >= bound
    &&& elem(d, c, 0) >= bound
    &&& elem(d, c, 1) >= bound
}

proof fn lemma_raw_html_kept(
    before: Seq<Json>,
    after: Seq<Json>,
    id: int,
    tag: Seq<char>,
    text: Seq<char>,
    changed: int,
    bound: int,
)
    requires
        raw_html_at(before, id, tag, text),
        parts_from(before, id, bound),
        0 <= id < bound,
        0 <= changed < bound,
        id != changed,
        before.len() <= after.len(),
        forall|j: int| 0 <= j < before.len() && j != changed ==> after[j] == before[j],
    ensures
        raw_html_at(after, id, tag, text),
        parts_from(after, id, bound),
{
    let c = field(before, id, "c"@);
    assert(after[id] == before[id]);
    assert(field(after, id, "t"@) == field(before, id, "t"@));
    assert(field(after, id, "c"@) == c);
    assert(after[c] == before[c]);
    assert(elem(after, c, 0) == elem(before, c, 0));
    assert(elem(after, c, 1) == elem(before, c, 1));
    assert(after[field(before, id, "t"@)] == before[field(before, id, "t"@)]);
    assert(after[elem(before, c, 0)] == before[elem(before, c, 0)]);
    assert(after[elem(before, c, 1)] == before[elem(before, c, 1)]);
}

pub open spec fn ref_node(r: NodeRef) -> int {
    match r {
        NodeRef::Inline(i) => i as int,
        NodeRef::Block(i) => i as int,
    }
}

/// Kind of raw node that replaces the node at `r`.
pub open spec fn raw_tag(r: NodeRef) -> Seq<char> {
    match r {
        NodeRef::Inline(_) => "RawInline"@,
        NodeRef::Block(_) => "RawBlock"@,
    }
}

/// Replaces the node at `r` by a raw HTML node of the same level holding `html`.
/// The new node's parts are appended to the document; no other node changes.
pub fn rewrite_node(doc: &mut Document, r: NodeRef, html: &str)
    requires
        ref_node(r) < old(doc).nodes@.len(),
    ensures
        raw_html_at(final(doc).nodes@, ref_node(r), raw_tag(r), html@),
        parts_from(final(doc).nodes@, ref_node(r), old(doc).nodes@.len() as int),
        final(doc).nodes@.len() == old(doc).nodes@.len() + 4,
        forall|j: int|
            0 <= j < old(doc).nodes@.len() && j != ref_node(r) ==> final(doc).nodes@[j] == old(
                doc,
            ).nodes@[j],
{
    let (id, tag) = match r {
        NodeRef::Inline(i) => (i, "RawInline"),
        NodeRef::Block(i) => (i, "RawBlock"),
    };
    let n = doc.nodes.len();
    doc.nodes.push(Json::Str(tag.to_owned()));
    let n1 = doc.nodes.len();
    doc.nodes.push(Json::Null);
    let n2 = doc.nodes.len();
    doc.nodes.push(Json::Str("html".to_owned()));
    let n3 = doc.nodes.len();
    doc.nodes.push(Json::Str(html.to_owned()));
    let mut parts: Vec<usize> = Vec::new();
    parts.push(n2);
    parts.push(n3);
    doc.nodes.set(n1, Json::Array(parts));
    let mut entries: Vec<(String, usize)> = Vec::new();
    entries.push(("t".to_owned(), n));
    entries.push(("c".to_owned(), n1));
    doc.nodes.set(id, Json::Object(entries));
    proof {
        reveal_strlit("t");
        reveal_strlit("c");
        reveal_strlit("html");
        reveal_strlit("RawInline");
        reveal_strlit("RawBlock");
        let d = doc.nodes@;
        let es = entries@;
        assert(es.drop_last() =~= seq![es[0]]);
        assert(seq![es[0]].drop_last() =~= Seq::<(String, usize)>::empty());
        assert(es[0].0@ == "t"@);
        assert("t"@[0] != "c"@[0]);
        assert(es[0].0@ != "c"@);
        let e0 = seq![es[0]];
        assert(find_key(e0.drop_last(), "t"@) is None);
        assert(find_key(e0, "t"@) == Some(0int));
        assert(find_key(e0.drop_last(), "c"@) is None);
        assert(find_key(e0, "c"@) is None);
        assert(find_key(es, "t"@) == Some(0int));
        assert(find_key(es, "c"@) == Some(1int));
        assert(field(d, id as int, "t"@) == n as int);
        assert(field(d, id as int, "c"@) == n + 1);
        assert(d[n + 1] == Json::Array(parts));
        assert(parts@ == seq![n2, n3]);
        assert(elem(d, n + 1, 0) == n + 2);
        assert(elem(d, n + 1, 1) == n + 3);
        assert(arr_len(d, n + 1) == 2);
        assert(str_at(d, n as int) == Some(tag@));
        assert(str_at(d, n + 2) == Some("html"@));
        assert(str_at(d, n + 3) == Some(html@));
        assert(tag@ == raw_tag(r));
    }
}

/// Replaces every node that shows `f` by a raw HTML node holding `html`.
pub fn rewrite_refs(doc: &mut Document, f: &Fragment, html: &str)
    requires
        forall|k: int| 0 <= k < f.refs@.len() ==> ref_node(#[trigger] f.refs@[k]) < old(doc).nodes@.len(),
        forall|k: int, l: int|
            0 <= k < f.refs@.len() && 0 <= l < f.refs@.len() && ref_node(#[trigger] f.refs@[k])
                == ref_node(#[trigger] f.refs@[l]) ==> f.refs@[k] == f.refs@[l],
    ensures
        forall|k: int|
            0 <= k < f.refs@.len() ==> raw_html_at(
                final(doc).nodes@,
                ref_node(#[trigger] f.refs@[k]),
                raw_tag(f.refs@[k]),
                html@,
            ),
        forall|j: int|
            0 <= j < old(doc).nodes@.len() && (forall|k: int|
                0 <= k < f.refs@.len() ==> ref_node(#[trigger] f.refs@[k]) != j) ==> final(doc).nodes@[j]
                == old(doc).nodes@[j],
        old(doc).nodes@.len() <= final(doc).nodes@.len(),
{
    let ghost d0 = doc.nodes@;
    let mut i: usize = 0;
    while i < f.refs.len()
        invariant
            i <= f.refs@.len(),
            d0.len() <= doc.nodes@.len(),
            forall|k: int| 0 <= k < f.refs@.len() ==> ref_node(#[trigger] f.refs@[k]) < d0.len(),
            forall|k: int, l: int|
                0 <= k < f.refs@.len() && 0 <= l < f.refs@.len() && ref_node(#[trigger] f.refs@[k])
                    == ref_node(#[trigger] f.refs@[l]) ==> f.refs@[k] == f.refs@[l],
            forall|k: int|
                0 <= k < i ==> raw_html_at(
                    doc.nodes@,
                    ref_node(#[trigger] f.refs@[k]),
                    raw_tag(f.refs@[k]),
                    html@,
                ) && parts_from(doc.nodes@, ref_node(f.refs@[k]), d0.len() as int),
            forall|j: int|
                0 <= j < d0.len() && (forall|k: int|
                    0 <= k < i ==> ref_node(#[trigger] f.refs@[k]) != j) ==> doc.nodes@[j] == d0[j],
        decreases f.refs@.len() - i,
    {
        let ghost before = doc.nodes@;
        let r = f.refs[i];
        rewrite_node(doc, r, html);
        proof {
            assert(r == f.refs@[i as int]);
            assert forall|k: int| 0 <= k < i + 1 implies raw_html_at(
                doc.nodes@,
                ref_node(#[trigger] f.refs@[k]),
                raw_tag(f.refs@[k]),
                html@,
            ) && parts_from(doc.nodes@, ref_node(f.refs@[k]), d0.len() as int) by {
                if k < i && ref_node(f.refs@[k]) != ref_node(r) {
                    lemma_raw_html_kept(
                        before,
                        doc.nodes@,
                        ref_node(f.refs@[k]),
                        raw_tag(f.refs@[k]),
                        html@,
                        ref_node(r),
                        d0.len() as int,
                    );
                } else if k < i {
                    assert(f.refs@[k] == r);
                }
            }
            assert forall|j: int|
                0 <= j < d0.len() && (forall|k: int|
                    0 <= k < i + 1 ==> ref_node(#[trigger] f.refs@[k]) != j) implies doc.nodes@[j] == d0[j] by {
                assert(ref_node(f.refs@[i as int]) != j);
                assert(forall|k: int| 0 <= k < i ==> ref_node(#[trigger] f.refs@[k]) != j);
            }
        }
        i = i + 1;
    }
}

impl FragmentRenderer {
    /// Adds the nodes `ms` one after another (see `add_fragment`).
    pub fn add_all(&mut self, ms: Vec<MathNode>)
        ensures
            all_added(old(self).fragments@, final(self).fragments@, ms@),
            inline_distinct(old(self).fragments@) ==> inline_distinct(final(self).fragments@),
            final(self).template == old(self).template,
            final(self).preamble == old(self).preamble,
            final(self).postamble == old(self).postamble,
    {
        let ghost orig = ms@;
        let mut ms = ms;
        let mut rev: Vec<MathNode> = Vec::new();
        while ms.len() > 0
            invariant
                ms@ == orig.subrange(0, orig.len() - rev@.len()),
                rev@.len() <= orig.len(),
                forall|j: int| 0 <= j < rev@.len() ==> #[trigger] rev@[j] == orig[orig.len() - 1 - j],
            decreases ms@.len(),
        {
            let m = ms.pop().unwrap();
            rev.push(m);
        }
        let ghost chain: Seq<Seq<Fragment>> = seq![self.fragments@];
        let n = rev.len();
        let mut i: usize = 0;
        while i < n
            invariant
                n == orig.len(),
                rev@.len() == n - i,
                i <= n,
                forall|j: int| 0 <= j < rev@.len() ==> #[trigger] rev@[j] == orig[orig.len() - 1 - j],
                chain.len() == i + 1,
                chain[0] == old(self).fragments@,
                chain[i as int] == self.fragments@,
                forall|k: int|
                    0 <= k < i ==> #[trigger] fragment_added(
                        chain[k],
                        chain[k + 1],
                        orig[k].kind,
                        trimmed(orig[k].src@),
                        orig[k].node_ref,
                    ),
                inline_distinct(old(self).fragments@) ==> inline_distinct(self.fragments@),
                self.template == old(self).template,
                self.preamble == old(self).preamble,
                self.postamble == old(self).postamble,
            decreases n - i,
        {
            let m = rev.pop().unwrap();
            assert(m == orig[i as int]);
            let MathNode { kind, src, node_ref } = m;
            self.add_fragment(kind, src.as_str(), node_ref);
            proof {
                chain = chain.push(self.fragments@);
            }
            i = i + 1;
        }
        assert(all_added(old(self).fragments@, self.fragments@, orig));
    }

    /// Finds and adds the document's math and raw nodes (see `collect_math` and
    /// `add_all`), then appends an empty object node to the top-level blocks, to
    /// be filled with the page script later, and returns its index.
    pub fn walk_and_create_final_node(&mut self, doc: &mut Document) -> (r: Result<usize, TreeError>)
        ensures
            match r {
                Ok(fin) => {
                    let b = field(old(doc).nodes@, 0, "blocks"@);
                    let d0 = old(doc).nodes@;
                    let d1 = final(doc).nodes@;
                    &&& exists|ms: Seq<MathNode>|
                        document_math(d0) == Some(views(ms)) && all_added(
                            old(self).fragments@,
                            final(self).fragments@,
                            ms,
                        )
                    &&& fin == d0.len() && d1.len() == d0.len() + 1
                    &&& d1[fin as int] is Object && d1[fin as int]->Object_0@.len() == 0
                    &&& forall|j: int| 0 <= j < d0.len() && j != b ==> d1[j] == d0[j]
                    &&& arr_len(d1, b) == arr_len(d0, b) + 1
                    &&& forall|k: int| 0 <= k < arr_len(d0, b) ==> elem(d1, b, k) == elem(d0, b, k)
                    &&& elem(d1, b, arr_len(d0, b)) == fin
                },
                Err(_) => document_math(old(doc).nodes@) is None && final(self).fragments@
                    == old(self).fragments@,
            },
            inline_distinct(old(self).fragments@) ==> inline_distinct(final(self).fragments@),
            final(self).template == old(self).template,
            final(self).preamble == old(self).preamble,
            final(self).postamble == old(self).postamble,
    {
        let ms = match collect_math(doc) {
            Ok(ms) => ms,
            Err(e) => return Err(e),
        };
        let ghost msv = ms@;
        self.add_all(ms);
        let b = match crate::tree::field_index(doc, 0, "blocks") {
            Some(b) => b,
            None => {
                proof {
                    assert(false);
                }
                return Err(TreeError { node: 0 });
            },
        };
        let ghost d0 = doc.nodes@;
        let items: &Vec<usize> = match &doc.nodes[b] {
            Json::Array(xs) => xs,
            _ => {
                proof {
                    assert(false);
                }
                return Err(TreeError { node: b });
            },
        };
        assert(d0[b as int] == Json::Array(*items));
        let fin = doc.nodes.len();
        let mut copy: Vec<usize> = Vec::new();
        let mut k: usize = 0;
        while k < items.len()
            invariant
                k <= items@.len(),
                copy@ == items@.subrange(0, k as int),
            decreases items@.len() - k,
        {
            copy.push(items[k]);
            proof {
                assert(copy@ =~= items@.subrange(0, k + 1));
            }
            k = k + 1;
        }
        assert(copy@ =~= items@);
        copy.push(fin);
        doc.nodes.push(Json::Object(Vec::new()));
        doc.nodes.set(b, Json::Array(copy));
        proof {
            let d1 = doc.nodes@;
            assert(d1[b as int] == Json::Array(copy));
            crate::tree::lemma_blocks_valid(d0, b as int, 0, Seq::empty());
            assert(d1.len() == d0.len() + 1);
            assert forall|k: int| 0 <= k < arr_len(d0, b as int) implies elem(d1, b as int, k) == elem(
                d0,
                b as int,
                k,
            ) by {
                assert(d1[b as int]->Array_0@[k] == d0[b as int]->Array_0@[k]);
            }
        }
        Ok(fin)
    }
}

/// The texts of `parts`, with `sep` between each two.
pub open spec fn joined(parts: Seq<Seq<char>>, sep: Seq<char>) -> Seq<char>
    decreases parts.len(),
{
    if parts.len() == 0 {
        Seq::empty()
    } else if parts.len() == 1 {
        parts[0]
    } else {
        joined(parts.drop_last(), sep) + sep + parts.last()
    }
}

pub open spec fn texts(v: Seq<String>) -> Seq<Seq<char>> {
    v.map_values(|s: String| s@)
}

/// The texts of `parts`, with `sep` between each two.
pub fn join_texts(parts: &Vec<String>, sep: &str) -> (r: String)
    ensures
        r@ == joined(texts(parts@), sep@),
{
    let mut r = String::new();
    let mut i: usize = 0;
    while i < parts.len()
        invariant
            i <= parts@.len(),
            r@ == joined(texts(parts@.subrange(0, i as int)), sep@),
        decreases parts@.len() - i,
    {
        let ghost before = texts(parts@.subrange(0, i as int));
        let ghost after = texts(parts@.subrange(0, i + 1));
        proof {
            assert(after.drop_last() =~= before);
            assert(after.last() == parts@[i as int]@);
        }
        if i > 0 {
            r.append(sep);
        }
        r.append(parts[i].as_str());
        proof {
            if i == 0 {
                assert(after.len() == 1);
                assert(Seq::<char>::empty() + parts@[0]@ =~= parts@[0]@);
            }
        }
        i = i + 1;
    }
    assert(parts@.subrange(0, parts@.len() as int) =~= parts@);
    r
}

/// The markup that replaces the nodes of one fragment, from the image of each
/// page that it covers: inline math puts them side by side; display and raw
/// content stacks them with line breaks in a centered block.
pub fn fragment_html(inline: bool, imgs: &Vec<String>) -> (r: String)
    ensures
        r@ == if inline {
            joined(texts(imgs@), Seq::empty())
        } else {
            "<div class=\"jl-display-div\" style=\"text-align:center;\">"@ + joined(
                texts(imgs@),
                "<br>"@,
            ) + "</div>"@
        },
{
    if inline {
        proof {
            reveal_strlit("");
            assert(""@ =~= Seq::<char>::empty());
        }
        join_texts(imgs, "")
    } else {
        let mut r = String::new();
        r.append("<div class=\"jl-display-div\" style=\"text-align:center;\">");
        let body = join_texts(imgs, "<br>");
        r.append(body.as_str());
        r.append("</div>");
        r
    }
}

} // verus!
