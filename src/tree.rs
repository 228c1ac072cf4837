use crate::fragment::{FragmentKind, MathNode, NodeRef};
use crate::style::{Style, StyleElement};
use crate::text::{has_prefix, same_text, trim_start, trimmed_start};
use vstd::prelude::*;

verus! {

/// One node of a document tree in the Pandoc JSON shape. Arrays and objects name
/// their children by index into the document's node list; a child always comes
/// after its parent.
#[derive(Debug)]
pub enum Json {
    Null,
    Bool(bool),
    /// A number that is a non-negative integer.
    UInt(u64),
    /// Any other number, as written.
    Number(String),
    Str(String),
    Array(Vec<usize>),
    Object(Vec<(String, usize)>),
}

/// A document tree: node 0 is the root.
#[derive(Debug)]
pub struct Document {
    pub nodes: Vec<Json>,
}

/// Why the tree could not be walked: the node at `node` lacks a field or has
/// another shape than its kind asks for.
#[derive(Clone, Copy, Debug, PartialEq, Eq, Structural)]
pub struct TreeError {
    pub node: usize,
}

/// What the walk reports of one math or raw node.
pub enum KindView {
    Inline(Seq<StyleElement>),
    Display,
    Raw,
    DontShow,
}

/// One math or raw node found by the walk: its kind, its source as written,
/// whether it is an inline node, and its index.
pub struct MathView {
    pub kind: KindView,
    pub src: Seq<char>,
    pub inline: bool,
    pub node: int,
}

/// The lists that the walk goes through, by what their items are.
#[derive(Clone, Copy, Debug, PartialEq, Eq, Structural)]
pub enum ListKind {
    /// Blocks.
    Blocks,
    /// Inlines.
    Inlines,
    /// Lists of blocks.
    ListsOfBlocks,
    /// Lists of inlines.
    ListsOfInlines,
    /// Table rows: each holds its cells at index 1.
    Rows,
    /// Table cells: each holds its blocks at index 4.
    Cells,
    /// Table bodies: from index 2 on, each holds lists of rows.
    Bodies,
    /// Lists of rows.
    RowLists,
}

/// Index of the first entry of `es` with key `key`.
pub open spec fn find_key(es: Seq<(String, usize)>, key: Seq<char>) -> Option<int>
    decreases es.len(),
{
    if es.len() == 0 {
        None
    } else {
        match find_key(es.drop_last(), key) {
            Some(j) => Some(j),
            None => if es.last().0@ == key {
                Some(es.len() - 1)
            } else {
                None
            },
        }
    }
}

/// `c` may be a child of `p`.
pub open spec fn is_child(d: Seq<Json>, p: int, c: int) -> bool {
    0 <= p < c < d.len()
}

/// The child of object node `id` under `key`, or -1 where there is none (the
/// value is then null).
pub open spec fn field(d: Seq<Json>, id: int, key: Seq<char>) -> int {
    if 0 <= id < d.len() && d[id] is Object {
        match find_key(d[id]->Object_0@, key) {
            Some(j) => if is_child(d, id, d[id]->Object_0@[j].1 as int) {
                d[id]->Object_0@[j].1 as int
            } else {
                -1
            },
            None => -1,
        }
    } else {
        -1
    }
}

/// Item `i` of array node `id`, or -1 where there is none.
pub open spec fn elem(d: Seq<Json>, id: int, i: int) -> int {
    if 0 <= id < d.len() && d[id] is Array && 0 <= i < d[id]->Array_0@.len() && is_child(
        d,
        id,
        d[id]->Array_0@[i] as int,
    ) {
        d[id]->Array_0@[i] as int
    } else {
        -1
    }
}

/// Number of items of array node `id`.
pub open spec fn arr_len(d: Seq<Json>, id: int) -> int {
    if 0 <= id < d.len() && d[id] is Array {
        d[id]->Array_0@.len() as int
    } else {
        0
    }
}

pub open spec fn is_array(d: Seq<Json>, id: int) -> bool {
    0 <= id < d.len() && d[id] is Array
}

/// The text of string node `id`.
pub open spec fn str_at(d: Seq<Json>, id: int) -> Option<Seq<char>> {
    if 0 <= id < d.len() && d[id] is Str {
        Some(d[id]->Str_0@)
    } else {
        None
    }
}

/// The value of non-negative integer node `id`.
pub open spec fn u64_at(d: Seq<Json>, id: int) -> Option<u64> {
    if 0 <= id < d.len() && d[id] is UInt {
        Some(d[id]->UInt_0)
    } else {
        None
    }
}

pub open spec fn starts_with(s: Seq<char>, p: Seq<char>) -> bool {
    p.len() <= s.len() && s.subrange(0, p.len() as int) == p
}

/// Both parts, one after the other, where neither failed.
pub open spec fn both(a: Option<Seq<MathView>>, b: Option<Seq<MathView>>) -> Option<Seq<MathView>> {
    match (a, b) {
        (Some(x), Some(y)) => Some(x + y),
        _ => None,
    }
}

/// Measure of the walk at node `x`: nodes further on are nearer the end.
pub open spec fn rank(d: Seq<Json>, x: int) -> int {
    if 0 <= x < d.len() {
        d.len() - x
    } else {
        0
    }
}

/// Kind of a display-math node, by the marker that its source starts with.
pub open spec fn display_kind(src: Seq<char>) -> KindView {
    let t = trimmed_start(src);
    if starts_with(t, "%raw"@) {
        KindView::Raw
    } else if starts_with(t, "%dontshow"@) {
        KindView::DontShow
    } else {
        KindView::Display
    }
}

/// Math and raw nodes of block node `id`, in document order, under the style
/// elements `st`; `None` where the tree is malformed.
pub open spec fn block_math(d: Seq<Json>, id: int, st: Seq<StyleElement>) -> Option<Seq<MathView>>
    decreases rank(d, id), 0int, 0int,
{
    if !(0 <= id < d.len()) {
        None
    } else {
        let c = field(d, id, "c"@);
        match str_at(d, field(d, id, "t"@)) {
            None => None,
            Some(t) => if t == "Para"@ || t == "Plain"@ {
                list_math(d, c, 0, st, ListKind::Inlines)
            } else if t == "LineBlock"@ {
                list_math(d, c, 0, st, ListKind::ListsOfInlines)
            } else if t == "Header"@ {
                match u64_at(d, elem(d, c, 0)) {
                    None => None,
                    Some(level) => list_math(
                        d,
                        elem(d, c, 2),
                        0,
                        st.push(StyleElement::Header(level)),
                        ListKind::Inlines,
                    ),
                }
            } else if t == "BlockQuote"@ {
                list_math(d, c, 0, st.push(StyleElement::Quote), ListKind::Blocks)
            } else if t == "OrderedList"@ || t == "Div"@ {
                list_math(d, elem(d, c, 1), 0, st, ListKind::ListsOfBlocks)
            } else if t == "BulletList"@ {
                list_math(d, c, 0, st, ListKind::ListsOfBlocks)
            } else if t == "RawBlock"@ {
                match str_at(d, elem(d, c, 0)) {
                    None => None,
                    Some(format) => if format != "tex"@ {
                        Some(Seq::empty())
                    } else {
                        match str_at(d, elem(d, c, 1)) {
                            None => None,
                            Some(src) => Some(
                                seq![
                                    MathView {
                                        kind: if starts_with(trimmed_start(src), "%dontshow"@) {
                                            KindView::DontShow
                                        } else {
                                            KindView::Raw
                                        },
                                        src,
                                        inline: false,
                                        node: id,
                                    },
                                ],
                            ),
                        }
                    },
                }
            } else if t == "Table"@ {
                if !is_array(d, c) {
                    None
                } else {
                    let n = arr_len(d, c);
                    both(
                        both(
                            if n > 1 {
                                list_math(d, elem(d, elem(d, c, 1), 1), 0, st, ListKind::Blocks)
                            } else {
                                Some(Seq::empty())
                            },
                            if n > 3 {
                                list_math(d, elem(d, elem(d, c, 3), 1), 0, st, ListKind::Rows)
                            } else {
                                Some(Seq::empty())
                            },
                        ),
                        both(
                            if n > 4 {
                                list_math(d, elem(d, c, 4), 0, st, ListKind::Bodies)
                            } else {
                                Some(Seq::empty())
                            },
                            if n > 5 {
                                list_math(d, elem(d, elem(d, c, 5), 1), 0, st, ListKind::Rows)
                            } else {
                                Some(Seq::empty())
                            },
                        ),
                    )
                }
            } else {
                Some(Seq::empty())
            },
        }
    }
}

/// Math nodes of inline node `id`, in document order, under the style elements
/// `st`; `None` where the tree is malformed.
pub open spec fn inline_math(d: Seq<Json>, id: int, st: Seq<StyleElement>) -> Option<Seq<MathView>>
    decreases rank(d, id), 0int, 0int,
{
    if !(0 <= id < d.len()) {
        None
    } else {
        let c = field(d, id, "c"@);
        match str_at(d, field(d, id, "t"@)) {
            None => None,
            Some(t) => if t == "Math"@ {
                match (str_at(d, field(d, elem(d, c, 0), "t"@)), str_at(d, elem(d, c, 1))) {
                    (Some(ty), Some(src)) => if ty == "InlineMath"@ {
                        Some(seq![MathView { kind: KindView::Inline(st), src, inline: true, node: id }])
                    } else if ty == "DisplayMath"@ {
                        Some(seq![MathView { kind: display_kind(src), src, inline: true, node: id }])
                    } else {
                        None
                    },
                    _ => None,
                }
            } else if t == "Emph"@ {
                list_math(d, c, 0, st.push(StyleElement::Emph), ListKind::Inlines)
            } else if t == "Strong"@ {
                list_math(d, c, 0, st.push(StyleElement::Strong), ListKind::Inlines)
            } else if t == "Underline"@ || t == "Strikeout"@ {
                list_math(d, c, 0, st, ListKind::Inlines)
            } else if t == "Link"@ || t == "Image"@ {
                list_math(d, elem(d, c, 1), 0, st, ListKind::Inlines)
            } else {
                Some(Seq::empty())
            },
        }
    }
}

/// Math nodes of one item `x` of a list of kind `what`.
pub open spec fn item_math(d: Seq<Json>, x: int, st: Seq<StyleElement>, what: ListKind) -> Option<
    Seq<MathView>,
>
    decreases rank(d, x), 1int, 0int,
{
    match what {
        ListKind::Blocks => block_math(d, x, st),
        ListKind::Inlines => inline_math(d, x, st),
        ListKind::ListsOfBlocks => list_math(d, x, 0, st, ListKind::Blocks),
        ListKind::ListsOfInlines => list_math(d, x, 0, st, ListKind::Inlines),
        ListKind::Rows => list_math(d, elem(d, x, 1), 0, st, ListKind::Cells),
        ListKind::Cells => list_math(d, elem(d, x, 4), 0, st, ListKind::Blocks),
        ListKind::Bodies => if is_array(d, x) {
            list_math(d, x, 2, st, ListKind::RowLists)
        } else {
            None
        },
        ListKind::RowLists => list_math(d, x, 0, st, ListKind::Rows),
    }
}

/// Math nodes of the items of array node `l` from item `k` on.
pub open spec fn list_math(
    d: Seq<Json>,
    l: int,
    k: int,
    st: Seq<StyleElement>,
    what: ListKind,
) -> Option<Seq<MathView>>
    decreases rank(d, l), 0int, arr_len(d, l) - k,
{
    if !is_array(d, l) {
        None
    } else if k < 0 || k >= arr_len(d, l) {
        Some(Seq::empty())
    } else {
        both(item_math(d, elem(d, l, k), st, what), list_math(d, l, k + 1, st, what))
    }
}

/// Index of a node as the walk's specification counts it: -1 for none.
pub open spec fn opt(o: Option<usize>) -> int {
    match o {
        Some(x) => x as int,
        None => -1,
    }
}

/// What the walk reports of a math node it found.
pub open spec fn view_of(m: MathNode) -> MathView {
    MathView {
        kind: match m.kind {
            FragmentKind::InlineMath(st) => KindView::Inline(st.elems()),
            FragmentKind::DisplayMath => KindView::Display,
            FragmentKind::RawBlock => KindView::Raw,
            FragmentKind::DontShow => KindView::DontShow,
        },
        src: m.src@,
        inline: m.node_ref is Inline,
        node: match m.node_ref {
            NodeRef::Inline(i) => i as int,
            NodeRef::Block(i) => i as int,
        },
    }
}

pub open spec fn views(s: Seq<MathNode>) -> Seq<MathView> {
    s.map_values(|m: MathNode| view_of(m))
}

/// A walk step that found `res` took `before` to `after` when it succeeded, and
/// failed only where `res` says the tree is malformed.
pub open spec fn walked(
    res: Option<Seq<MathView>>,
    before: Seq<MathNode>,
    after: Seq<MathNode>,
    ok: bool,
) -> bool {
    if ok {
        res == Some(views(after).subrange(before.len() as int, after.len() as int)) && views(
            after,
        ).subrange(0, before.len() as int) == views(before) && before.len() <= after.len()
    } else {
        res is None
    }
}

proof fn lemma_views_push(s: Seq<MathNode>, m: MathNode)
    ensures
        views(s.push(m)) == views(s).push(view_of(m)),
{
    assert(views(s.push(m)) =~= views(s).push(view_of(m)));
}

/// The child of node `id` under `key` (see `field`).
fn field_of(d: &Document, id: Option<usize>, key: &str) -> (r: Option<usize>)
    ensures
        opt(r) == field(d.nodes@, opt(id), key@),
{
    let idx = match id {
        Some(x) => x,
        None => return None,
    };
    if idx >= d.nodes.len() {
        return None;
    }
    match &d.nodes[idx] {
        Json::Object(es) => {
            let mut j: usize = 0;
            while j < es.len()
                invariant
                    j <= es@.len(),
                    id == Some(idx),
                    idx < d.nodes@.len(),
                    d.nodes@[idx as int] == Json::Object(*es),
                    find_key(es@.subrange(0, j as int), key@) is None,
                decreases es@.len() - j,
            {
                proof {
                    assert(es@.subrange(0, j + 1).drop_last() =~= es@.subrange(0, j as int));
                }
                if same_text(es[j].0.as_str(), key) {
                    proof {
                        assert(find_key(es@.subrange(0, j + 1), key@) == Some(j as int));
                        lemma_find_key_prefix(es@, key@, j + 1);
                    }
                    let c = es[j].1;
                    if idx < c && c < d.nodes.len() {
                        return Some(c);
                    } else {
                        return None;
                    }
                }
                j = j + 1;
            }
            proof {
                assert(es@.subrange(0, j as int) =~= es@);
            }
            None
        },
        _ => None,
    }
}

proof fn lemma_find_key_prefix(es: Seq<(String, usize)>, key: Seq<char>, k: int)
    requires
        0 <= k <= es.len(),
        find_key(es.subrange(0, k), key) is Some,
    ensures
        find_key(es, key) == find_key(es.subrange(0, k), key),
    decreases es.len() - k,
{
    if k < es.len() {
        assert(es.subrange(0, k + 1).drop_last() =~= es.subrange(0, k));
        lemma_find_key_prefix(es, key, k + 1);
    } else {
        assert(es.subrange(0, k) =~= es);
    }
}

/// Item `i` of array node `id` (see `elem`).
fn elem_of(d: &Document, id: Option<usize>, i: usize) -> (r: Option<usize>)
    ensures
        opt(r) == elem(d.nodes@, opt(id), i as int),
{
    let id = match id {
        Some(x) => x,
        None => return None,
    };
    if id >= d.nodes.len() {
        return None;
    }
    match &d.nodes[id] {
        Json::Array(xs) => {
            if i < xs.len() && id < xs[i] && xs[i] < d.nodes.len() {
                Some(xs[i])
            } else {
                None
            }
        },
        _ => None,
    }
}

/// Number of items of node `id` where it is an array.
fn array_len_of(d: &Document, id: Option<usize>) -> (r: Option<usize>)
    ensures
        match r {
            Some(n) => is_array(d.nodes@, opt(id)) && n == arr_len(d.nodes@, opt(id)),
            None => !is_array(d.nodes@, opt(id)),
        },
{
    let id = match id {
        Some(x) => x,
        None => return None,
    };
    if id >= d.nodes.len() {
        return None;
    }
    match &d.nodes[id] {
        Json::Array(xs) => Some(xs.len()),
        _ => None,
    }
}

/// The text of node `id` where it is a string.
fn str_of(d: &Document, id: Option<usize>) -> (r: Option<&String>)
    ensures
        match r {
            Some(s) => str_at(d.nodes@, opt(id)) == Some(s@),
            None => str_at(d.nodes@, opt(id)) is None,
        },
{
    let id = match id {
        Some(x) => x,
        None => return None,
    };
    if id >= d.nodes.len() {
        return None;
    }
    match &d.nodes[id] {
        Json::Str(s) => Some(s),
        _ => None,
    }
}

/// The value of node `id` where it is a non-negative integer.
fn u64_of(d: &Document, id: Option<usize>) -> (r: Option<u64>)
    ensures
        r == u64_at(d.nodes@, opt(id)),
{
    let id = match id {
        Some(x) => x,
        None => return None,
    };
    if id >= d.nodes.len() {
        return None;
    }
    match &d.nodes[id] {
        Json::UInt(v) => Some(*v),
        _ => None,
    }
}

proof fn lemma_walked_both(
    a: Option<Seq<MathView>>,
    b: Option<Seq<MathView>>,
    s0: Seq<MathNode>,
    s1: Seq<MathNode>,
    s2: Seq<MathNode>,
    ok: bool,
)
    requires
        walked(a, s0, s1, true),
        walked(b, s1, s2, ok),
    ensures
        walked(both(a, b), s0, s2, ok),
{
    if ok {
        let v2 = views(s2);
        assert(v2.subrange(0, s1.len() as int).subrange(0, s0.len() as int) =~= v2.subrange(
            0,
            s0.len() as int,
        ));
        assert(v2.subrange(s0.len() as int, s2.len() as int) =~= v2.subrange(0, s1.len() as int).subrange(
            s0.len() as int,
            s1.len() as int,
        ) + v2.subrange(s1.len() as int, s2.len() as int));
    }
}

proof fn lemma_walked_empty(s0: Seq<MathNode>)
    ensures
        walked(Some(Seq::empty()), s0, s0, true),
{
    assert(views(s0).subrange(s0.len() as int, s0.len() as int) =~= Seq::<MathView>::empty());
    assert(views(s0).subrange(0, s0.len() as int) =~= views(s0));
}

proof fn lemma_walked_one(s0: Seq<MathNode>, m: MathNode)
    ensures
        walked(Some(seq![view_of(m)]), s0, s0.push(m), true),
{
    lemma_views_push(s0, m);
    assert(views(s0.push(m)).subrange(s0.len() as int, s0.len() as int + 1) =~= seq![view_of(m)]);
    assert(views(s0.push(m)).subrange(0, s0.len() as int) =~= views(s0));
}

/// Walks the items of array node `l` from item `k0` on.
pub(crate) fn walk_list(
    d: &Document,
    l: Option<usize>,
    k0: usize,
    st: &Style,
    what: ListKind,
    out: &mut Vec<MathNode>,
) -> (r: Result<(), TreeError>)
    ensures
        walked(list_math(d.nodes@, opt(l), k0 as int, st.elems(), what), old(out)@, final(out)@, r is Ok),
    decreases rank(d.nodes@, opt(l)), 0int, arr_len(d.nodes@, opt(l)) - k0,
{
    let n = match array_len_of(d, l) {
        Some(n) => n,
        None => return Err(TreeError { node: match l { Some(x) => x, None => 0 } }),
    };
    let ghost s0 = out@;
    let ghost whole = list_math(d.nodes@, opt(l), k0 as int, st.elems(), what);
    proof {
        assert(views(s0).subrange(s0.len() as int, s0.len() as int) =~= Seq::<MathView>::empty());
        assert(views(s0).subrange(0, s0.len() as int) =~= views(s0));
        if let Some(x) = whole {
            assert(Seq::<MathView>::empty() + x =~= x);
        }
    }
    let mut k = k0;
    while k < n
        invariant
            n == arr_len(d.nodes@, opt(l)),
            is_array(d.nodes@, opt(l)),
            whole == list_math(d.nodes@, opt(l), k0 as int, st.elems(), what),
            s0.len() <= out@.len(),
            views(out@).subrange(0, s0.len() as int) == views(s0),
            whole == both(
                Some(views(out@).subrange(s0.len() as int, out@.len() as int)),
                list_math(d.nodes@, opt(l), k as int, st.elems(), what),
            ),
        decreases n - k,
    {
        let x = elem_of(d, l, k);
        let ghost s1 = out@;
        let ghost done = views(s1).subrange(s0.len() as int, s1.len() as int);
        let res = walk_item(d, x, st, what, out);
        let ghost item = item_math(d.nodes@, opt(x), st.elems(), what);
        let ghost rest = list_math(d.nodes@, opt(l), k + 1, st.elems(), what);
        assert(list_math(d.nodes@, opt(l), k as int, st.elems(), what) == both(item, rest));
        if res.is_err() {
            return res;
        }
        proof {
            let v = views(out@);
            assert(v.subrange(0, s1.len() as int) == views(s1));
            assert(v.subrange(0, s0.len() as int) =~= v.subrange(0, s1.len() as int).subrange(
                0,
                s0.len() as int,
            ));
            assert(v.subrange(s0.len() as int, out@.len() as int) =~= done + v.subrange(
                s1.len() as int,
                out@.len() as int,
            ));
            if let Some(y) = rest {
                let it = v.subrange(s1.len() as int, out@.len() as int);
                assert(done + (it + y) =~= (done + it) + y);
            }
        }
        k = k + 1;
    }
    proof {
        let v = views(out@);
        assert(v.subrange(s0.len() as int, out@.len() as int) + Seq::<MathView>::empty() =~= v.subrange(
            s0.len() as int,
            out@.len() as int,
        ));
    }
    Ok(())
}

/// Walks one item of a list of kind `what`.
fn walk_item(
    d: &Document,
    x: Option<usize>,
    st: &Style,
    what: ListKind,
    out: &mut Vec<MathNode>,
) -> (r: Result<(), TreeError>)
    ensures
        walked(item_math(d.nodes@, opt(x), st.elems(), what), old(out)@, final(out)@, r is Ok),
    decreases rank(d.nodes@, opt(x)), 1int, 0int,
{
    match what {
        ListKind::Blocks => walk_block(d, x, st, out),
        ListKind::Inlines => walk_inline(d, x, st, out),
        ListKind::ListsOfBlocks => walk_list(d, x, 0, st, ListKind::Blocks, out),
        ListKind::ListsOfInlines => walk_list(d, x, 0, st, ListKind::Inlines, out),
        ListKind::Rows => walk_list(d, elem_of(d, x, 1), 0, st, ListKind::Cells, out),
        ListKind::Cells => walk_list(d, elem_of(d, x, 4), 0, st, ListKind::Blocks, out),
        ListKind::Bodies => {
            if array_len_of(d, x).is_none() {
                return Err(TreeError { node: match x { Some(v) => v, None => 0 } });
            }
            walk_list(d, x, 2, st, ListKind::RowLists, out)
        },
        ListKind::RowLists => walk_list(d, x, 0, st, ListKind::Rows, out),
    }
}

fn fail(x: Option<usize>) -> (r: Result<(), TreeError>)
    ensures
        r is Err,
{
    Err(TreeError { node: match x { Some(v) => v, None => 0 } })
}

/// Walks block node `id`.
fn walk_block(d: &Document, id: Option<usize>, st: &Style, out: &mut Vec<MathNode>) -> (r: Result<
    (),
    TreeError,
>)
    ensures
        walked(block_math(d.nodes@, opt(id), st.elems()), old(out)@, final(out)@, r is Ok),
    decreases rank(d.nodes@, opt(id)), 0int, 0int,
{
    let idx = match id {
        Some(v) => v,
        None => return fail(id),
    };
    if idx >= d.nodes.len() {
        return fail(id);
    }
    let c = field_of(d, id, "c");
    let t = match str_of(d, field_of(d, id, "t")) {
        Some(t) => t.as_str(),
        None => return fail(id),
    };
    if same_text(t, "Para") || same_text(t, "Plain") {
        walk_list(d, c, 0, st, ListKind::Inlines, out)
    } else if same_text(t, "LineBlock") {
        walk_list(d, c, 0, st, ListKind::ListsOfInlines, out)
    } else if same_text(t, "Header") {
        match u64_of(d, elem_of(d, c, 0)) {
            None => fail(id),
            Some(level) => {
                let inner = st.duplicate().push(StyleElement::Header(level));
                walk_list(d, elem_of(d, c, 2), 0, &inner, ListKind::Inlines, out)
            },
        }
    } else if same_text(t, "BlockQuote") {
        let inner = st.duplicate().push(StyleElement::Quote);
        walk_list(d, c, 0, &inner, ListKind::Blocks, out)
    } else if same_text(t, "OrderedList") || same_text(t, "Div") {
        walk_list(d, elem_of(d, c, 1), 0, st, ListKind::ListsOfBlocks, out)
    } else if same_text(t, "BulletList") {
        walk_list(d, c, 0, st, ListKind::ListsOfBlocks, out)
    } else if same_text(t, "RawBlock") {
        let format = match str_of(d, elem_of(d, c, 0)) {
            Some(f) => f.as_str(),
            None => return fail(id),
        };
        if !same_text(format, "tex") {
            proof {
                lemma_walked_empty(out@);
            }
            return Ok(());
        }
        let src = match str_of(d, elem_of(d, c, 1)) {
            Some(v) => v,
            None => return fail(id),
        };
        let kind = if has_prefix(trim_start(src.as_str()), "%dontshow") {
            FragmentKind::DontShow
        } else {
            FragmentKind::RawBlock
        };
        let m = MathNode { kind, src: src.clone(), node_ref: NodeRef::Block(idx) };
        proof {
            lemma_walked_one(out@, m);
        }
        out.push(m);
        Ok(())
    } else if same_text(t, "Table") {
        let n = match array_len_of(d, c) {
            Some(n) => n,
            None => return fail(id),
        };
        let ghost s0 = out@;
        let ghost dn = d.nodes@;
        let ghost e = st.elems();
        let ghost caption = if n > 1 {
            list_math(dn, elem(dn, elem(dn, opt(c), 1), 1), 0, e, ListKind::Blocks)
        } else {
            Some(Seq::empty())
        };
        let ghost head_rows = if n > 3 {
            list_math(dn, elem(dn, elem(dn, opt(c), 3), 1), 0, e, ListKind::Rows)
        } else {
            Some(Seq::empty())
        };
        let ghost body_rows = if n > 4 {
            list_math(dn, elem(dn, opt(c), 4), 0, e, ListKind::Bodies)
        } else {
            Some(Seq::empty())
        };
        let ghost foot_rows = if n > 5 {
            list_math(dn, elem(dn, elem(dn, opt(c), 5), 1), 0, e, ListKind::Rows)
        } else {
            Some(Seq::empty())
        };
        proof {
            lemma_walked_empty(s0);
        }
        if n > 1 {
            let r1 = walk_list(d, elem_of(d, elem_of(d, c, 1), 1), 0, st, ListKind::Blocks, out);
            if r1.is_err() {
                return r1;
            }
        }
        let ghost s1 = out@;
        proof {
            lemma_walked_empty(s1);
        }
        if n > 3 {
            let r3 = walk_list(d, elem_of(d, elem_of(d, c, 3), 1), 0, st, ListKind::Rows, out);
            if r3.is_err() {
                proof {
                    lemma_walked_both(caption, head_rows, s0, s1, out@, false);
                }
                return r3;
            }
        }
        let ghost s3 = out@;
        proof {
            lemma_walked_both(caption, head_rows, s0, s1, s3, true);
            lemma_walked_empty(s3);
        }
        if n > 4 {
            let r4 = walk_list(d, elem_of(d, c, 4), 0, st, ListKind::Bodies, out);
            if r4.is_err() {
                return r4;
            }
        }
        let ghost s4 = out@;
        proof {
            lemma_walked_empty(s4);
        }
        if n > 5 {
            let r5 = walk_list(d, elem_of(d, elem_of(d, c, 5), 1), 0, st, ListKind::Rows, out);
            if r5.is_err() {
                proof {
                    lemma_walked_both(body_rows, foot_rows, s3, s4, out@, false);
                }
                return r5;
            }
        }
        proof {
            lemma_walked_both(body_rows, foot_rows, s3, s4, out@, true);
            lemma_walked_both(both(caption, head_rows), both(body_rows, foot_rows), s0, s3, out@, true);
        }
        Ok(())
    } else {
        proof {
            lemma_walked_empty(out@);
        }
        Ok(())
    }
}

/// Walks inline node `id`.
fn walk_inline(d: &Document, id: Option<usize>, st: &Style, out: &mut Vec<MathNode>) -> (r: Result<
    (),
    TreeError,
>)
    ensures
        walked(inline_math(d.nodes@, opt(id), st.elems()), old(out)@, final(out)@, r is Ok),
    decreases rank(d.nodes@, opt(id)), 0int, 0int,
{
    let idx = match id {
        Some(v) => v,
        None => return fail(id),
    };
    if idx >= d.nodes.len() {
        return fail(id);
    }
    let c = field_of(d, id, "c");
    let t = match str_of(d, field_of(d, id, "t")) {
        Some(t) => t.as_str(),
        None => return fail(id),
    };
    if same_text(t, "Math") {
        let ty = match str_of(d, field_of(d, elem_of(d, c, 0), "t")) {
            Some(v) => v.as_str(),
            None => return fail(id),
        };
        let src = match str_of(d, elem_of(d, c, 1)) {
            Some(v) => v,
            None => return fail(id),
        };
        let kind = if same_text(ty, "InlineMath") {
            FragmentKind::InlineMath(st.duplicate())
        } else if same_text(ty, "DisplayMath") {
            let trimmed = trim_start(src.as_str());
            if has_prefix(trimmed, "%raw") {
                FragmentKind::RawBlock
            } else if has_prefix(trimmed, "%dontshow") {
                FragmentKind::DontShow
            } else {
                FragmentKind::DisplayMath
            }
        } else {
            return fail(id);
        };
        let m = MathNode { kind, src: src.clone(), node_ref: NodeRef::Inline(idx) };
        proof {
            lemma_walked_one(out@, m);
        }
        out.push(m);
        Ok(())
    } else if same_text(t, "Emph") {
        let inner = st.duplicate().push(StyleElement::Emph);
        walk_list(d, c, 0, &inner, ListKind::Inlines, out)
    } else if same_text(t, "Strong") {
        let inner = st.duplicate().push(StyleElement::Strong);
        walk_list(d, c, 0, &inner, ListKind::Inlines, out)
    } else if same_text(t, "Underline") || same_text(t, "Strikeout") {
        walk_list(d, c, 0, st, ListKind::Inlines, out)
    } else if same_text(t, "Link") || same_text(t, "Image") {
        walk_list(d, elem_of(d, c, 1), 0, st, ListKind::Inlines, out)
    } else {
        proof {
            lemma_walked_empty(out@);
        }
        Ok(())
    }
}

/// Math and raw nodes of the document's top-level blocks, in document order.
pub open spec fn document_math(d: Seq<Json>) -> Option<Seq<MathView>> {
    list_math(d, field(d, 0, "blocks"@), 0, Seq::empty(), ListKind::Blocks)
}

/// Finds the math and raw nodes of the document in document order, with the
/// formatting context of each inline one (see `document_math`).
pub fn collect_math(d: &Document) -> (r: Result<Vec<MathNode>, TreeError>)
    ensures
        match r {
            Ok(ms) => document_math(d.nodes@) == Some(views(ms@)),
            Err(_) => document_math(d.nodes@) is None,
        },
{
    let blocks = field_of(d, Some(0), "blocks");
    let mut out: Vec<MathNode> = Vec::new();
    let st = Style::Plain;
    assert(st.elems() =~= Seq::<StyleElement>::empty());
    let r = walk_list(d, blocks, 0, &st, ListKind::Blocks, &mut out);
    match r {
        Ok(()) => {
            assert(views(out@).subrange(0, out@.len() as int) =~= views(out@));
            Ok(out)
        },
        Err(e) => Err(e),
    }
}

/// The child of object node `id` under `key` (see `field`).
pub fn field_index(d: &Document, id: usize, key: &str) -> (r: Option<usize>)
    ensures
        opt(r) == field(d.nodes@, id as int, key@),
{
    field_of(d, Some(id), key)
}

/// Where the blocks of a list are walked without fault, each of them is a node.
pub proof fn lemma_blocks_valid(d: Seq<Json>, l: int, k: int, st: Seq<StyleElement>)
    requires
        0 <= k,
        list_math(d, l, k, st, ListKind::Blocks) is Some,
    ensures
        forall|j: int| k <= j < arr_len(d, l) ==> elem(d, l, j) >= 0,
    decreases arr_len(d, l) - k,
{
    if k < arr_len(d, l) {
        assert(list_math(d, l, k, st, ListKind::Blocks) == both(
            item_math(d, elem(d, l, k), st, ListKind::Blocks),
            list_math(d, l, k + 1, st, ListKind::Blocks),
        ));
        assert(item_math(d, elem(d, l, k), st, ListKind::Blocks) == block_math(d, elem(d, l, k), st));
        lemma_blocks_valid(d, l, k + 1, st);
        assert(block_math(d, elem(d, l, k), st) is Some);
    }
}

} // verus!
