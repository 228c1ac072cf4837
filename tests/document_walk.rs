use justlatex::fragment::{FragmentKind, FragmentRenderer, NodeRef};
use justlatex::render::{fragment_html, join_texts, rewrite_node, rewrite_refs};
use justlatex::style::TemplateConfig;
use justlatex::tree::{collect_math, field_index, Document, Json};

enum T {
    S(&'static str),
    U(u64),
    A(Vec<T>),
    O(Vec<(&'static str, T)>),
}

fn flatten(nodes: &mut Vec<Json>, t: &T) -> usize {
    let id = nodes.len();
    nodes.push(Json::Null);
    let node = match t {
        T::S(s) => Json::Str(s.to_string()),
        T::U(u) => Json::UInt(*u),
        T::A(xs) => Json::Array(xs.iter().map(|x| flatten(nodes, x)).collect()),
        T::O(es) => Json::Object(es.iter().map(|(k, x)| (k.to_string(), flatten(nodes, x))).collect()),
    };
    nodes[id] = node;
    id
}

fn doc(blocks: Vec<T>) -> Document {
    let mut nodes = Vec::new();
    flatten(&mut nodes, &T::O(vec![("blocks", T::A(blocks))]));
    Document { nodes }
}

fn node(t: &'static str, c: T) -> T {
    T::O(vec![("t", T::S(t)), ("c", c)])
}

fn math(kind: &'static str, src: &'static str) -> T {
    node("Math", T::A(vec![T::O(vec![("t", T::S(kind))]), T::S(src)]))
}

fn config() -> TemplateConfig {
    TemplateConfig {
        placeholder: "@".to_string(),
        inline_math_inner: "@".to_string(),
        inline_math: "$@$".to_string(),
        display_math: "\\[@\\]".to_string(),
        header: vec!["\\large{@}".to_string()],
        quote: "@".to_string(),
        strong: "@".to_string(),
        emph: "\\emph{@}".to_string(),
    }
}

fn text_at(d: &Document, id: usize) -> Option<&str> {
    match &d.nodes[id] {
        Json::Str(s) => Some(s.as_str()),
        _ => None,
    }
}

fn items(d: &Document, id: usize) -> Vec<usize> {
    match &d.nodes[id] {
        Json::Array(xs) => xs.clone(),
        _ => vec![],
    }
}

fn tag_of(d: &Document, id: usize) -> Option<&str> {
    field_index(d, id, "t").and_then(|t| text_at(d, t))
}

/// Raw HTML text of node `id`, where it is a raw node of kind `tag`.
fn raw_html(d: &Document, id: usize, tag: &str) -> Option<String> {
    if tag_of(d, id) != Some(tag) {
        return None;
    }
    let c = items(d, field_index(d, id, "c")?);
    if c.len() != 2 || text_at(d, c[0]) != Some("html") {
        return None;
    }
    text_at(d, c[1]).map(String::from)
}

fn count_raw_inline(d: &Document, id: usize) -> usize {
    let own = usize::from(raw_html(d, id, "RawInline").is_some());
    let children: Vec<usize> = match &d.nodes[id] {
        Json::Array(xs) => xs.clone(),
        Json::Object(es) if own == 0 => es.iter().map(|e| e.1).collect(),
        _ => vec![],
    };
    own + children.iter().map(|c| count_raw_inline(d, *c)).sum::<usize>()
}

#[test]
fn same_math_in_header_and_emphasis_stays_two_fragments() {
    let mut d = doc(vec![
        node("Header", T::A(vec![T::U(1), T::A(vec![T::S("id"), T::A(vec![]), T::A(vec![])]), T::A(vec![math("InlineMath", "x+y")])])),
        node("Para", T::A(vec![node("Emph", T::A(vec![math("InlineMath", "x+y")]))])),
    ]);
    let mut r = FragmentRenderer::new(config(), String::new(), String::new());
    let fin = r.walk_and_create_final_node(&mut d).unwrap();
    assert_eq!(r.fragments.len(), 2);
    assert_eq!(r.fragments[0].refs.len(), 1);
    assert_eq!(r.fragments[1].refs.len(), 1);
    let (src, _) = r.generate_latex_with_line_mappings().unwrap();
    assert_eq!(src, "\n$\\large{x+y}$\n\n$\\emph{x+y}$\n\n");
    for f in &r.fragments {
        rewrite_refs(&mut d, f, "<img src=\"#svgView\">");
    }
    rewrite_node(&mut d, NodeRef::Block(fin), "<script></script>");
    let root_blocks = items(&d, field_index(&d, 0, "blocks").unwrap());
    assert_eq!(root_blocks.len(), 3);
    assert_eq!(raw_html(&d, root_blocks[2], "RawBlock").as_deref(), Some("<script></script>"));
    assert_eq!(count_raw_inline(&d, 0), 2);
}

#[test]
fn equal_math_in_one_style_is_one_fragment() {
    let mut d = doc(vec![node(
        "Para",
        T::A(vec![math("InlineMath", "x"), node("Strikeout", T::A(vec![math("InlineMath", " x ")]))]),
    )]);
    let mut r = FragmentRenderer::new(config(), String::new(), String::new());
    r.walk_and_create_final_node(&mut d).unwrap();
    assert_eq!(r.fragments.len(), 1);
    assert_eq!(r.fragments[0].refs.len(), 2);
    rewrite_refs(&mut d, &r.fragments[0], "<img>");
    assert_eq!(count_raw_inline(&d, 0), 2);
}

#[test]
fn display_markers_and_raw_blocks() {
    let d = doc(vec![
        node("Para", T::A(vec![
            math("DisplayMath", "a"),
            math("DisplayMath", "  %raw\\x"),
            math("DisplayMath", "%dontshow\\def\\y{1}"),
        ])),
        node("RawBlock", T::A(vec![T::S("tex"), T::S("\\z")])),
        node("RawBlock", T::A(vec![T::S("tex"), T::S(" %dontshow\\w")])),
        node("RawBlock", T::A(vec![T::S("html"), T::S("<b>")])),
    ]);
    let ms = collect_math(&d).unwrap();
    let kinds: Vec<&str> = ms
        .iter()
        .map(|m| match m.kind {
            FragmentKind::InlineMath(_) => "inline",
            FragmentKind::DisplayMath => "display",
            FragmentKind::RawBlock => "raw",
            FragmentKind::DontShow => "dontshow",
        })
        .collect();
    assert_eq!(kinds, vec!["display", "raw", "dontshow", "raw", "dontshow"]);
    assert!(matches!(ms[0].node_ref, NodeRef::Inline(_)));
    assert!(matches!(ms[3].node_ref, NodeRef::Block(_)));
}

#[test]
fn math_in_tables_lists_and_quotes_is_found() {
    let cell = |src: &'static str| {
        T::A(vec![T::A(vec![]), T::U(1), T::U(1), T::U(1), T::A(vec![node("Plain", T::A(vec![math("InlineMath", src)]))])])
    };
    let row = |src: &'static str| T::A(vec![T::A(vec![]), T::A(vec![cell(src)])]);
    let d = doc(vec![
        node("Table", T::A(vec![
            T::A(vec![]),
            T::A(vec![T::A(vec![]), T::A(vec![node("Para", T::A(vec![math("InlineMath", "cap")]))])]),
            T::A(vec![]),
            T::A(vec![T::A(vec![]), T::A(vec![row("head")])]),
            T::A(vec![T::A(vec![T::A(vec![]), T::U(0), T::A(vec![]), T::A(vec![row("body")])])]),
            T::A(vec![T::A(vec![]), T::A(vec![row("foot")])]),
        ])),
        node("BulletList", T::A(vec![T::A(vec![node("Plain", T::A(vec![math("InlineMath", "item")]))])])),
        node("BlockQuote", T::A(vec![node("Para", T::A(vec![math("InlineMath", "q")]))])),
    ]);
    let ms = collect_math(&d).unwrap();
    let srcs: Vec<&str> = ms.iter().map(|m| m.src.as_str()).collect();
    assert_eq!(srcs, vec!["cap", "head", "body", "foot", "item", "q"]);
}

#[test]
fn malformed_document_fails() {
    let d = doc(vec![node("Para", T::S("not a list"))]);
    assert!(collect_math(&d).is_err());
    let d = doc(vec![T::O(vec![("c", T::A(vec![]))])]);
    assert!(collect_math(&d).is_err());
    let d = doc(vec![node("Para", T::A(vec![node("Math", T::A(vec![T::O(vec![("t", T::S("Other"))]), T::S("x")]))]))]);
    assert!(collect_math(&d).is_err());
    let d = Document { nodes: vec![Json::Object(vec![])] };
    assert!(collect_math(&d).is_err());
}

#[test]
fn document_without_math_has_no_fragments() {
    let mut d = doc(vec![node("Para", T::A(vec![node("Str", T::S("hello"))]))]);
    let mut r = FragmentRenderer::new(config(), String::new(), String::new());
    let fin = r.walk_and_create_final_node(&mut d).unwrap();
    assert!(r.fragments.is_empty());
    assert_eq!(fin, d.nodes.len() - 1);
}

#[test]
fn inline_images_sit_side_by_side_and_display_images_stack() {
    let imgs = vec!["<img a>".to_string(), "<img b>".to_string()];
    assert_eq!(fragment_html(true, &imgs), "<img a><img b>");
    assert_eq!(
        fragment_html(false, &imgs),
        "<div class=\"jl-display-div\" style=\"text-align:center;\"><img a><br><img b></div>"
    );
    assert_eq!(join_texts(&vec![], ","), "");
    assert_eq!(join_texts(&vec!["x".to_string()], ","), "x");
}
