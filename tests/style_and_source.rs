use justlatex::fragment::{FragmentKind, FragmentRenderer, LineRange, NodeRef};
use justlatex::style::{Style, StyleElement, TemplateConfig};
use justlatex::text::count_lines;

fn config() -> TemplateConfig {
    TemplateConfig {
        placeholder: "@".to_string(),
        inline_math_inner: "@".to_string(),
        inline_math: "$@$".to_string(),
        display_math: "\\[@\\]".to_string(),
        header: vec!["\\large{@}".to_string(), "\\normal{@}".to_string()],
        quote: "\\quote{@}".to_string(),
        strong: "\\bold{@}".to_string(),
        emph: "\\emph{@}".to_string(),
    }
}

#[test]
fn template_expands_innermost_first() {
    let c = config();
    let s = Style::Plain.push(StyleElement::Header(1)).push(StyleElement::Strong);
    assert_eq!(s.template(&c), "\\bold{\\large{@}}");
    assert_eq!(Style::Plain.template(&c), "@");
}

#[test]
fn push_order_gives_different_styles() {
    let c = config();
    let a = Style::Plain.push(StyleElement::Quote).push(StyleElement::Emph);
    let b = Style::Plain.push(StyleElement::Emph).push(StyleElement::Quote);
    assert!(!a.same_as(&b));
    assert!(a.same_as(&Style::Plain.push(StyleElement::Quote).push(StyleElement::Emph)));
    assert_ne!(a.template(&c), b.template(&c));
    assert_eq!(a.template(&c), "\\emph{\\quote{@}}");
    assert_eq!(b.template(&c), "\\quote{\\emph{@}}");
}

#[test]
fn header_level_out_of_templates_does_not_fit() {
    let c = config();
    assert!(Style::Plain.push(StyleElement::Header(2)).fits_config(&c));
    assert!(!Style::Plain.push(StyleElement::Header(3)).fits_config(&c));
    assert!(!Style::Plain.push(StyleElement::Header(0)).fits_config(&c));
}

#[test]
fn equal_inline_math_is_merged() {
    let mut r = FragmentRenderer::new(config(), String::new(), String::new());
    r.add_fragment(FragmentKind::InlineMath(Style::Plain), " x+y ", NodeRef::Inline(3));
    r.add_fragment(FragmentKind::InlineMath(Style::Plain), "x+y", NodeRef::Inline(7));
    r.add_fragment(FragmentKind::InlineMath(Style::Plain), "x+y\n", NodeRef::Inline(9));
    assert_eq!(r.fragments.len(), 1);
    assert_eq!(r.fragments[0].src, "x+y");
    assert_eq!(
        r.fragments[0].refs,
        vec![NodeRef::Inline(3), NodeRef::Inline(7), NodeRef::Inline(9)]
    );
}

#[test]
fn different_styles_are_not_merged() {
    let mut r = FragmentRenderer::new(config(), String::new(), String::new());
    let emph = Style::Plain.push(StyleElement::Emph);
    r.add_fragment(FragmentKind::InlineMath(Style::Plain), "x", NodeRef::Inline(1));
    r.add_fragment(FragmentKind::InlineMath(emph), "x", NodeRef::Inline(2));
    assert_eq!(r.fragments.len(), 2);
}

#[test]
fn display_and_raw_are_never_merged() {
    let mut r = FragmentRenderer::new(config(), String::new(), String::new());
    r.add_fragment(FragmentKind::DisplayMath, "x", NodeRef::Inline(1));
    r.add_fragment(FragmentKind::DisplayMath, "x", NodeRef::Inline(2));
    r.add_fragment(FragmentKind::RawBlock, "\\def\\a{1}", NodeRef::Block(3));
    r.add_fragment(FragmentKind::RawBlock, "\\def\\a{1}", NodeRef::Block(4));
    assert_eq!(r.fragments.len(), 4);
}

#[test]
fn source_and_line_ranges() {
    let mut r = FragmentRenderer::new(
        config(),
        "\\begin{document}\n\n\n".to_string(),
        "\\end{document}".to_string(),
    );
    r.add_fragment(
        FragmentKind::InlineMath(Style::Plain.push(StyleElement::Emph)),
        "a",
        NodeRef::Inline(1),
    );
    r.add_fragment(FragmentKind::DisplayMath, "b\nc", NodeRef::Inline(2));
    r.add_fragment(FragmentKind::RawBlock, "%raw\nd\ne\n\n", NodeRef::Block(3));
    let (src, lines) = r.generate_latex_with_line_mappings().unwrap();
    assert_eq!(
        src,
        "\\begin{document}\n$\\emph{a}$\n\n\\[b\nc\\]\n\n%raw\nd\ne\n\n\\end{document}"
    );
    assert_eq!(
        lines,
        vec![
            LineRange { start: 2, end: 3 },
            LineRange { start: 4, end: 6 },
            LineRange { start: 7, end: 10 },
        ]
    );
    for w in lines.windows(2) {
        assert_eq!(w[0].end + 1, w[1].start);
    }
}

#[test]
fn empty_preamble_starts_at_line_one() {
    let mut r = FragmentRenderer::new(config(), String::new(), String::new());
    r.add_fragment(FragmentKind::DisplayMath, "x", NodeRef::Inline(1));
    let (src, lines) = r.generate_latex_with_line_mappings().unwrap();
    assert_eq!(src, "\n\\[x\\]\n\n");
    assert_eq!(lines, vec![LineRange { start: 1, end: 2 }]);
}

#[test]
fn counting_lines() {
    assert_eq!(count_lines(""), 0);
    assert_eq!(count_lines("a"), 1);
    assert_eq!(count_lines("a\n\nb"), 3);
}
