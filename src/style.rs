use std::rc::Rc;
use vstd::prelude::*;

verus! {

/// What `str::replace` returns: every non-overlapping occurrence of `pat` in `s`,
/// taken from the left, replaced by `with`. An empty pattern matches before each
/// character and at the end.
pub open spec fn replaced(s: Seq<char>, pat: Seq<char>, with: Seq<char>) -> Seq<char>
    decreases s.len(),
{
    if pat.len() == 0 {
        if s.len() == 0 {
            with
        } else {
            with + seq![s[0]] + replaced(s.drop_first(), pat, with)
        }
    } else if s.len() < pat.len() {
        s
    } else if s.subrange(0, pat.len() as int) == pat {
        with + replaced(s.subrange(pat.len() as int, s.len() as int), pat, with)
    } else {
        seq![s[0]] + replaced(s.drop_first(), pat, with)
    }
}

/// Relies on `str::replace`: leftmost non-overlapping matches of `pat` replaced
/// by `with` (see `replaced`).
#[verifier::external_body]
pub(crate) fn replace_all(s: &str, pat: &str, with: &str) -> (r: String)
    ensures
        r@ == replaced(s@, pat@, with@),
{
    s.replace(pat, with)
}

/// Relies on `Rc::clone`: the new pointer shares the value of the old one.
#[verifier::external_body]
fn share(p: &Rc<Style>) -> (r: Rc<Style>)
    ensures
        *r == **p,
{
    Rc::clone(p)
}

/// One formatting element that surrounds inline math.
#[derive(Clone, Copy, Debug, PartialEq, Eq, Structural)]
pub enum StyleElement {
    Header(u64),
    Quote,
    Strong,
    Emph,
}

/// The macro templates of the typesetting source. Each of them holds
/// `placeholder` where the text it wraps goes.
pub struct TemplateConfig {
    pub placeholder: String,
    /// Innermost template of inline math, under every style element.
    pub inline_math_inner: String,
    /// Outermost wrapper of inline math.
    pub inline_math: String,
    /// Wrapper of display math.
    pub display_math: String,
    /// One template per header level, level 1 first.
    pub header: Vec<String>,
    pub quote: String,
    pub strong: String,
    pub emph: String,
}

/// Formatting context of inline math: the base style, or a style with one more
/// element pushed on top of an earlier one. Styles are shared, never changed.
#[derive(Debug)]
pub enum Style {
    Plain,
    Fancy { base: Rc<Style>, this: StyleElement },
}

impl Style {
    /// The elements of the style, outermost (first pushed) first.
    pub open spec fn elems(self) -> Seq<StyleElement>
        decreases self,
    {
        match self {
            Style::Plain => Seq::empty(),
            Style::Fancy { base, this } => (*base).elems().push(this),
        }
    }

    /// Every element of the style has a template in `c`.
    pub open spec fn fits(self, c: TemplateConfig) -> bool {
        forall|i: int|
            0 <= i < self.elems().len() ==> element_fits(#[trigger] self.elems()[i], c)
    }

    /// The style with `new` pushed on top; `self` is kept as its base.
    pub fn push(self, new: StyleElement) -> (r: Style)
        ensures
            r.elems() == self.elems().push(new),
    {
        Style::Fancy { base: Rc::new(self), this: new }
    }

    /// A second handle on the same style; the elements are shared, not copied.
    pub fn duplicate(&self) -> (r: Style)
        ensures
            r == *self,
    {
        match self {
            Style::Plain => Style::Plain,
            Style::Fancy { base, this } => Style::Fancy { base: share(base), this: *this },
        }
    }

    /// Whether two styles hold the same elements in the same order.
    pub fn same_as(&self, other: &Style) -> (r: bool)
        ensures
            r == (self.elems() == other.elems()),
        decreases self,
    {
        match (self, other) {
            (Style::Plain, Style::Plain) => true,
            (Style::Fancy { base: b1, this: t1 }, Style::Fancy { base: b2, this: t2 }) => {
                if *t1 != *t2 {
                    proof {
                        assert(self.elems().last() != other.elems().last());
                    }
                    false
                } else {
                    let inner: &Style = &**b1;
                    let r = inner.same_as(&**b2);
                    proof {
                        if !r {
                            assert(self.elems().drop_last() =~= (**b1).elems());
                            assert(other.elems().drop_last() =~= (**b2).elems());
                        }
                    }
                    r
                }
            },
            (Style::Plain, Style::Fancy { .. }) => {
                assert(self.elems().len() != other.elems().len());
                false
            },
            (Style::Fancy { .. }, Style::Plain) => {
                assert(self.elems().len() != other.elems().len());
                false
            },
        }
    }

    /// Whether every element of the style has a template in `config`.
    pub fn fits_config(&self, config: &TemplateConfig) -> (r: bool)
        ensures
            r == self.fits(*config),
        decreases self,
    {
        match self {
            Style::Plain => true,
            Style::Fancy { base, this } => {
                let ghost e = self.elems();
                assert(e.drop_last() =~= (**base).elems());
                let ok = match this {
                    StyleElement::Header(level) => 1 <= *level && *level as usize <= config.header.len()
                        && *level <= config.header.len() as u64,
                    _ => true,
                };
                if !ok {
                    assert(!element_fits(e[e.len() - 1], *config));
                    return false;
                }
                let r = (**base).fits_config(config);
                proof {
                    if r {
                        assert forall|i: int| 0 <= i < e.len() implies element_fits(#[trigger] e[i], *config) by {
                            if i < e.len() - 1 {
                                assert(e[i] == (**base).elems()[i]);
                            }
                        }
                    } else {
                        let i = choose|i: int| 0 <= i < (**base).elems().len() && !element_fits(#[trigger] (**base).elems()[i], *config);
                        assert(e[i] == (**base).elems()[i]);
                    }
                }
                r
            },
        }
    }

    /// Expands the templates of the style, innermost first: each element's template
    /// gets the expansion of the style beneath it in place of the placeholder.
    pub fn template(&self, config: &TemplateConfig) -> (r: String)
        requires
            self.fits(*config),
        ensures
            r@ == style_template(self.elems(), *config),
        decreases self,
    {
        match self {
            Style::Plain => {
                assert(self.elems().len() == 0);
                config.inline_math_inner.clone()
            },
            Style::Fancy { base, this } => {
                assert(self.elems().drop_last() =~= (**base).elems());
                assert(self.elems().last() == *this);
                assert forall|i: int| 0 <= i < (**base).elems().len() implies element_fits(
                    #[trigger] (**base).elems()[i],
                    *config,
                ) by {
                    assert((**base).elems()[i] == self.elems()[i]);
                }
                let base_template = (**base).template(config);
                assert(element_fits(self.elems()[self.elems().len() - 1], *config));
                let this_template: &String = match this {
                    StyleElement::Header(level) => {
                        assert(1 <= *level <= config.header@.len());
                        let _n = config.header.len();
                        let idx: usize = (*level - 1) as usize;
                        &config.header[idx]
                    },
                    StyleElement::Quote => &config.quote,
                    StyleElement::Strong => &config.strong,
                    StyleElement::Emph => &config.emph,
                };
                assert(this_template@ == element_template(*this, *config));
                replace_all(this_template.as_str(), config.placeholder.as_str(), base_template.as_str())
            },
        }
    }
}

/// The element has a template: a header level is between 1 and the number of
/// header templates.
pub open spec fn element_fits(e: StyleElement, c: TemplateConfig) -> bool {
    match e {
        StyleElement::Header(level) => 1 <= level <= c.header@.len(),
        _ => true,
    }
}

/// The template of one style element.
pub open spec fn element_template(e: StyleElement, c: TemplateConfig) -> Seq<char> {
    match e {
        StyleElement::Header(level) => c.header@[level - 1]@,
        StyleElement::Quote => c.quote@,
        StyleElement::Strong => c.strong@,
        StyleElement::Emph => c.emph@,
    }
}

/// Template of a style with elements `elems` (outermost first).
pub open spec fn style_template(elems: Seq<StyleElement>, c: TemplateConfig) -> Seq<char>
    decreases elems.len(),
{
    if elems.len() == 0 {
        c.inline_math_inner@
    } else {
        replaced(
            element_template(elems.last(), c),
            c.placeholder@,
            style_template(elems.drop_last(), c),
        )
    }
}

/// Styles are ordered lists: pushing two different elements in the two orders
/// on any style gives two different styles.
pub proof fn lemma_push_order_matters(s: Style, a: StyleElement, b: StyleElement)
    requires
        a != b,
    ensures
        s.elems().push(a).push(b) != s.elems().push(b).push(a),
{
    assert(s.elems().push(a).push(b).last() == b);
    assert(s.elems().push(b).push(a).last() == a);
}

} // verus!
