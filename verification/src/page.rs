//! HTML documents, through the `scraper` crate. An element is known by the
//! path that reached it: the document text, then for each selection the
//! selector and the position of the element among its matches.
use vstd::prelude::*;

verus! {

#[verifier::external_type_specification]
#[verifier::external_body]
pub struct ExHtml(scraper::Html);

#[verifier::external_type_specification]
#[verifier::external_body]
pub struct ExSelector(scraper::Selector);

#[verifier::external_type_specification]
#[verifier::external_body]
pub struct ExElementRef<'a>(scraper::ElementRef<'a>);

/// How an element was reached: from the document parsed from `source`, the
/// `steps[k].1`-th match (0-based, in the order scraper yields them) of selector `steps[k].0`,
/// each step selecting inside the element the previous one reached.
pub struct NodePath {
    pub source: Seq<char>,
    pub steps: Seq<(Seq<char>, nat)>,
}

/// The element reached by going one step further from `p`.
pub open spec fn step(p: NodePath, selector: Seq<char>, i: nat) -> NodePath {
    NodePath { source: p.source, steps: p.steps.push((selector, i)) }
}

/// The element that `selector` matches `i`-th in the document parsed from `source`.
pub open spec fn doc_step(source: Seq<char>, selector: Seq<char>, i: nat) -> NodePath {
    NodePath { source, steps: seq![(selector, i)] }
}

/// Whether `scraper::Selector::parse` accepts `text`.
pub uninterp spec fn selector_parses(text: Seq<char>) -> bool;

/// How many elements `scraper::Html::select` yields for `selector` in the
/// document parsed from `source`.
pub uninterp spec fn document_matches(source: Seq<char>, selector: Seq<char>) -> nat;

/// How many elements `scraper::ElementRef::select` yields for `selector`
/// below the element `e`.
pub uninterp spec fn element_matches(e: NodePath, selector: Seq<char>) -> nat;

/// What `scraper::ElementRef::inner_html` gives for the element `e`.
pub uninterp spec fn element_inner_html(e: NodePath) -> Seq<char>;

/// What `scraper::ElementRef::attr` gives for attribute `name` of the element `e`.
pub uninterp spec fn element_attr(e: NodePath, name: Seq<char>) -> Option<Seq<char>>;

/// A parsed HTML document and the text it was parsed from.
pub struct Document {
    html: scraper::Html,
    source: Ghost<Seq<char>>,
}

impl View for Document {
    type V = Seq<char>;

    closed spec fn view(&self) -> Seq<char> {
        self.source@
    }
}

/// A parsed CSS selector and its text.
pub struct Css {
    sel: scraper::Selector,
    text: Ghost<Seq<char>>,
}

impl View for Css {
    type V = Seq<char>;

    closed spec fn view(&self) -> Seq<char> {
        self.text@
    }
}

/// An element of a document and the path that reached it.
pub struct Element<'a> {
    node: scraper::ElementRef<'a>,
    path: Ghost<NodePath>,
}

impl<'a> View for Element<'a> {
    type V = NodePath;

    closed spec fn view(&self) -> NodePath {
        self.path@
    }
}

impl Document {
    /// `scraper::Html::parse_document`; parsing never fails.
    #[verifier::external_body]
    pub(crate) fn parse(text: &str) -> (d: Document)
        ensures
            d@ == text@,
    {
        Document { html: scraper::Html::parse_document(text), source: Ghost(text@) }
    }

    /// `scraper::Html::select`: the matches of `css`, in the order in which the
    /// parser created their nodes.
    #[verifier::external_body]
    pub(crate) fn select<'a>(&'a self, css: &Css) -> (r: Vec<Element<'a>>)
        ensures
            r.len() == document_matches(self@, css@),
            forall|i: int| 0 <= i < r.len() ==> (#[trigger] r[i])@ == doc_step(self@, css@, i as nat),
    {
        self.html.select(&css.sel).enumerate().map(
            |(i, node)| Element { node, path: Ghost(doc_step(self@, css@, i as nat)) },
        ).collect()
    }
}

impl Css {
    /// `scraper::Selector::parse`, `None` where it reports an error.
    #[verifier::external_body]
    pub(crate) fn parse(text: &str) -> (r: Option<Css>)
        ensures
            r is Some <==> selector_parses(text@),
            r matches Some(c) ==> c@ == text@,
    {
        match scraper::Selector::parse(text) {
            Ok(sel) => Some(Css { sel, text: Ghost(text@) }),
            Err(_) => None,
        }
    }
}

impl<'a> Element<'a> {
    /// `scraper::ElementRef::select`: the matches of `css` below this element,
    /// in tree order.
    #[verifier::external_body]
    pub(crate) fn select(&self, css: &Css) -> (r: Vec<Element<'a>>)
        ensures
            r.len() == element_matches(self@, css@),
            forall|i: int| 0 <= i < r.len() ==> (#[trigger] r[i])@ == step(self@, css@, i as nat),
    {
        self.node.select(&css.sel).enumerate().map(
            |(i, node)| Element { node, path: Ghost(step(self@, css@, i as nat)) },
        ).collect()
    }

    /// `scraper::ElementRef::inner_html`.
    #[verifier::external_body]
    pub(crate) fn inner_html(&self) -> (s: String)
        ensures
            s@ == element_inner_html(self@),
    {
        self.node.inner_html()
    }

    /// `scraper::ElementRef::attr`.
    #[verifier::external_body]
    pub(crate) fn attr(&self, name: &str) -> (v: Option<String>)
        ensures
            v.deep_view() == element_attr(self@, name@),
    {
        self.node.attr(name).map(|v| v.to_string())
    }
}

} // verus!
