use vstd::prelude::*;
use scraper::{Html, Selector};

verus! {

#[verifier::external_type_specification]
#[verifier::external_body]
pub struct ExHtml(Html);

#[verifier::external_type_specification]
#[verifier::external_body]
pub struct ExSelector(Selector);

/// Whether `scraper::Selector::parse` accepts `selector`.
pub uninterp spec fn selector_accepted(selector: Seq<char>) -> bool;

/// The text of each element of `document` that `selector` matches, in
/// document order.
pub uninterp spec fn selected_texts(document: Seq<char>, selector: Seq<char>) -> Seq<Seq<char>>;

/// The value of attribute `attr` of each element of `document` that
/// `selector` matches, in document order.
pub uninterp spec fn selected_attrs(document: Seq<char>, selector: Seq<char>, attr: Seq<char>) -> Seq<
    Option<Seq<char>>,
>;

/// The HTML of each element of `document` that `selector` matches, in
/// document order.
pub uninterp spec fn selected_html(document: Seq<char>, selector: Seq<char>) -> Seq<Seq<char>>;

/// For each element of `document` that `outer` matches, in document order,
/// the text of the first element below it that `inner` matches.
pub uninterp spec fn first_inner_texts(document: Seq<char>, outer: Seq<char>, inner: Seq<char>) -> Seq<
    Option<Seq<char>>,
>;

/// An HTML document, parsed once, with the text it was parsed from.
pub(crate) struct Document {
    html: Html,
    source: String,
}

impl View for Document {
    type V = Seq<char>;

    closed spec fn view(&self) -> Seq<char> {
        self.source@
    }
}

/// A CSS selector that scraper accepted, with its text.
pub(crate) struct Query {
    selector: Selector,
    source: String,
}

impl View for Query {
    type V = Seq<char>;

    closed spec fn view(&self) -> Seq<char> {
        self.source@
    }
}

impl Query {
    /// `scraper::Selector::parse`: `Some` exactly where scraper accepts the
    /// selector.
    #[verifier::external_body]
    pub(crate) fn parse(source: &str) -> (res: Option<Query>)
        ensures
            res is Some <==> selector_accepted(source@),
            res matches Some(q) ==> q@ == source@,
    {
        Selector::parse(source).ok().map(|selector| Query { selector, source: source.to_string() })
    }
}

impl Document {
    /// `scraper::Html::parse_document`; the document keeps the text it was
    /// parsed from, which the selections below are stated over.
    #[verifier::external_body]
    pub(crate) fn parse(body: &str) -> (doc: Document)
        ensures
            doc@ == body@,
    {
        Document { html: Html::parse_document(body), source: body.to_string() }
    }

    /// `Html::select`, then `ElementRef::text` of each match collected into a
    /// `String`. Nothing is stated of the texts beyond their name.
    #[verifier::external_body]
    pub(crate) fn select_texts(&self, query: &Query) -> (res: Vec<String>)
        ensures
            res.deep_view() == selected_texts(self@, query@),
    {
        let mut res = Vec::new();
        for element in self.html.select(&query.selector) {
            res.push(element.text().collect::<String>());
        }
        res
    }

    /// `Html::select`, then `ElementRef::attr` of each match.
    #[verifier::external_body]
    pub(crate) fn select_attrs(&self, query: &Query, attr: &str) -> (res: Vec<Option<String>>)
        ensures
            res.deep_view() == selected_attrs(self@, query@, attr@),
    {
        let mut res = Vec::new();
        for element in self.html.select(&query.selector) {
            res.push(element.attr(attr).map(|value| value.to_string()));
        }
        res
    }

    /// `Html::select`, then `ElementRef::html` of each match.
    #[verifier::external_body]
    pub(crate) fn select_html(&self, query: &Query) -> (res: Vec<String>)
        ensures
            res.deep_view() == selected_html(self@, query@),
    {
        let mut res = Vec::new();
        for element in self.html.select(&query.selector) {
            res.push(element.html());
        }
        res
    }

    /// `Html::select` with `outer`, then, below each match, `ElementRef::select`
    /// with `inner` and the text of its first match. The source walks the same
    /// matches of `outer` as `select_texts` does, so there is one entry for each.
    #[verifier::external_body]
    pub(crate) fn select_first_inner_texts(&self, outer: &Query, inner: &Query) -> (res: Vec<
        Option<String>,
    >)
        ensures
            res.deep_view() == first_inner_texts(self@, outer@, inner@),
            res@.len() == selected_texts(self@, outer@).len(),
    {
        let mut res = Vec::new();
        for element in self.html.select(&outer.selector) {
            res.push(element.select(&inner.selector).next().map(|e| e.text().collect::<String>()));
        }
        res
    }
}

} // verus!
