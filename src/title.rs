use vstd::prelude::*;

verus! {

/// The inner HTML of the first `title` element of an HTML document, if it has one.
pub uninterp spec fn html_title(html: Seq<char>) -> Option<Seq<char>>;

/// Relies on `trpl::Html::parse`, `trpl::Html::select_first` and scraper's
/// `ElementRef::inner_html`: the inner HTML of the document's first `title` element. With
/// scraper's `deterministic` feature (see Cargo.toml) attributes are kept in source order, so
/// the result depends on the text alone; "title" is a valid selector, so the call does not
/// panic.
#[verifier::external_body]
fn first_title_html(html: &str) -> (r: Option<String>)
    ensures
        match r {
            Some(t) => html_title(html@) == Some(t@),
            None => html_title(html@).is_none(),
        },
{
    match trpl::Html::parse(html).select_first("title") {
        Some(element) => Some(element.inner_html()),
        None => None,
    }
}

/// The title of a fetched page, given the page's text: the inner HTML of its first `title`
/// element, or `None` when it has none.
pub fn page_title(html: &str) -> (r: Option<String>)
    ensures
        match r {
            Some(t) => html_title(html@) == Some(t@),
            None => html_title(html@).is_none(),
        },
{
    first_title_html(html)
}

} // verus!
