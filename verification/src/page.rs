use vstd::prelude::*;

verus! {

/// The markup that the document renderer produces for a given source text.
/// The renderer is deterministic: the output depends on the source alone.
pub uninterp spec fn render_of(source: Seq<char>) -> Seq<char>;

/// One document: its source text paired with the markup rendered from it.
/// The markup is computed once, at construction, and never changes.
pub struct Page {
    markdown: String,
    html: String,
}

/// Relies on pulldown_cmark::Parser::new and pulldown_cmark::html::push_html:
/// parsing the source with the default options and writing the events as HTML
/// is a pure computation over the source text.
#[verifier::external_body]
fn render_markdown(source: &str) -> (r: String)
    ensures
        r@ == render_of(source@),
{
    let parser = pulldown_cmark::Parser::new(source);
    let mut out = String::new();
    pulldown_cmark::html::push_html(&mut out, parser);
    out
}

impl Page {
    /// The source text this page was built from.
    pub closed spec fn source(self) -> Seq<char> {
        self.markdown@
    }

    /// The markup stored for this page.
    pub closed spec fn rendered(self) -> Seq<char> {
        self.html@
    }

    /// The page's invariant: the stored markup is the renderer's output for
    /// the stored source.
    pub open spec fn wf(self) -> bool {
        self.rendered() == render_of(self.source())
    }

    /// Builds a page from source text, rendering it immediately.
    pub fn new(markdown: &str) -> (page: Self)
        ensures
            page.source() == markdown@,
            page.rendered() == render_of(markdown@),
            page.wf(),
    {
        let mut page = Self { markdown: markdown.to_owned(), html: String::new() };
        page.build();
        page
    }

    fn build(&mut self)
        ensures
            final(self).markdown == old(self).markdown,
            final(self).html@ == render_of(old(self).markdown@),
    {
        let html_output = render_markdown(self.markdown.as_str());
        self.html = html_output;
    }

    /// Returns the stored markup.
    pub fn get_html(&self) -> (html: &str)
        ensures
            html@ == self.rendered(),
    {
        self.html.as_str()
    }
}

/// Rendering is deterministic: two pages built from the same source text hold
/// the same markup.
pub proof fn lemma_rendering_deterministic(first: Page, second: Page)
    requires
        first.wf(),
        second.wf(),
        first.source() == second.source(),
    ensures
        first.rendered() == second.rendered(),
{
}

} // verus!
