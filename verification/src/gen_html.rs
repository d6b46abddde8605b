//! The rendered form of one content item: a file name and its HTML
//! text. Template rendering itself happens outside the library; this
//! type only carries its result to the file writer.

use vstd::prelude::*;

verus! {

/// One rendered page: where to write it and what to write.
#[derive(Debug)]
pub struct PostHtml {
    filename: String,
    html: String,
}

impl PostHtml {
    /// The file name the page belongs in.
    pub closed spec fn spec_filename(self) -> Seq<char> {
        self.filename@
    }

    /// The page's HTML text.
    pub closed spec fn spec_html(self) -> Seq<char> {
        self.html@
    }

    /// Bundles a rendered page.
    pub fn new(filename: String, html: String) -> (r: PostHtml)
        ensures
            r.spec_filename() == filename@,
            r.spec_html() == html@,
    {
        PostHtml { filename, html }
    }

    /// The file the page belongs in.
    pub fn filename(&self) -> (r: &String)
        ensures
            r@ == self.spec_filename(),
    {
        &self.filename
    }

    /// The page's HTML text.
    pub fn html(&self) -> (r: &String)
        ensures
            r@ == self.spec_html(),
    {
        &self.html
    }
}

} // verus!
