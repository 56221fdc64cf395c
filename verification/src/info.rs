use vstd::prelude::*;

verus! {

/// General document metadata such as title and author. Every field starts
/// unset; a writer omits unset fields from the output.
#[derive(Debug)]
pub struct Info {
    /// The title of the document.
    pub title: Option<String>,
    /// The author(s) of the document; no prescribed format.
    pub author: Option<String>,
    /// The subject of the document.
    pub subject: Option<String>,
    /// Keywords for the document, conventionally comma separated.
    pub keywords: Option<String>,
}

impl Info {
    /// Create a new info block with all metadata unset.
    pub fn new() -> (r: Info)
        ensures
            r.title is None,
            r.author is None,
            r.subject is None,
            r.keywords is None,
    {
        Info { title: None, author: None, subject: None, keywords: None }
    }

    /// Set the title, leaving the other fields as they were.
    pub fn title(&mut self, title: String)
        ensures
            final(self).title matches Some(t) && t@ == title@,
            final(self).author == old(self).author,
            final(self).subject == old(self).subject,
            final(self).keywords == old(self).keywords,
    {
        self.title = Some(title);
    }

    /// Set the author, leaving the other fields as they were.
    pub fn author(&mut self, author: String)
        ensures
            final(self).author matches Some(a) && a@ == author@,
            final(self).title == old(self).title,
            final(self).subject == old(self).subject,
            final(self).keywords == old(self).keywords,
    {
        self.author = Some(author);
    }

    /// Set the subject, leaving the other fields as they were.
    pub fn subject(&mut self, subject: String)
        ensures
            final(self).subject matches Some(s) && s@ == subject@,
            final(self).title == old(self).title,
            final(self).author == old(self).author,
            final(self).keywords == old(self).keywords,
    {
        self.subject = Some(subject);
    }

    /// Set the keywords, leaving the other fields as they were.
    pub fn keywords(&mut self, keywords: String)
        ensures
            final(self).keywords matches Some(k) && k@ == keywords@,
            final(self).title == old(self).title,
            final(self).author == old(self).author,
            final(self).subject == old(self).subject,
    {
        self.keywords = Some(keywords);
    }
}

} // verus!
