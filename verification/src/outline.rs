use vstd::prelude::*;

verus! {

/// One bookmark of the document outline: a title, the page it points to,
/// its style, and its place in the bookmark tree, recorded as indices into
/// the outline's entry list.
#[derive(Debug)]
pub struct OutlineEntry {
    /// The entry's own stable index, handed out in creation order.
    pub index: usize,
    /// The index of the page the bookmark navigates to.
    pub page_index: usize,
    /// The bookmark's title.
    pub title: String,
    /// Whether a reader shows the title in italics.
    pub italic: bool,
    /// Whether a reader shows the title in bold.
    pub bold: bool,
    /// The entry's parent, as a position in the outline's entry list.
    pub parent: Option<usize>,
    /// The entry's children, as positions in the outline's entry list,
    /// oldest first.
    pub children: Vec<usize>,
}

impl OutlineEntry {
    /// Show this bookmark's title in bold.
    pub fn bolded(&mut self)
        ensures
            final(self).bold,
            final(self).italic == old(self).italic,
            final(self).index == old(self).index,
            final(self).page_index == old(self).page_index,
            final(self).title@ == old(self).title@,
            final(self).parent == old(self).parent,
            final(self).children@ == old(self).children@,
    {
        self.bold = true;
    }

    /// Show this bookmark's title in italics.
    pub fn italicized(&mut self)
        ensures
            final(self).italic,
            final(self).bold == old(self).bold,
            final(self).index == old(self).index,
            final(self).page_index == old(self).page_index,
            final(self).title@ == old(self).title@,
            final(self).parent == old(self).parent,
            final(self).children@ == old(self).children@,
    {
        self.italic = true;
    }
}

/// The document outline: a tree of bookmarks, held flat in one entry list.
/// Entries whose parent is unset are the tree's roots; every other entry
/// sits in its parent's child list.
#[derive(Debug)]
pub struct Outline {
    /// Every bookmark of the outline, in creation order.
    pub entries: Vec<OutlineEntry>,
    /// The next free stable index.
    pub next_index: usize,
}

impl Outline {
    /// Outline well-formedness: parent and child positions stay within the
    /// entry list.
    pub open spec fn wf(self) -> bool {
        &&& forall|i: int|
            0 <= i < self.entries@.len() ==> ((#[trigger] self.entries@[i]).parent matches Some(p)
                ==> p < self.entries@.len())
        &&& forall|i: int, j: int|
            0 <= i < self.entries@.len() && 0 <= j < self.entries@[i].children@.len()
                ==> #[trigger] self.entries@[i].children@[j] < self.entries@.len()
    }

    /// An empty outline.
    pub fn new() -> (r: Outline)
        ensures
            r.wf(),
            r.entries@.len() == 0,
            r.next_index_spec() == 0,
    {
        Outline { entries: Vec::new(), next_index: 0 }
    }

    /// The next stable index the outline will hand out.
    pub open spec fn next_index_spec(self) -> int {
        self.next_index as int
    }

    /// Add a bookmark pointing at a page, optionally under a parent given
    /// as a position in the entry list. The new entry takes the next stable
    /// index, starts unstyled, and is appended to the entry list; when a
    /// parent is given, the new entry's position is appended to that
    /// parent's child list. Returns the new entry's position.
    pub fn add_bookmark(&mut self, parent: Option<usize>, page_index: usize, title: String) -> (r:
        usize)
        requires
            old(self).wf(),
            parent matches Some(p) ==> p < old(self).entries@.len(),
            old(self).next_index_spec() < usize::MAX,
        ensures
            final(self).wf(),
            r == old(self).entries@.len(),
            final(self).entries@.len() == old(self).entries@.len() + 1,
            ({
                let e = final(self).entries@.last();
                &&& e.index == old(self).next_index_spec()
                &&& e.page_index == page_index
                &&& e.title@ == title@
                &&& !e.italic && !e.bold
                &&& e.parent == parent
                &&& e.children@.len() == 0
            }),
            final(self).next_index_spec() == old(self).next_index_spec() + 1,
            forall|i: int|
                0 <= i < old(self).entries@.len() && Some(i as usize) != parent
                    ==> final(self).entries@[i].index == old(self).entries@[i].index
                    && final(self).entries@[i].children@ == old(self).entries@[i].children@,
            parent matches Some(p) ==> final(self).entries@[p as int].children@ == old(
                self,
            ).entries@[p as int].children@.push(old(self).entries@.len() as usize),
    {
        let pos = self.entries.len();
        let entry = OutlineEntry {
            index: self.next_index,
            page_index,
            title,
            italic: false,
            bold: false,
            parent,
            children: Vec::new(),
        };
        self.next_index = self.next_index + 1;
        self.entries.push(entry);
        match parent {
            Some(p) => {
                let parent_entry = &mut self.entries[p];
                parent_entry.children.push(pos);
            },
            None => {
            },
        }
        pos
    }

    /// Hand out the next stable index without creating an entry, for
    /// callers that number outline objects themselves.
    pub fn generate_next_index(&mut self) -> (r: usize)
        requires
            old(self).next_index_spec() < usize::MAX,
        ensures
            r == old(self).next_index_spec(),
            final(self).next_index_spec() == old(self).next_index_spec() + 1,
            final(self).entries@ == old(self).entries@,
    {
        let ret = self.next_index;
        self.next_index = self.next_index + 1;
        ret
    }
}

} // verus!
