//! What the index asks of the values it is built from.

use vstd::prelude::*;

verus! {

/// A value that can be indexed: it has an identifier and a text, and gives
/// the same two whenever it is asked.
pub trait SearchableElement {
    /// The text that queries are matched against.
    spec fn text(&self) -> Seq<char>;

    /// The identifier under which the text is stored.
    spec fn ident(&self) -> u32;

    fn as_searchable_text(&self) -> (text: String)
        ensures
            text@ == self.text(),
    ;

    fn get_id(&self) -> (id: u32)
        ensures
            id == self.ident(),
    ;
}

/// The plainest element: an identifier and a text, held as they are.
pub struct MockEntity {
    pub id: u32,
    pub txt: String,
}

impl SearchableElement for MockEntity {
    open spec fn text(&self) -> Seq<char> {
        self.txt@
    }

    open spec fn ident(&self) -> u32 {
        self.id
    }

    fn as_searchable_text(&self) -> (text: String) {
        self.txt.clone()
    }

    fn get_id(&self) -> (id: u32) {
        self.id
    }
}

/// The identifier and text of every element, in the order of the elements.
pub open spec fn pairs_of<T: SearchableElement>(elements: Seq<T>) -> Seq<(u32, Seq<char>)> {
    Seq::new(elements.len(), |i: int| (elements[i].ident(), elements[i].text()))
}

} // verus!
