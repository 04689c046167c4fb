//! One filesystem object observed during traversal: its final path
//! segment, its full slash-separated path from the traversal root, and
//! whether it is a directory.
use vstd::prelude::*;

verus! {

pub struct Entry {
    pub name: String,
    pub path: String,
    pub is_directory: bool,
}

pub ghost struct EntryView {
    pub name: Seq<char>,
    pub path: Seq<char>,
    pub is_directory: bool,
}

impl View for Entry {
    type V = EntryView;

    open spec fn view(&self) -> EntryView {
        EntryView { name: self.name@, path: self.path@, is_directory: self.is_directory }
    }
}

pub open spec fn entry_views(es: Seq<Entry>) -> Seq<EntryView> {
    es.map_values(|e: Entry| e@)
}

} // verus!
