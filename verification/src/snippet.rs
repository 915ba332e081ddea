use vstd::prelude::*;

verus! {

/// A persisted command record: unique command text with an id and a creation
/// timestamp, both assigned by the store at insertion.
#[derive(Debug)]
pub struct Snippet {
    pub id: i32,
    pub command: String,
    pub created_at: String,
}

/// The mathematical value of a `Snippet`: its fields as plain values.
pub ghost struct SnippetView {
    pub id: int,
    pub command: Seq<char>,
    pub created_at: Seq<char>,
}

impl View for Snippet {
    type V = SnippetView;

    open spec fn view(&self) -> SnippetView {
        SnippetView { id: self.id as int, command: self.command@, created_at: self.created_at@ }
    }
}

/// The views of a sequence of snippets.
pub open spec fn views_of(s: Seq<Snippet>) -> Seq<SnippetView> {
    s.map_values(|sn: Snippet| sn@)
}

/// The command texts of a sequence of snippets.
pub open spec fn commands_of(s: Seq<Snippet>) -> Seq<Seq<char>> {
    s.map_values(|sn: Snippet| sn.command@)
}

} // verus!
