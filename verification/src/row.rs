use vstd::prelude::*;

verus! {

/// One already-wrapped line, ready to render. `len` is the display width
/// in grapheme clusters (plus, for the first row of a wrapped buffer, the
/// column it continues from), never a byte count.
pub struct DisplayRow {
    pub content: String,
    pub len: usize,
}

/// The mathematical image of a `DisplayRow`: its text as a sequence of
/// characters, together with its display width.
pub struct RowModel {
    pub content: Seq<char>,
    pub len: nat,
}

impl View for DisplayRow {
    type V = RowModel;

    open spec fn view(&self) -> RowModel {
        RowModel { content: self.content@, len: self.len as nat }
    }
}

} // verus!
