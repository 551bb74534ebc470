//! What processing one model yields.

use vstd::prelude::*;
use crate::texture::{ChangeView, TextureChange};

verus! {

/// The textures of one model and what became of them.
pub struct FileResult {
    /// Whether some texture path of the model changes.
    pub changed: bool,
    /// One record per texture reference, in the order of the file.
    pub changes: Vec<TextureChange>,
    /// Messages for the user, in the order they arose.
    pub warnings: Vec<String>,
}

pub struct FileResultView {
    pub changed: bool,
    pub changes: Seq<ChangeView>,
    pub warnings: Seq<Seq<char>>,
}

pub open spec fn changes_view(v: Seq<TextureChange>) -> Seq<ChangeView> {
    v.map_values(|c: TextureChange| c@)
}

pub open spec fn strings_view(v: Seq<String>) -> Seq<Seq<char>> {
    v.map_values(|s: String| s@)
}

impl View for FileResult {
    type V = FileResultView;

    open spec fn view(&self) -> FileResultView {
        FileResultView {
            changed: self.changed,
            changes: changes_view(self.changes@),
            warnings: strings_view(self.warnings@),
        }
    }
}

/// The result for one model, with the bytes to write back to its file when
/// the model is to be rewritten and some path changed.
pub struct FileOutcome {
    pub result: FileResult,
    pub output: Option<Vec<u8>>,
}

pub open spec fn opt_bytes(o: Option<Vec<u8>>) -> Option<Seq<u8>> {
    match o {
        Some(b) => Some(b@),
        None => None,
    }
}

/// Appends one change record, keeping the view in step.
pub fn push_change(v: &mut Vec<TextureChange>, c: TextureChange)
    ensures
        changes_view(final(v)@) == changes_view(old(v)@).push(c@),
{
    v.push(c);
    assert(changes_view(v@) =~= changes_view(old(v)@).push(c@));
}

/// Appends one message, keeping the view in step.
pub fn push_warning(v: &mut Vec<String>, w: String)
    ensures
        strings_view(final(v)@) == strings_view(old(v)@).push(w@),
{
    v.push(w);
    assert(strings_view(v@) =~= strings_view(old(v)@).push(w@));
}

} // verus!
