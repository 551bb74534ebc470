//! Processing a model by its kind, and gathering the results of many models.

use vstd::prelude::*;
use crate::mdl::{mdl_fits, mdl_output, mdl_result, process_mdl};
use crate::mdx::{mdx_output, mdx_result, process_mdx};
use crate::model::{is_mdx, is_mdx_ext, ModelPath, ModelPathView};
use crate::outcome::{changes_view, opt_bytes, strings_view, FileOutcome, FileResult, FileResultView};
use crate::text::{chars_of, string_of, trim_char, trim_chars};
use crate::texture::{Options, OptionsView, TextureChange};

verus! {

/// What processing an MDX file of these bytes yields.
pub open spec fn mdx_outcome(bytes: Seq<u8>, m: ModelPathView, o: OptionsView, write: bool) -> Option<(FileResultView, Option<Seq<u8>>)> {
    Some((mdx_result(bytes, m, o, write), mdx_output(bytes, m, o, write)))
}

/// What processing an MDL file of these bytes yields: none exactly where the
/// decoder would not take the bytes or the encoder the text to write back.
pub open spec fn mdl_outcome(bytes: Seq<u8>, m: ModelPathView, o: OptionsView, write: bool) -> Option<(FileResultView, Option<Seq<u8>>)> {
    if mdl_fits(bytes, m, o, write) {
        Some((mdl_result(bytes, m, o), mdl_output(bytes, m, o, write)))
    } else {
        None
    }
}

/// What processing a model file of these bytes yields: as MDX where its
/// extension is `mdx` in any ASCII case, as MDL text otherwise (`mdl`, any
/// other extension, or none).
pub open spec fn file_outcome(bytes: Seq<u8>, m: ModelPathView, o: OptionsView, write: bool) -> Option<(FileResultView, Option<Seq<u8>>)> {
    if is_mdx_ext(m) {
        mdx_outcome(bytes, m, o, write)
    } else {
        mdl_outcome(bytes, m, o, write)
    }
}

/// Processes one model file whose bytes were read: as MDX or as MDL by its
/// extension.  With `write` set, the outcome carries the bytes to write back
/// when some path changed.  Gives `None` only for an MDL file that the
/// decoder would not take, or whose text to write back the encoder would not.
pub fn process_file(model: &ModelPath, bytes: Vec<u8>, opts: &Options, write: bool) -> (r: Option<FileOutcome>)
    ensures
        match r {
            Some(out) => file_outcome(bytes@, model@, opts@, write) == Some((out.result@, opt_bytes(out.output))),
            None => file_outcome(bytes@, model@, opts@, write) is None,
        },
{
    if is_mdx(model) {
        Some(process_mdx(bytes, model, opts, write))
    } else {
        process_mdl(bytes.as_slice(), model, opts, write)
    }
}

/// A path as the user handed it in, without the quotes around it.
pub fn trim_quotes(raw: &str) -> (r: String)
    ensures
        r@ == trim_char(raw@, '"'),
{
    let c = chars_of(raw);
    let t = trim_chars(&c, '"');
    string_of(&t)
}

/// The textures of several models, as previewed.
pub struct PreviewResult {
    pub changes: Vec<TextureChange>,
    pub warnings: Vec<String>,
}

/// The textures of several models, as rewritten, with the number of model
/// files that changed.
pub struct ApplyResult {
    pub changed_files: usize,
    pub changes: Vec<TextureChange>,
    pub warnings: Vec<String>,
}

fn append_changes(v: &mut Vec<TextureChange>, w: Vec<TextureChange>)
    ensures
        changes_view(final(v)@) == changes_view(old(v)@) + changes_view(w@),
{
    let mut w = w;
    let ghost wv = w@;
    v.append(&mut w);
    assert(changes_view(v@) =~= changes_view(old(v)@) + changes_view(wv));
}

fn append_warnings(v: &mut Vec<String>, w: Vec<String>)
    ensures
        strings_view(final(v)@) == strings_view(old(v)@) + strings_view(w@),
{
    let mut w = w;
    let ghost wv = w@;
    v.append(&mut w);
    assert(strings_view(v@) =~= strings_view(old(v)@) + strings_view(wv));
}

impl PreviewResult {
    pub fn new() -> (r: PreviewResult)
        ensures
            r.changes@.len() == 0,
            r.warnings@.len() == 0,
    {
        PreviewResult { changes: Vec::new(), warnings: Vec::new() }
    }

    /// Adds the result of one more model.
    pub fn absorb(&mut self, r: FileResult)
        ensures
            changes_view(final(self).changes@) == changes_view(old(self).changes@) + r@.changes,
            strings_view(final(self).warnings@) == strings_view(old(self).warnings@) + r@.warnings,
    {
        append_changes(&mut self.changes, r.changes);
        append_warnings(&mut self.warnings, r.warnings);
    }
}

impl ApplyResult {
    pub fn new() -> (r: ApplyResult)
        ensures
            r.changed_files == 0,
            r.changes@.len() == 0,
            r.warnings@.len() == 0,
    {
        ApplyResult { changed_files: 0, changes: Vec::new(), warnings: Vec::new() }
    }

    /// Adds the result of one more model, counting it when it changed.
    pub fn absorb(&mut self, r: FileResult)
        requires
            old(self).changed_files < usize::MAX,
        ensures
            final(self).changed_files == old(self).changed_files + if r.changed { 1usize } else { 0usize },
            changes_view(final(self).changes@) == changes_view(old(self).changes@) + r@.changes,
            strings_view(final(self).warnings@) == strings_view(old(self).warnings@) + r@.warnings,
    {
        if r.changed {
            self.changed_files = self.changed_files + 1;
        }
        append_changes(&mut self.changes, r.changes);
        append_warnings(&mut self.warnings, r.warnings);
    }
}

} // verus!
