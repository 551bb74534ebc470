//! A model file's path and the names derived from it.

use std::path::Path;
use vstd::prelude::*;
use crate::text::{
    chars_of, decimal, decimal_chars, eq_chars, extend_chars, has_suffix, last_index_chars,
    last_index_of, lower_chars, lower_seq, string_of, sub_chars,
};

verus! {

/// A model file's path, with the components that the standard library's
/// `Path` splits off it.
pub struct ModelPath {
    pub path: String,
    pub file_name: Option<String>,
    pub file_stem: Option<String>,
    pub extension: Option<String>,
    pub parent: Option<String>,
}

pub struct ModelPathView {
    pub path: Seq<char>,
    pub file_name: Option<Seq<char>>,
    pub file_stem: Option<Seq<char>>,
    pub extension: Option<Seq<char>>,
    pub parent: Option<Seq<char>>,
}

pub open spec fn opt_seq(o: Option<String>) -> Option<Seq<char>> {
    match o {
        Some(s) => Some(s@),
        None => None,
    }
}

impl View for ModelPath {
    type V = ModelPathView;

    open spec fn view(&self) -> ModelPathView {
        ModelPathView {
            path: self.path@,
            file_name: opt_seq(self.file_name),
            file_stem: opt_seq(self.file_stem),
            extension: opt_seq(self.extension),
            parent: opt_seq(self.parent),
        }
    }
}

/// `/` and `\` both separate components on some platform.
pub open spec fn is_separator(c: char) -> bool {
    c == '/' || c == '\\'
}

/// The last index below `n` that holds a separator.
pub open spec fn last_sep_before(p: Seq<char>, n: int) -> Option<int>
    decreases n,
{
    if n <= 0 {
        None
    } else if is_separator(p[n - 1]) {
        Some(n - 1)
    } else {
        last_sep_before(p, n - 1)
    }
}

/// The text after the path's last `/` or `\`.
pub open spec fn final_part(p: Seq<char>) -> Seq<char> {
    match last_sep_before(p, p.len() as int) {
        Some(k) => p.subrange(k + 1, p.len() as int),
        None => p,
    }
}

/// A single ordinary path component: not empty, without `/` or `\`, and
/// neither `.` nor `..`.
pub open spec fn is_plain_component(s: Seq<char>) -> bool {
    s.len() > 0 && !s.contains('/') && !s.contains('\\') && s != "."@ && s != ".."@
}

/// The path starts with two separators (a network or device path on some
/// platform).
pub open spec fn starts_with_two_separators(p: Seq<char>) -> bool {
    p.len() >= 2 && is_separator(p[0]) && is_separator(p[1])
}

/// The path ends in an ordinary file name, read the same on every platform:
/// the text after its last separator is a plain component without `:`, and
/// it does not start with two separators.
pub open spec fn names_final_part(p: Seq<char>) -> bool {
    is_plain_component(final_part(p)) && !final_part(p).contains(':') && !starts_with_two_separators(p)
}

/// A path that every platform splits alike: only `/` separates, no `:`
/// occurs, and it ends in an ordinary file name.
pub open spec fn is_portable(p: Seq<char>) -> bool {
    !p.contains('\\') && !p.contains(':') && names_final_part(p)
}

/// The parent of a portable path, where it is plain to read: the empty path
/// for a bare name, `/` for a name in the root, and otherwise the text before
/// the last `/`, where that text ends neither in `/` nor in `/.`.
pub open spec fn portable_parent(p: Seq<char>) -> Option<Seq<char>> {
    match last_sep_before(p, p.len() as int) {
        None => Some(Seq::empty()),
        Some(k) => if k == 0 {
            Some(seq!['/'])
        } else {
            let d = p.subrange(0, k);
            if d.last() != '/' && !has_suffix(d, "/."@) {
                Some(d)
            } else {
                None
            }
        },
    }
}

/// The path is made of `/` alone (the root, or nothing at all).
pub open spec fn only_slashes(p: Seq<char>) -> bool {
    forall|i: int| 0 <= i < p.len() ==> p[i] == '/'
}

/// The path has no `\` and does not start with two separators, and its final
/// component is `..`.
pub open spec fn ends_in_parent_dir(p: Seq<char>) -> bool {
    !p.contains('\\') && !starts_with_two_separators(p) && final_part(p) == ".."@
}

/// `Path::file_name`, the final component of the path.  The claims, read
/// from its documentation and that of `Path::components`, hold alike where `\`
/// separates components and where it does not: for a path that ends in an
/// ordinary file name the result is present, holds no `/`, and ends with the
/// text after the last separator; for a portable path it is exactly that
/// text; for the root (or the empty path) and for a path whose final component
/// is `..` there is none.  What it is for other paths depends on the platform
/// and is not claimed.
#[verifier::external_body]
fn path_file_name(path: &str) -> (name: Option<String>)
    ensures
        names_final_part(path@) ==> opt_seq(name) is Some,
        names_final_part(path@) ==> has_suffix(opt_seq(name).unwrap(), final_part(path@)),
        names_final_part(path@) ==> !opt_seq(name).unwrap().contains('/'),
        is_portable(path@) ==> opt_seq(name) == Some(final_part(path@)),
        only_slashes(path@) ==> name is None,
        ends_in_parent_dir(path@) ==> name is None,
{
    match Path::new(path).file_name() {
        Some(name) => Some(name.to_string_lossy().to_string()),
        None => None,
    }
}

/// `Path::parent`, the path without its final component.  The claim, read from
/// its documentation and that of `Path::components`: for a portable path it is
/// `portable_parent` where that is given.  What it is for other paths depends
/// on the platform and is not claimed.
#[verifier::external_body]
fn path_parent(path: &str) -> (parent: Option<String>)
    ensures
        is_portable(path@) && portable_parent(path@) is Some ==> opt_seq(parent) == portable_parent(path@),
{
    match Path::new(path).parent() {
        Some(parent) => Some(parent.to_string_lossy().to_string()),
        None => None,
    }
}

/// The directory starts with the verbatim prefix `\\?\`.
pub open spec fn has_verbatim_prefix(d: Seq<char>) -> bool {
    d.len() >= 4 && d[0] == '\\' && d[1] == '\\' && d[2] == '?' && d[3] == '\\'
}

/// What joining a plain name to a directory gives: the name alone for an empty
/// directory; the two side by side where the directory ends in `/`; a `/` or
/// a `\` between them where the directory ends in no separator and holds no
/// `:`; and in every case one of those three forms.
pub open spec fn is_join_of(dir: Seq<char>, name: Seq<char>, joined: Seq<char>) -> bool {
    &&& dir.len() == 0 ==> joined == name
    &&& dir.len() > 0 && dir.last() == '/' ==> joined == dir + name
    &&& dir.len() > 0 && !is_separator(dir.last()) && !dir.contains(':') ==> (joined == dir + seq!['/'] + name
        || joined == dir + seq!['\\'] + name)
    &&& (joined == dir + name || joined == dir + seq!['/'] + name || joined == dir + seq!['\\'] + name)
}

/// `Path::join`, the name adjoined to the directory as a further component.
/// The claim, for a name that is a plain component without `:` (so neither
/// absolute nor carrying a prefix) and a directory without a verbatim prefix:
/// the result is the directory and the name with at most one separator
/// between (`is_join_of`).  Which separator is inserted depends on the
/// platform and is not claimed.
#[verifier::external_body]
fn path_join(dir: &str, name: &str) -> (joined: String)
    ensures
        is_plain_component(name@) && !name@.contains(':') && !has_verbatim_prefix(dir@)
            ==> is_join_of(dir@, name@, joined@),
{
    Path::new(dir).join(name).to_string_lossy().to_string()
}

/// Splits a file name at its final `.` as `Path::file_stem` and
/// `Path::extension` document it: the stem is the whole name where it holds
/// no `.`, where its only `.` is the first character, and for `..`; otherwise
/// the stem is the part before the final `.` and the extension the part after
/// it.
pub open spec fn split_name(n: Seq<char>) -> (Seq<char>, Option<Seq<char>>) {
    if n == ".."@ {
        (n, None)
    } else {
        match last_index_of(n, '.') {
            None => (n, None),
            Some(k) => if k == 0 {
                (n, None)
            } else {
                (n.subrange(0, k), Some(n.subrange(k + 1, n.len() as int)))
            },
        }
    }
}

/// The file stem of a path with the given file name.
pub open spec fn stem_of(f: Option<Seq<char>>) -> Option<Seq<char>> {
    match f {
        Some(n) => Some(split_name(n).0),
        None => None,
    }
}

/// The extension of a path with the given file name.
pub open spec fn extension_of(f: Option<Seq<char>>) -> Option<Seq<char>> {
    match f {
        Some(n) => split_name(n).1,
        None => None,
    }
}

/// Splits a file name into its stem and its extension.
pub fn split_file_name(name: &str) -> (r: (String, Option<String>))
    ensures
        r.0@ == split_name(name@).0,
        opt_seq(r.1) == split_name(name@).1,
{
    let c = chars_of(name);
    let dd = chars_of("..");
    proof {
        reveal_strlit("..");
    }
    if eq_chars(&c, &dd) {
        return (String::from_str(name), None);
    }
    let len = c.len();
    match last_index_chars(&c, '.') {
        None => (String::from_str(name), None),
        Some(k) => {
            if k == 0 {
                (String::from_str(name), None)
            } else {
                let stem = sub_chars(&c, 0, k);
                let ext = sub_chars(&c, k + 1, len);
                (string_of(&stem), Some(string_of(&ext)))
            }
        },
    }
}

impl ModelPath {
    /// Splits the components off a path: its file name and its parent as the
    /// standard library's `Path` gives them, and the file name's stem and
    /// extension.
    pub fn new(path: &str) -> (m: ModelPath)
        ensures
            m.path@ == path@,
            m@.file_stem == stem_of(m@.file_name),
            m@.extension == extension_of(m@.file_name),
            names_final_part(path@) ==> m@.file_name is Some,
            names_final_part(path@) ==> has_suffix(m@.file_name.unwrap(), final_part(path@)),
            names_final_part(path@) ==> !m@.file_name.unwrap().contains('/'),
            is_portable(path@) ==> m@.file_name == Some(final_part(path@)),
            only_slashes(path@) || ends_in_parent_dir(path@) ==> m@.file_name is None,
            is_portable(path@) && portable_parent(path@) is Some ==> m@.parent == portable_parent(path@),
    {
        let file_name = path_file_name(path);
        let (file_stem, extension) = match &file_name {
            Some(n) => {
                let (stem, ext) = split_file_name(n.as_str());
                (Some(stem), ext)
            },
            None => (None, None),
        };
        ModelPath {
            path: String::from_str(path),
            file_name,
            file_stem,
            extension,
            parent: path_parent(path),
        }
    }
}

/// A model offered to the user: its path and the name shown for it.
pub struct ModelFile {
    pub path: String,
    pub name: String,
}

/// The name shown for a model: its file name, or the whole path where the path
/// has none.
pub open spec fn model_name(m: ModelPathView) -> Seq<char> {
    match m.file_name {
        Some(n) => n,
        None => m.path,
    }
}

/// Whether the extension is `mdx`, in any ASCII case.
pub open spec fn is_mdx_ext(m: ModelPathView) -> bool {
    m.extension matches Some(e) && lower_seq(e) == "mdx"@
}

/// Whether the extension is `mdx` or `mdl`, in any ASCII case.
pub open spec fn is_model_ext(m: ModelPathView) -> bool {
    m.extension matches Some(e) && (lower_seq(e) == "mdx"@ || lower_seq(e) == "mdl"@)
}

/// The file name given to the backup with the given number:
/// `<stem>back<number>.<extension>`, `model` standing in for a missing stem.
pub open spec fn backup_name(m: ModelPathView, counter: nat) -> Seq<char> {
    let stem = match m.file_stem {
        Some(s) => s,
        None => "model"@,
    };
    let ext = match m.extension {
        Some(e) => seq!['.'] + e,
        None => Seq::<char>::empty(),
    };
    stem + "back"@ + decimal(counter) + ext
}

/// Whether the text equals `lit` when compared in ASCII lower case; `lit` is
/// written in lower case.
fn lower_equals(text: &str, lit: &str) -> (r: bool)
    ensures
        r == (lower_seq(text@) == lit@),
{
    let t = chars_of(text);
    let l = lower_chars(&t);
    let p = chars_of(lit);
    eq_chars(&l, &p)
}

/// The model as it is listed: its path and its file name.
pub fn model_file(model: &ModelPath) -> (f: ModelFile)
    ensures
        f.path@ == model@.path,
        f.name@ == model_name(model@),
{
    let name = match &model.file_name {
        Some(n) => n.clone(),
        None => model.path.clone(),
    };
    ModelFile { path: model.path.clone(), name }
}

/// Whether the path names a model: its extension is `mdx` or `mdl` in any
/// ASCII case.
pub fn is_model_file(model: &ModelPath) -> (r: bool)
    ensures
        r == is_model_ext(model@),
{
    match &model.extension {
        Some(e) => lower_equals(e.as_str(), "mdx") || lower_equals(e.as_str(), "mdl"),
        None => false,
    }
}

/// Whether the model is read as binary MDX (extension `mdx` in any ASCII
/// case); every other model is read as MDL text.
pub fn is_mdx(model: &ModelPath) -> (r: bool)
    ensures
        r == is_mdx_ext(model@),
{
    match &model.extension {
        Some(e) => lower_equals(e.as_str(), "mdx"),
        None => false,
    }
}

/// The file name of the backup with the given number.
pub fn backup_file_name(model: &ModelPath, counter: u64) -> (name: String)
    ensures
        name@ == backup_name(model@, counter as nat),
{
    let mut v: Vec<char> = match &model.file_stem {
        Some(s) => chars_of(s.as_str()),
        None => chars_of("model"),
    };
    let back = chars_of("back");
    extend_chars(&mut v, &back);
    let digits = decimal_chars(counter);
    extend_chars(&mut v, &digits);
    match &model.extension {
        Some(e) => {
            v.push('.');
            let ec = chars_of(e.as_str());
            extend_chars(&mut v, &ec);
        },
        None => {},
    }
    let name = string_of(&v);
    proof {
        let stem = match model@.file_stem {
            Some(s) => s,
            None => "model"@,
        };
        match model@.extension {
            Some(e) => {
                assert(name@ =~= stem + "back"@ + decimal(counter as nat) + (seq!['.'] + e));
            },
            None => {
                assert(name@ =~= stem + "back"@ + decimal(counter as nat) + Seq::<char>::empty());
            },
        }
    }
    name
}

/// The directory that holds the backups: the model's parent, or the empty
/// path where it has none.
pub open spec fn backup_dir(m: ModelPathView) -> Seq<char> {
    match m.parent {
        Some(d) => d,
        None => Seq::empty(),
    }
}

/// The path tried for the backup with the given number: the backup's file
/// name joined to the model's directory.  Where that name holds no separator
/// and no `:`, and the directory has no verbatim prefix, the path is the
/// directory and the name with at most one separator between
/// (`is_join_of`).
pub fn next_backup_path(model: &ModelPath, counter: u64) -> (r: String)
    ensures
        !backup_name(model@, counter as nat).contains('/') && !backup_name(model@, counter as nat).contains('\\')
            && !backup_name(model@, counter as nat).contains(':') && !has_verbatim_prefix(backup_dir(model@))
            ==> is_join_of(backup_dir(model@), backup_name(model@, counter as nat), r@),
{
    let name = backup_file_name(model, counter);
    proof {
        reveal_strlit("back");
        reveal_strlit(".");
        reveal_strlit("..");
        let b = backup_name(model@, counter as nat);
        assert(b.len() >= 4);
        assert(b != "."@);
        assert(b != ".."@);
    }
    match &model.parent {
        Some(dir) => path_join(dir.as_str(), name.as_str()),
        None => {
            proof {
                reveal_strlit("");
            }
            path_join("", name.as_str())
        },
    }
}

/// What the search for a free backup path does after looking at the candidate
/// for one number.
pub enum BackupSearch {
    /// The candidate names no existing file: it is the backup path.
    Found,
    /// The candidate is taken: try the next number.
    Next(u64),
    /// The candidate is taken and no number is left.
    Exhausted,
}

/// The number the search for a free backup path starts from.
pub fn first_backup_number() -> (n: u64)
    ensures
        n == 1,
{
    1
}

/// One step of the search for a free backup path: the candidate for
/// `counter` (`next_backup_path`) is used where no file has it, and otherwise
/// the search goes on with the next number.
pub fn backup_search_step(counter: u64, candidate_taken: bool) -> (s: BackupSearch)
    ensures
        !candidate_taken ==> s is Found,
        candidate_taken && counter < u64::MAX ==> s == BackupSearch::Next((counter + 1) as u64),
        candidate_taken && counter == u64::MAX ==> s is Exhausted,
{
    if !candidate_taken {
        BackupSearch::Found
    } else if counter < u64::MAX {
        BackupSearch::Next(counter + 1)
    } else {
        BackupSearch::Exhausted
    }
}

} // verus!
