//! The rules that decide a texture's new path.

use vstd::prelude::*;
use crate::model::{model_name, ModelPath, ModelPathView};
use crate::text::{
    all_space, all_white_space, chars_of, extend_chars, find_chars, find_from, has_prefix,
    has_prefix_chars, has_suffix, has_suffix_chars, last_index_chars, last_index_of, lower_chars,
    lower_seq, normalize_chars, normalize_seq, replace_all, replace_all_chars, string_of, sub_chars,
    trim_char, trim_chars, trim_start_char, trim_start_chars,
};

verus! {

/// What the user asked for.
pub struct Options {
    /// The directory put before each texture's file name; `($fileName)` in it
    /// stands for the model's file stem.
    pub prefix: String,
    /// Whether a `\` is added after a prefix that ends in no separator.
    pub append_slash: bool,
    /// Whether textures under the game's own directories are left alone.
    pub skip_builtin: bool,
    /// Whether a modified model file is backed up first.
    pub auto_backup: bool,
    /// Whether a model under a `resource` directory takes its textures from
    /// its own place there.
    pub trim_resource: bool,
    /// Whether every texture is reset to its bare file name.
    pub reset: bool,
}

pub struct OptionsView {
    pub prefix: Seq<char>,
    pub append_slash: bool,
    pub skip_builtin: bool,
    pub auto_backup: bool,
    pub trim_resource: bool,
    pub reset: bool,
}

impl View for Options {
    type V = OptionsView;

    open spec fn view(&self) -> OptionsView {
        OptionsView {
            prefix: self.prefix@,
            append_slash: self.append_slash,
            skip_builtin: self.skip_builtin,
            auto_backup: self.auto_backup,
            trim_resource: self.trim_resource,
            reset: self.reset,
        }
    }
}

/// One texture reference of a model, with the path it had and the path it
/// gets; `filtered` marks a built-in texture that is left alone.
pub struct TextureChange {
    pub file: String,
    pub model: String,
    pub old_path: String,
    pub new_path: String,
    pub filtered: bool,
}

pub struct ChangeView {
    pub file: Seq<char>,
    pub model: Seq<char>,
    pub old_path: Seq<char>,
    pub new_path: Seq<char>,
    pub filtered: bool,
}

impl View for TextureChange {
    type V = ChangeView;

    open spec fn view(&self) -> ChangeView {
        ChangeView {
            file: self.file@,
            model: self.model@,
            old_path: self.old_path@,
            new_path: self.new_path@,
            filtered: self.filtered,
        }
    }
}

// ---------------------------------------------------------------------------
// Mathematical model
// ---------------------------------------------------------------------------

/// The file name at the end of a texture path, `/` and `\` both separating.
pub open spec fn basename(path: Seq<char>) -> Seq<char> {
    let n = normalize_seq(path);
    match last_index_of(n, '\\') {
        Some(k) => n.subrange(k + 1, n.len() as int),
        None => n,
    }
}

/// A texture file: its name ends in `.blp` or `.tga`, in any ASCII case.
pub open spec fn is_texture_name(path: Seq<char>) -> bool {
    has_suffix(lower_seq(path), ".blp"@) || has_suffix(lower_seq(path), ".tga"@)
}

/// Whether a (normalized, lower-cased) path starts under one of the game's own
/// texture directories.
pub open spec fn under_builtin_root(s: Seq<char>) -> bool {
    ||| has_prefix(s, "replaceabletextures\\"@)
    ||| has_prefix(s, "textures\\"@)
    ||| has_prefix(s, "units\\"@)
    ||| has_prefix(s, "abilities\\"@)
    ||| has_prefix(s, "ui\\"@)
    ||| has_prefix(s, "buildings\\"@)
    ||| has_prefix(s, "doodads\\"@)
    ||| has_prefix(s, "object\\"@)
    ||| has_prefix(s, "objects\\"@)
    ||| has_prefix(s, "terrainart\\"@)
}

/// A texture that ships with the game: with `/` read as `\`, leading `\`
/// dropped and ASCII case ignored, it lies under one of the game's texture
/// directories.
pub open spec fn is_builtin(path: Seq<char>) -> bool {
    under_builtin_root(lower_seq(trim_start_char(normalize_seq(path), '\\')))
}

/// The directory that follows the first `marker` (matched in ASCII lower case)
/// in a normalized path, up to the path's last `\`, trimmed of `\` and ended
/// with one `\`; none where that directory is empty.
pub open spec fn dir_after_marker(n: Seq<char>, marker: Seq<char>) -> Option<Seq<char>> {
    match find_from(lower_seq(n), marker, 0) {
        Some(idx) => {
            let tail = n.subrange(idx + marker.len(), n.len() as int);
            match last_index_of(tail, '\\') {
                Some(ls) => {
                    let dir = trim_char(tail.subrange(0, ls), '\\');
                    if dir.len() > 0 {
                        Some(dir.push('\\'))
                    } else {
                        None
                    }
                },
                None => None,
            }
        },
        None => None,
    }
}

/// The directory of a model below a `resource` (or else `resources`)
/// directory, ended with `\`.
pub open spec fn relative_dir(path: Seq<char>) -> Option<Seq<char>> {
    let n = normalize_seq(path);
    match dir_after_marker(n, "\\resource\\"@) {
        Some(d) => Some(d),
        None => dir_after_marker(n, "\\resources\\"@),
    }
}

/// Whether a model's textures take its place under `resource`.
pub open spec fn rule_applies(m: ModelPathView, o: OptionsView) -> bool {
    !o.reset && o.trim_resource && relative_dir(m.path) is Some
}

/// The prefix with `($fileName)` replaced by the model's file stem.
pub open spec fn expanded_prefix(m: ModelPathView, o: OptionsView) -> Seq<char> {
    let stem = match m.file_stem {
        Some(s) => s,
        None => Seq::<char>::empty(),
    };
    replace_all(o.prefix, "($fileName)"@, stem)
}

/// Whether a separator is added after the expanded prefix.
pub open spec fn needs_slash(e: Seq<char>, o: OptionsView) -> bool {
    o.append_slash && !(e.len() > 0 && (e.last() == '\\' || e.last() == '/'))
}

/// The path a texture gets: its bare file name when resetting; the model's
/// directory under `resource` when that rule applies; otherwise the expanded
/// prefix (with `\` added on request) before the file name, or the bare file
/// name where the expanded prefix is blank.
pub open spec fn new_path(old: Seq<char>, m: ModelPathView, o: OptionsView) -> Seq<char> {
    if o.reset {
        basename(old)
    } else if o.trim_resource && relative_dir(m.path) is Some {
        relative_dir(m.path).unwrap() + basename(old)
    } else {
        let e = expanded_prefix(m, o);
        if all_white_space(e) {
            basename(old)
        } else if needs_slash(e, o) {
            e.push('\\') + basename(old)
        } else {
            e + basename(old)
        }
    }
}

/// The record of one texture of a model.
pub open spec fn change_of(m: ModelPathView, old: Seq<char>, new: Seq<char>, filtered: bool) -> ChangeView {
    ChangeView { file: m.path, model: model_name(m), old_path: old, new_path: new, filtered }
}

/// Whether a texture is left alone as built in.
pub open spec fn is_filtered(old: Seq<char>, m: ModelPathView, o: OptionsView) -> bool {
    o.skip_builtin && is_builtin(old) && !rule_applies(m, o)
}

// ---------------------------------------------------------------------------
// Executable rules
// ---------------------------------------------------------------------------

/// The path with every `/` replaced by `\`.
pub fn normalize_slash(path: &str) -> (r: String)
    ensures
        r@ == normalize_seq(path@),
{
    let c = chars_of(path);
    let n = normalize_chars(&c);
    string_of(&n)
}

fn basename_chars(path: &[char]) -> (r: Vec<char>)
    ensures
        r@ == basename(path@),
{
    let n = normalize_chars(path);
    let len = n.len();
    match last_index_chars(&n, '\\') {
        Some(k) => sub_chars(&n, k + 1, len),
        None => n,
    }
}

/// The file name at the end of a texture path.
pub fn texture_basename(path: &str) -> (r: String)
    ensures
        r@ == basename(path@),
{
    let c = chars_of(path);
    let b = basename_chars(&c);
    string_of(&b)
}

/// Whether the path names a texture file (`.blp` or `.tga`, any ASCII case).
pub fn is_texture_path(path: &str) -> (r: bool)
    ensures
        r == is_texture_name(path@),
{
    let c = chars_of(path);
    let lower = lower_chars(&c);
    let blp = chars_of(".blp");
    let tga = chars_of(".tga");
    has_suffix_chars(&lower, &blp) || has_suffix_chars(&lower, &tga)
}

fn starts_with_lit(s: &[char], lit: &str) -> (r: bool)
    ensures
        r == has_prefix(s@, lit@),
{
    let p = chars_of(lit);
    has_prefix_chars(s, &p)
}

/// Whether the texture ships with the game.
pub fn is_builtin_texture(path: &str) -> (r: bool)
    ensures
        r == is_builtin(path@),
{
    let c = chars_of(path);
    let n = normalize_chars(&c);
    let t = trim_start_chars(&n, '\\');
    let lower = lower_chars(&t);
    starts_with_lit(&lower, "replaceabletextures\\")
        || starts_with_lit(&lower, "textures\\")
        || starts_with_lit(&lower, "units\\")
        || starts_with_lit(&lower, "abilities\\")
        || starts_with_lit(&lower, "ui\\")
        || starts_with_lit(&lower, "buildings\\")
        || starts_with_lit(&lower, "doodads\\")
        || starts_with_lit(&lower, "object\\")
        || starts_with_lit(&lower, "objects\\")
        || starts_with_lit(&lower, "terrainart\\")
}

fn dir_after_marker_chars(n: &[char], lower: &[char], marker: &str) -> (r: Option<Vec<char>>)
    requires
        lower@ == lower_seq(n@),
        marker@.len() > 0,
    ensures
        match r {
            Some(d) => dir_after_marker(n@, marker@) == Some(d@),
            None => dir_after_marker(n@, marker@) is None,
        },
{
    let m = chars_of(marker);
    let len = n.len();
    let mlen = m.len();
    match find_chars(lower, &m) {
        Some(idx) => {
            let tail = sub_chars(n, idx + mlen, len);
            match last_index_chars(&tail, '\\') {
                Some(ls) => {
                    let head = sub_chars(&tail, 0, ls);
                    let mut dir = trim_chars(&head, '\\');
                    if dir.len() > 0 {
                        dir.push('\\');
                        Some(dir)
                    } else {
                        None
                    }
                },
                None => None,
            }
        },
        None => None,
    }
}

fn relative_dir_chars(path: &[char]) -> (r: Option<Vec<char>>)
    ensures
        match r {
            Some(d) => relative_dir(path@) == Some(d@),
            None => relative_dir(path@) is None,
        },
{
    let n = normalize_chars(path);
    let lower = lower_chars(&n);
    proof {
        reveal_strlit("\\resource\\");
        reveal_strlit("\\resources\\");
    }
    match dir_after_marker_chars(&n, &lower, "\\resource\\") {
        Some(d) => Some(d),
        None => dir_after_marker_chars(&n, &lower, "\\resources\\"),
    }
}

/// The directory of a model below a `resource` (or else `resources`)
/// directory, ended with `\`; none where the model lies directly in it or
/// outside it.
pub fn resource_relative_dir(model_path: &str) -> (r: Option<String>)
    ensures
        match r {
            Some(d) => relative_dir(model_path@) == Some(d@),
            None => relative_dir(model_path@) is None,
        },
{
    let c = chars_of(model_path);
    match relative_dir_chars(&c) {
        Some(d) => Some(string_of(&d)),
        None => None,
    }
}

/// Whether the model's textures take its place under `resource`: not
/// resetting, the rule asked for, and the model below such a directory.
pub fn resource_rule_applies(model: &ModelPath, opts: &Options) -> (r: bool)
    ensures
        r == rule_applies(model@, opts@),
{
    !opts.reset && opts.trim_resource && resource_relative_dir(model.path.as_str()).is_some()
}

/// The path a texture gets under the options.
pub fn build_new_path(old_path: &str, model: &ModelPath, opts: &Options) -> (r: String)
    ensures
        r@ == new_path(old_path@, model@, opts@),
{
    let old = chars_of(old_path);
    let base = basename_chars(&old);
    if opts.reset {
        return string_of(&base);
    }
    if opts.trim_resource {
        let mc = chars_of(model.path.as_str());
        match relative_dir_chars(&mc) {
            Some(dir) => {
                let mut out = dir;
                extend_chars(&mut out, &base);
                return string_of(&out);
            },
            None => {},
        }
    }
    let prefix = chars_of(opts.prefix.as_str());
    let stem: Vec<char> = match &model.file_stem {
        Some(s) => chars_of(s.as_str()),
        None => Vec::new(),
    };
    let pattern = chars_of("($fileName)");
    proof {
        reveal_strlit("($fileName)");
    }
    let mut expanded = replace_all_chars(&prefix, &pattern, &stem);
    if all_space(&expanded) {
        return string_of(&base);
    }
    let elen = expanded.len();
    if opts.append_slash && !(elen > 0 && (expanded[elen - 1] == '\\' || expanded[elen - 1] == '/')) {
        expanded.push('\\');
    }
    extend_chars(&mut expanded, &base);
    string_of(&expanded)
}

/// The record of one texture of the model.
pub fn texture_change(model: &ModelPath, old_path: &str, new_path: &str, filtered: bool) -> (c: TextureChange)
    ensures
        c@ == change_of(model@, old_path@, new_path@, filtered),
{
    let name = match &model.file_name {
        Some(n) => n.clone(),
        None => model.path.clone(),
    };
    TextureChange {
        file: model.path.clone(),
        model: name,
        old_path: String::from_str(old_path),
        new_path: String::from_str(new_path),
        filtered,
    }
}

} // verus!
