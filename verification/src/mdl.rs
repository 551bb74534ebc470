//! Texture references in MDL text models.
//!
//! A reference is the word `Image` (any ASCII case), one or more white-space
//! characters, and a quoted path of at least one character before a `.blp` or
//! `.tga` ending (any ASCII case).  References are found left to right; after
//! one, the search goes on behind its closing quote.

use vstd::prelude::*;
use crate::encoding::{
    decode_admits, decode_admitted, decode_text, encode_admits, encode_admitted, encode_text,
    gbk_decode, gbk_encode,
};
use crate::model::{ModelPath, ModelPathView};
use crate::outcome::{changes_view, opt_bytes, push_change, FileOutcome, FileResult, FileResultView};
use crate::texture::{
    build_new_path, change_of, is_builtin_texture, is_filtered, is_texture_name, is_texture_path,
    new_path, resource_rule_applies, texture_change, ChangeView, Options, OptionsView, TextureChange,
};
use crate::text::{
    ascii_lower, chars_of, eq_chars, extend_chars, is_space, is_white_space, lower_chars, lower_seq,
    occurs_at, replace_all, replace_from, string_of, sub_chars,
};

verus! {

// ---------------------------------------------------------------------------
// Mathematical model
// ---------------------------------------------------------------------------

/// The first index at or after `j` that holds no white space.
pub open spec fn white_end(t: Seq<char>, j: int) -> int
    decreases t.len() - j,
{
    if 0 <= j < t.len() && is_white_space(t[j]) {
        white_end(t, j + 1)
    } else {
        j
    }
}

/// The first index at or after `j` that holds a `"`, or the end of the text.
pub open spec fn quote_end(t: Seq<char>, j: int) -> int
    decreases t.len() - j,
{
    if 0 <= j < t.len() && t[j] != '"' {
        quote_end(t, j + 1)
    } else {
        j
    }
}

/// The word `image` in any ASCII case at index `i`.
pub open spec fn image_word_at(t: Seq<char>, i: int) -> bool {
    0 <= i && i + 5 <= t.len() && lower_seq(t.subrange(i, i + 5)) == "image"@
}

/// The texture reference that starts at index `i`, if one does: the indices
/// where its quoted path starts and ends (the closing quote's index).
pub open spec fn texture_ref_at(t: Seq<char>, i: int) -> Option<(int, int)> {
    if image_word_at(t, i) {
        let q = white_end(t, i + 5);
        if q > i + 5 && q < t.len() && t[q] == '"' {
            let c = quote_end(t, q + 1);
            if c < t.len() && c >= q + 6 && is_texture_name(t.subrange(q + 1, c)) {
                Some((q + 1, c))
            } else {
                None
            }
        } else {
            None
        }
    } else {
        None
    }
}

/// The path a reference carries afterwards.
pub open spec fn ref_new_path(old: Seq<char>, m: ModelPathView, o: OptionsView) -> Seq<char> {
    if is_filtered(old, m, o) {
        old
    } else {
        new_path(old, m, o)
    }
}

/// The record of a reference.
pub open spec fn ref_change(old: Seq<char>, m: ModelPathView, o: OptionsView) -> ChangeView {
    change_of(m, old, ref_new_path(old, m, o), is_filtered(old, m, o))
}

/// The text that a reference (from `i` to behind its closing quote) becomes:
/// itself, or, where its path changes, itself with the old path replaced by
/// the new one.
pub open spec fn ref_text(t: Seq<char>, i: int, ps: int, pe: int, m: ModelPathView, o: OptionsView) -> Seq<char> {
    let whole = t.subrange(i, pe + 1);
    let old = t.subrange(ps, pe);
    let new = ref_new_path(old, m, o);
    if old == new {
        whole
    } else {
        replace_all(whole, old, new)
    }
}

/// The rewritten text, the records and whether a path changed.
pub struct MdlRewrite {
    pub text: Seq<char>,
    pub changes: Seq<ChangeView>,
    pub changed: bool,
}

/// The rewrite of the text from index `pos` on.
pub open spec fn rewrite_from(t: Seq<char>, pos: int, m: ModelPathView, o: OptionsView) -> MdlRewrite
    decreases t.len() - pos,
{
    if pos < 0 || pos >= t.len() {
        MdlRewrite { text: Seq::empty(), changes: Seq::empty(), changed: false }
    } else {
        match texture_ref_at(t, pos) {
            Some((ps, pe)) => {
                let rest = rewrite_from(t, pe + 1, m, o);
                let old = t.subrange(ps, pe);
                MdlRewrite {
                    text: ref_text(t, pos, ps, pe, m, o) + rest.text,
                    changes: seq![ref_change(old, m, o)] + rest.changes,
                    changed: old != ref_new_path(old, m, o) || rest.changed,
                }
            },
            None => {
                let rest = rewrite_from(t, pos + 1, m, o);
                MdlRewrite { text: seq![t[pos]] + rest.text, changes: rest.changes, changed: rest.changed }
            },
        }
    }
}

/// The rewrite of a whole text.
pub open spec fn rewrite_text(t: Seq<char>, m: ModelPathView, o: OptionsView) -> MdlRewrite {
    rewrite_from(t, 0, m, o)
}

/// Whether processing an MDL file of these bytes returns: the decoder must
/// take the bytes, and, where the rewritten text is to be written back, the
/// encoder must take that text.
pub open spec fn mdl_fits(bytes: Seq<u8>, m: ModelPathView, o: OptionsView, write: bool) -> bool {
    decode_admits(bytes) && {
        let r = rewrite_text(gbk_decode(bytes), m, o);
        !(write && r.changed) || encode_admits(r.text)
    }
}

/// The result of processing an MDL file of these bytes.
pub open spec fn mdl_result(bytes: Seq<u8>, m: ModelPathView, o: OptionsView) -> FileResultView {
    let r = rewrite_text(gbk_decode(bytes), m, o);
    FileResultView { changed: r.changed, changes: r.changes, warnings: Seq::empty() }
}

/// The bytes written back: present when rewriting and some path changed.
pub open spec fn mdl_output(bytes: Seq<u8>, m: ModelPathView, o: OptionsView, write: bool) -> Option<Seq<u8>> {
    let r = rewrite_text(gbk_decode(bytes), m, o);
    if write && r.changed {
        Some(gbk_encode(r.text))
    } else {
        None
    }
}

// ---------------------------------------------------------------------------
// Lemmas
// ---------------------------------------------------------------------------

pub(crate) proof fn lemma_white_end(t: Seq<char>, j: int)
    requires
        0 <= j <= t.len(),
    ensures
        j <= white_end(t, j) <= t.len(),
        forall|k: int| j <= k < white_end(t, j) ==> is_white_space(#[trigger] t[k]),
        white_end(t, j) < t.len() ==> !is_white_space(t[white_end(t, j)]),
    decreases t.len() - j,
{
    if j < t.len() && is_white_space(t[j]) {
        lemma_white_end(t, j + 1);
    }
}

pub(crate) proof fn lemma_quote_end(t: Seq<char>, j: int)
    requires
        0 <= j <= t.len(),
    ensures
        j <= quote_end(t, j) <= t.len(),
        forall|k: int| j <= k < quote_end(t, j) ==> #[trigger] t[k] != '"',
        quote_end(t, j) < t.len() ==> t[quote_end(t, j)] == '"',
    decreases t.len() - j,
{
    if j < t.len() && t[j] != '"' {
        lemma_quote_end(t, j + 1);
    }
}

/// The lower case of a character is `.` only for `.` itself.
proof fn lemma_lower_dot(c: char)
    ensures
        ascii_lower(c) == '.' ==> c == '.',
{
    if 'A' <= c && c <= 'Z' {
        assert(((c as u32) + 32) as u8 == (c as u32) + 32);
    }
}

/// A texture path holds a `.` four characters before its end.
proof fn lemma_texture_dot(old: Seq<char>)
    requires
        is_texture_name(old),
    ensures
        old.len() >= 4,
        old[old.len() - 4] == '.',
{
    reveal_strlit(".blp");
    reveal_strlit(".tga");
    let l = lower_seq(old);
    if crate::text::has_suffix(l, ".blp"@) {
        assert(l.subrange(l.len() - 4, l.len() as int)[0] == '.');
    } else {
        assert(l.subrange(l.len() - 4, l.len() as int)[0] == '.');
    }
    assert(l[old.len() - 4] == '.');
    lemma_lower_dot(old[old.len() - 4]);
}

/// Within a reference, the old path occurs only as the quoted path, so
/// replacing it replaces exactly the quoted path.
pub proof fn lemma_ref_replace(t: Seq<char>, i: int, ps: int, pe: int, new: Seq<char>)
    requires
        texture_ref_at(t, i) == Some((ps, pe)),
    ensures
        replace_all(t.subrange(i, pe + 1), t.subrange(ps, pe), new)
            == t.subrange(i, ps) + new + seq!['"'],
{
    let w = t.subrange(i, pe + 1);
    let old = t.subrange(ps, pe);
    let k = ps - i;
    lemma_white_end(t, i + 5);
    lemma_quote_end(t, ps);
    lemma_texture_dot(old);
    reveal_strlit("image");
    assert(lower_seq(t.subrange(i, i + 5)) == "image"@);
    assert forall|j: int| 0 <= j < k - 1 implies #[trigger] w[j] != '.' by {
        if j < 5 {
            let c = t[i + j];
            assert(lower_seq(t.subrange(i, i + 5))[j] == ascii_lower(c));
            lemma_lower_dot(c);
        } else {
            assert(is_white_space(t[i + j]));
        }
    }
    assert forall|j: int| 0 <= j < old.len() implies #[trigger] old[j] != '"' by {
        assert(old[j] == t[ps + j]);
    }
    assert(w[k - 1] == '"');
    assert(w.subrange(k, k + old.len()) =~= old);
    lemma_ref_replace_from(w, old, new, k, 0);
    assert(t.subrange(i, ps) =~= w.subrange(0, k));
}

proof fn lemma_ref_replace_from(w: Seq<char>, old: Seq<char>, new: Seq<char>, k: int, j: int)
    requires
        1 <= k,
        0 <= j <= k,
        old.len() >= 5,
        k + old.len() + 1 == w.len(),
        w.subrange(k, k + old.len()) == old,
        w[k - 1] == '"',
        w[w.len() - 1] == '"',
        old[old.len() - 4] == '.',
        forall|x: int| 0 <= x < k - 1 ==> #[trigger] w[x] != '.',
        forall|x: int| 0 <= x < old.len() ==> #[trigger] old[x] != '"',
    ensures
        replace_from(w, old, new, j) == w.subrange(j, k) + new + seq!['"'],
    decreases k - j,
{
    let l = old.len() as int;
    if j == k {
        assert(occurs_at(w, old, k));
        let last = w.len() - 1;
        assert(!occurs_at(w, old, last));
        assert(replace_from(w, old, new, last + 1) =~= Seq::<char>::empty());
        assert(replace_from(w, old, new, last) =~= seq!['"']);
        assert(w.subrange(k, k) =~= Seq::<char>::empty());
        assert(replace_from(w, old, new, j) =~= w.subrange(j, k) + new + seq!['"']);
    } else {
        if occurs_at(w, old, j) {
            if j + l > k - 1 {
                assert(w.subrange(j, j + l)[k - 1 - j] == w[k - 1]);
                assert(old[k - 1 - j] == '"');
            } else {
                assert(w.subrange(j, j + l)[l - 4] == w[j + l - 4]);
                assert(w[j + l - 4] == '.');
            }
        }
        lemma_ref_replace_from(w, old, new, k, j + 1);
        assert(replace_from(w, old, new, j) =~= w.subrange(j, k) + new + seq!['"']);
    }
}

// ---------------------------------------------------------------------------
// Scanning
// ---------------------------------------------------------------------------

fn white_end_chars(t: &[char], j: usize) -> (r: usize)
    requires
        j <= t@.len(),
    ensures
        r as int == white_end(t@, j as int),
{
    let mut k = j;
    while k < t.len() && is_space(t[k])
        invariant
            j <= k <= t@.len(),
            white_end(t@, j as int) == white_end(t@, k as int),
        decreases t@.len() - k,
    {
        k = k + 1;
    }
    k
}

fn quote_end_chars(t: &[char], j: usize) -> (r: usize)
    requires
        j <= t@.len(),
    ensures
        r as int == quote_end(t@, j as int),
{
    let mut k = j;
    while k < t.len() && t[k] != '"'
        invariant
            j <= k <= t@.len(),
            quote_end(t@, j as int) == quote_end(t@, k as int),
        decreases t@.len() - k,
    {
        k = k + 1;
    }
    k
}

/// The texture reference that starts at index `i`, if one does.
pub fn texture_ref_chars(t: &[char], i: usize) -> (r: Option<(usize, usize)>)
    requires
        i < t@.len(),
    ensures
        match r {
            Some((ps, pe)) => texture_ref_at(t@, i as int) == Some((ps as int, pe as int)),
            None => texture_ref_at(t@, i as int) is None,
        },
{
    let len = t.len();
    if len < 5 || i > len - 5 {
        return None;
    }
    let word = sub_chars(t, i, i + 5);
    let lower = lower_chars(&word);
    let image = chars_of("image");
    if !eq_chars(&lower, &image) {
        return None;
    }
    let q = white_end_chars(t, i + 5);
    proof {
        lemma_white_end(t@, i + 5);
    }
    if !(q > i + 5 && q < len && t[q] == '"') {
        return None;
    }
    let c = quote_end_chars(t, q + 1);
    proof {
        lemma_quote_end(t@, q + 1);
    }
    if !(c < len && c - q >= 6) {
        return None;
    }
    let path = sub_chars(t, q + 1, c);
    let path_s = string_of(&path);
    if is_texture_path(path_s.as_str()) {
        Some((q + 1, c))
    } else {
        None
    }
}

/// The rewrite of an MDL text: each texture reference is recorded and, unless
/// filtered as built in, its path replaced by the new one.
pub fn rewrite_mdl_text(text: &str, model: &ModelPath, opts: &Options) -> (r: (Vec<char>, Vec<TextureChange>, bool))
    ensures
        r.0@ == rewrite_text(text@, model@, opts@).text,
        changes_view(r.1@) == rewrite_text(text@, model@, opts@).changes,
        r.2 == rewrite_text(text@, model@, opts@).changed,
{
    let t = chars_of(text);
    let len = t.len();
    let ghost tv = t@;
    let ghost m = model@;
    let ghost o = opts@;
    let mut out: Vec<char> = Vec::new();
    let mut changes: Vec<TextureChange> = Vec::new();
    let mut changed = false;
    let mut pos: usize = 0;
    proof {
        assert(changes_view(changes@) =~= Seq::<ChangeView>::empty());
    }
    while pos < len
        invariant
            tv == t@,
            len == t@.len(),
            pos <= len,
            m == model@,
            o == opts@,
            rewrite_from(tv, 0, m, o).text == out@ + rewrite_from(tv, pos as int, m, o).text,
            rewrite_from(tv, 0, m, o).changes == changes_view(changes@) + rewrite_from(tv, pos as int, m, o).changes,
            rewrite_from(tv, 0, m, o).changed == (changed || rewrite_from(tv, pos as int, m, o).changed),
        decreases len - pos,
    {
        match texture_ref_chars(&t, pos) {
            Some((ps, pe)) => {
                proof {
                    lemma_quote_end(tv, ps as int);
                }
                let ghost oldv = tv.subrange(ps as int, pe as int);
                let old = sub_chars(&t, ps, pe);
                let old_s = string_of(&old);
                let filtered = opts.skip_builtin && is_builtin_texture(old_s.as_str())
                    && !resource_rule_applies(model, opts);
                let ghost before_out = out@;
                let ghost before_changes = changes_view(changes@);
                if filtered {
                    let c = texture_change(model, old_s.as_str(), old_s.as_str(), true);
                    push_change(&mut changes, c);
                    let whole = sub_chars(&t, pos, pe + 1);
                    extend_chars(&mut out, &whole);
                } else {
                    let new_s = build_new_path(old_s.as_str(), model, opts);
                    let c = texture_change(model, old_s.as_str(), new_s.as_str(), false);
                    push_change(&mut changes, c);
                    let new = chars_of(new_s.as_str());
                    if eq_chars(&old, &new) {
                        let whole = sub_chars(&t, pos, pe + 1);
                        extend_chars(&mut out, &whole);
                    } else {
                        changed = true;
                        let head = sub_chars(&t, pos, ps);
                        extend_chars(&mut out, &head);
                        extend_chars(&mut out, &new);
                        out.push('"');
                        proof {
                            lemma_ref_replace(tv, pos as int, ps as int, pe as int, new@);
                            assert(out@ =~= before_out + (tv.subrange(pos as int, ps as int) + new@ + seq!['"']));
                        }
                    }
                }
                proof {
                    let rest = rewrite_from(tv, pe + 1, m, o);
                    assert(rewrite_from(tv, pos as int, m, o).text
                        == ref_text(tv, pos as int, ps as int, pe as int, m, o) + rest.text);
                    assert(out@ =~= before_out + ref_text(tv, pos as int, ps as int, pe as int, m, o));
                    assert(changes_view(changes@) == before_changes.push(ref_change(oldv, m, o)));
                }
                pos = pe + 1;
            },
            None => {
                out.push(t[pos]);
                pos = pos + 1;
            },
        }
    }
    (out, changes, changed)
}

/// Processes an MDL model held in the given bytes: decodes them as GBK,
/// records each texture reference and rewrites its path, and, when `write` is
/// set and some path changed, encodes the rewritten text for writing back.
/// Gives `None` exactly where the decoder would not take the bytes, or the
/// encoder the text to write back (see `mdl_fits`).
pub fn process_mdl(bytes: &[u8], model: &ModelPath, opts: &Options, write: bool) -> (r: Option<FileOutcome>)
    ensures
        r is Some <==> mdl_fits(bytes@, model@, opts@, write),
        r matches Some(out) ==> out.result@ == mdl_result(bytes@, model@, opts@)
            && opt_bytes(out.output) == mdl_output(bytes@, model@, opts@, write),
{
    if !decode_admitted(bytes) {
        return None;
    }
    let text = decode_text(bytes);
    let (out, changes, changed) = rewrite_mdl_text(text.as_str(), model, opts);
    let result = FileResult { changed, changes, warnings: Vec::new() };
    proof {
        assert(result@.warnings =~= Seq::<Seq<char>>::empty());
    }
    if write && changed {
        let s = string_of(&out);
        if !encode_admitted(s.as_str()) {
            return None;
        }
        let encoded = encode_text(s.as_str());
        Some(FileOutcome { result, output: Some(encoded) })
    } else {
        Some(FileOutcome { result, output: None })
    }
}

} // verus!
