//! What the records of a model say, and which paths count as models, built-in
//! textures or resource directories, stated from the inputs.

use vstd::prelude::*;
use crate::laws::{law_resource_rule_path, lemma_lower_char};
use crate::mdl::{ref_change, rewrite_from, rewrite_text, texture_ref_at};
use crate::mdx::{c_len, chunk_walk, is_mdx_header, mdx_fold, mdx_output, mdx_result, mdx_step};
use crate::model::{is_mdx_ext, is_model_ext, ModelPathView};
use crate::reapply::{entry_old, entry_written, room, room_after};
use crate::text::{has_prefix, lower_seq, normalize_seq, occurs_at, trim_end_char, trim_start_char};
use crate::texture::{
    basename, change_of, expanded_prefix, is_builtin, is_filtered, is_texture_name, new_path, relative_dir, rule_applies,
    ChangeView, OptionsView,
};

verus! {

// ---------------------------------------------------------------------------
// Records
// ---------------------------------------------------------------------------

/// The record of a texture whose path is `old`: left alone and marked filtered
/// where it is a built-in texture to skip, otherwise unfiltered with its new
/// path (also where that equals the old one).
pub open spec fn record_for(m: ModelPathView, o: OptionsView, old: Seq<char>) -> ChangeView {
    if o.skip_builtin && is_builtin(old) && !rule_applies(m, o) {
        change_of(m, old, old, true)
    } else {
        change_of(m, old, new_path(old, m, o), false)
    }
}

/// The quoted paths of the texture references of an MDL text from `pos` on,
/// in order of the text.
pub open spec fn ref_paths(t: Seq<char>, pos: int) -> Seq<Seq<char>>
    decreases t.len() - pos,
{
    if pos < 0 || pos >= t.len() {
        Seq::empty()
    } else {
        match texture_ref_at(t, pos) {
            Some((ps, pe)) => if pe + 1 > pos {
                seq![t.subrange(ps, pe)] + ref_paths(t, pe + 1)
            } else {
                Seq::empty()
            },
            None => ref_paths(t, pos + 1),
        }
    }
}

proof fn lemma_mdl_records_from(t: Seq<char>, pos: int, m: ModelPathView, o: OptionsView)
    ensures
        rewrite_from(t, pos, m, o).changes == ref_paths(t, pos).map_values(|old: Seq<char>| record_for(m, o, old)),
    decreases t.len() - pos,
{
    let f = |old: Seq<char>| record_for(m, o, old);
    if 0 <= pos < t.len() {
        match texture_ref_at(t, pos) {
            Some((ps, pe)) => {
                crate::mdl::lemma_quote_end(t, ps);
                crate::reapply::lemma_ref_facts(t, pos);
                lemma_mdl_records_from(t, pe + 1, m, o);
                let old = t.subrange(ps, pe);
                assert(ref_change(old, m, o) == f(old));
                assert((seq![old] + ref_paths(t, pe + 1)).map_values(f)
                    =~= seq![f(old)] + ref_paths(t, pe + 1).map_values(f));
            },
            None => {
                lemma_mdl_records_from(t, pos + 1, m, o);
            },
        }
    } else {
        assert(ref_paths(t, pos).map_values(f) =~= Seq::<ChangeView>::empty());
    }
}

/// An MDL text yields exactly one record per texture reference, in order: a
/// built-in texture to skip keeps its path and is marked filtered; every other
/// reference is recorded unfiltered with its new path, whether or not that
/// differs from the old one.
pub proof fn law_mdl_one_record_per_reference(t: Seq<char>, m: ModelPathView, o: OptionsView)
    ensures
        rewrite_text(t, m, o).changes == ref_paths(t, 0).map_values(|old: Seq<char>| record_for(m, o, old)),
{
    lemma_mdl_records_from(t, 0, m, o);
}

/// Under the `resource` rule every MDL record is unfiltered, and its new path
/// is the model's directory below `resource` followed by the texture's file
/// name.
pub proof fn law_mdl_resource_records(t: Seq<char>, m: ModelPathView, o: OptionsView)
    requires
        rule_applies(m, o),
    ensures
        forall|k: int| 0 <= k < rewrite_text(t, m, o).changes.len() ==> {
            let c = #[trigger] rewrite_text(t, m, o).changes[k];
            &&& !c.filtered
            &&& c.new_path == relative_dir(m.path).unwrap() + basename(c.old_path)
        },
{
    lemma_mdl_records_from(t, 0, m, o);
    let rs = ref_paths(t, 0);
    assert forall|k: int| 0 <= k < rewrite_text(t, m, o).changes.len() implies {
        let c = #[trigger] rewrite_text(t, m, o).changes[k];
        &&& !c.filtered
        &&& c.new_path == relative_dir(m.path).unwrap() + basename(c.old_path)
    } by {
        law_resource_rule_path(rs[k], m, o);
    }
}

/// The texture entries of an MDX file among the given path offsets: those
/// whose path is not empty and names a texture, in order.
pub open spec fn texture_entries(b0: Seq<u8>, ps: Seq<int>) -> Seq<int>
    decreases ps.len(),
{
    if ps.len() == 0 {
        Seq::empty()
    } else {
        let prev = texture_entries(b0, ps.drop_last());
        let p = ps.last();
        if c_len(b0, p, 0) > 0 && is_texture_name(entry_old(b0, p)) {
            prev.push(p)
        } else {
            prev
        }
    }
}

proof fn lemma_mdx_fold_records(b0: Seq<u8>, ps: Seq<int>, m: ModelPathView, o: OptionsView, write: bool)
    ensures
        mdx_fold(b0, ps, m, o, write).changes
            == texture_entries(b0, ps).map_values(|p: int| record_for(m, o, entry_old(b0, p))),
    decreases ps.len(),
{
    let f = |p: int| record_for(m, o, entry_old(b0, p));
    if ps.len() == 0 {
        assert(texture_entries(b0, ps).map_values(f) =~= Seq::<ChangeView>::empty());
    } else {
        lemma_mdx_fold_records(b0, ps.drop_last(), m, o, write);
        let p = ps.last();
        let prev = texture_entries(b0, ps.drop_last());
        let st = mdx_fold(b0, ps.drop_last(), m, o, write);
        assert(mdx_fold(b0, ps, m, o, write) == mdx_step(b0, st, p, m, o, write));
        crate::reapply::lemma_c_len_bounds(b0, p, 0);
        let old = entry_old(b0, p);
        if c_len(b0, p, 0) > 0 && is_texture_name(old) {
            assert(prev.push(p).map_values(f) =~= prev.map_values(f).push(f(p)));
            if is_filtered(old, m, o) {
                assert(mdx_step(b0, st, p, m, o, write).changes == st.changes.push(f(p)));
            } else {
                assert(mdx_step(b0, st, p, m, o, write).changes == st.changes.push(f(p)));
            }
        } else {
            assert(mdx_step(b0, st, p, m, o, write).changes == st.changes);
        }
    }
}

/// An MDX file yields exactly one record per texture entry (an entry whose
/// path is not empty and names a texture), in the order of the file: a
/// built-in texture to skip keeps its path and is marked filtered; every other
/// entry is recorded unfiltered with its new path, whether or not that differs
/// from the old one, and whether or not it fits the entry.  A file that is not
/// an MDX model yields no record.
pub proof fn law_mdx_one_record_per_entry(b0: Seq<u8>, m: ModelPathView, o: OptionsView, write: bool)
    ensures
        is_mdx_header(b0) ==> mdx_result(b0, m, o, write).changes
            == texture_entries(b0, chunk_walk(b0, 4).0).map_values(|p: int| record_for(m, o, entry_old(b0, p))),
        !is_mdx_header(b0) ==> mdx_result(b0, m, o, write).changes.len() == 0,
{
    if is_mdx_header(b0) {
        lemma_mdx_fold_records(b0, chunk_walk(b0, 4).0, m, o, write);
    }
}

/// Under the `resource` rule every MDX record is unfiltered, and its new path
/// is the model's directory below `resource` followed by the texture's file
/// name.
pub proof fn law_mdx_resource_records(b0: Seq<u8>, m: ModelPathView, o: OptionsView, write: bool)
    requires
        rule_applies(m, o),
    ensures
        forall|k: int| 0 <= k < mdx_result(b0, m, o, write).changes.len() ==> {
            let c = #[trigger] mdx_result(b0, m, o, write).changes[k];
            &&& !c.filtered
            &&& c.new_path == relative_dir(m.path).unwrap() + basename(c.old_path)
        },
{
    law_mdx_one_record_per_entry(b0, m, o, write);
    if is_mdx_header(b0) {
        let es = texture_entries(b0, chunk_walk(b0, 4).0);
        assert forall|k: int| 0 <= k < mdx_result(b0, m, o, write).changes.len() implies {
            let c = #[trigger] mdx_result(b0, m, o, write).changes[k];
            &&& !c.filtered
            &&& c.new_path == relative_dir(m.path).unwrap() + basename(c.old_path)
        } by {
            law_resource_rule_path(entry_old(b0, es[k]), m, o);
        }
    }
}

// ---------------------------------------------------------------------------
// Built-in textures
// ---------------------------------------------------------------------------

/// The game's own texture directories, in lower case, each ended with `\`.
pub open spec fn builtin_roots() -> Seq<Seq<char>> {
    seq![
        "replaceabletextures\\"@, "textures\\"@, "units\\"@, "abilities\\"@, "ui\\"@,
        "buildings\\"@, "doodads\\"@, "object\\"@, "objects\\"@, "terrainart\\"@,
    ]
}

/// A texture is built in exactly when, with `/` read as `\`, leading `\`
/// dropped and ASCII case ignored, it starts with one of the game's ten
/// texture directories; a path under any other first directory (a map's
/// imported files, say) is not.
pub proof fn law_builtin_roots(path: Seq<char>)
    ensures
        is_builtin(path) <==> exists|i: int| 0 <= i < builtin_roots().len()
            && has_prefix(lower_seq(trim_start_char(normalize_seq(path), '\\')), #[trigger] builtin_roots()[i]),
{
    let s = lower_seq(trim_start_char(normalize_seq(path), '\\'));
    let r = builtin_roots();
    assert(r.len() == 10);
    assert(r[0] == "replaceabletextures\\"@);
    assert(r[1] == "textures\\"@);
    assert(r[2] == "units\\"@);
    assert(r[3] == "abilities\\"@);
    assert(r[4] == "ui\\"@);
    assert(r[5] == "buildings\\"@);
    assert(r[6] == "doodads\\"@);
    assert(r[7] == "object\\"@);
    assert(r[8] == "objects\\"@);
    assert(r[9] == "terrainart\\"@);
    if is_builtin(path) {
        if has_prefix(s, r[0]) {
        } else if has_prefix(s, r[1]) {
        } else if has_prefix(s, r[2]) {
        } else if has_prefix(s, r[3]) {
        } else if has_prefix(s, r[4]) {
        } else if has_prefix(s, r[5]) {
        } else if has_prefix(s, r[6]) {
        } else if has_prefix(s, r[7]) {
        } else if has_prefix(s, r[8]) {
        } else {
            assert(has_prefix(s, r[9]));
        }
    }
    if exists|i: int| 0 <= i < r.len() && has_prefix(s, #[trigger] r[i]) {
        let i = choose|i: int| 0 <= i < r.len() && has_prefix(s, #[trigger] r[i]);
        assert(0 <= i < 10);
    }
}

// ---------------------------------------------------------------------------
// Model files
// ---------------------------------------------------------------------------

/// Whether a path is a model, and whether an MDX model, depends on its
/// extension up to ASCII case only.
pub proof fn law_model_kind_ignores_case(a: ModelPathView, b: ModelPathView)
    requires
        a.extension is Some,
        b.extension is Some,
        lower_seq(a.extension.unwrap()) == lower_seq(b.extension.unwrap()),
    ensures
        is_model_ext(a) == is_model_ext(b),
        is_mdx_ext(a) == is_mdx_ext(b),
{
}

/// A path with no extension is no model; one whose extension is `mdl` or
/// `mdx` in any ASCII case is one, an MDX model exactly in the second case.
pub proof fn law_model_kind_by_extension(m: ModelPathView)
    ensures
        m.extension is None ==> !is_model_ext(m) && !is_mdx_ext(m),
        m.extension matches Some(e) && lower_seq(e) == "mdl"@ ==> is_model_ext(m) && !is_mdx_ext(m),
        m.extension matches Some(e) && lower_seq(e) == "mdx"@ ==> is_model_ext(m) && is_mdx_ext(m),
{
    reveal_strlit("mdl");
    reveal_strlit("mdx");
    if let Some(e) = m.extension {
        if lower_seq(e) == "mdl"@ {
            assert(lower_seq(e)[2] != "mdx"@[2]);
        }
    }
}

// ---------------------------------------------------------------------------
// Resource directories
// ---------------------------------------------------------------------------

/// A `\resource\` or `\resources\` marker (in any ASCII case) ends at `j`.
pub open spec fn marker_ends_at(n: Seq<char>, j: int) -> bool {
    ||| 10 <= j <= n.len() && lower_seq(n).subrange(j - 10, j) == "\\resource\\"@
    ||| 11 <= j <= n.len() && lower_seq(n).subrange(j - 11, j) == "\\resources\\"@
}

/// `d` stands in `n` as a model's directory below `resource`: it occurs at
/// `i`, behind a marker ending at `j` and only `\` between the two, and every
/// `\` that follows it belongs to the run that closes it (so what follows is
/// the file name).
pub open spec fn dir_in_place(n: Seq<char>, d: Seq<char>, j: int, i: int) -> bool {
    &&& marker_ends_at(n, j)
    &&& j <= i
    &&& forall|k: int| j <= k < i ==> #[trigger] n[k] == '\\'
    &&& occurs_at(n, d, i)
    &&& forall|k: int, k2: int| i + d.len() <= k2 <= k < n.len() && #[trigger] n[k] == '\\' ==> #[trigger] n[k2] == '\\'
}

/// `d` stands in `n` as a model's directory below `resource`, somewhere.
pub open spec fn stands_in_place(n: Seq<char>, d: Seq<char>) -> bool {
    exists|j: int, i: int| #[trigger] dir_in_place(n, d, j, i)
}

proof fn lemma_trim_start_run(s: Seq<char>, c: char) -> (k: int)
    ensures
        0 <= k <= s.len(),
        trim_start_char(s, c) == s.subrange(k, s.len() as int),
        forall|j: int| 0 <= j < k ==> #[trigger] s[j] == c,
    decreases s.len(),
{
    if s.len() > 0 && s[0] == c {
        let k0 = lemma_trim_start_run(s.drop_first(), c);
        assert(s.drop_first().subrange(k0, s.drop_first().len() as int) =~= s.subrange(k0 + 1, s.len() as int));
        assert forall|j: int| 0 <= j < k0 + 1 implies #[trigger] s[j] == c by {
            if j > 0 {
                assert(s[j] == s.drop_first()[j - 1]);
            }
        }
        k0 + 1
    } else {
        assert(s.subrange(0, s.len() as int) =~= s);
        0
    }
}

proof fn lemma_trim_end_run(s: Seq<char>, c: char) -> (k: int)
    ensures
        0 <= k <= s.len(),
        trim_end_char(s, c) == s.subrange(0, k),
        forall|j: int| k <= j < s.len() ==> #[trigger] s[j] == c,
    decreases s.len(),
{
    if s.len() > 0 && s.last() == c {
        let k0 = lemma_trim_end_run(s.drop_last(), c);
        assert(s.drop_last().subrange(0, k0) =~= s.subrange(0, k0));
        assert forall|j: int| k0 <= j < s.len() implies #[trigger] s[j] == c by {
            if j < s.len() - 1 {
                assert(s[j] == s.drop_last()[j]);
            }
        }
        k0
    } else {
        assert(s.subrange(0, s.len() as int) =~= s);
        s.len() as int
    }
}

proof fn lemma_dir_after_marker_in_place(n: Seq<char>, marker: Seq<char>)
    requires
        marker == "\\resource\\"@ || marker == "\\resources\\"@,
    ensures
        crate::texture::dir_after_marker(n, marker) matches Some(d) ==> stands_in_place(n, d),
{
    reveal_strlit("\\resource\\");
    reveal_strlit("\\resources\\");
    crate::text::lemma_find_from_bound(lower_seq(n), marker, 0);
    match crate::text::find_from(lower_seq(n), marker, 0) {
        Some(idx) => {
            let ml = marker.len() as int;
            let tail = n.subrange(idx + ml, n.len() as int);
            crate::laws::lemma_last_before_none(tail, '\\', tail.len() as int);
            match crate::text::last_index_of(tail, '\\') {
                Some(ls) => {
                    let head = tail.subrange(0, ls);
                    let k1 = lemma_trim_start_run(head, '\\');
                    let st = trim_start_char(head, '\\');
                    let k2 = lemma_trim_end_run(st, '\\');
                    let dir = crate::text::trim_char(head, '\\');
                    if dir.len() > 0 {
                        let d = dir.push('\\');
                        let j = idx + ml;
                        let i = j + k1;
                        assert forall|x: int| 0 <= x < d.len() implies #[trigger] n.subrange(i, i + d.len())[x] == d[x] by {
                            if x < k2 {
                                assert(d[x] == st[x]);
                                assert(st[x] == head[k1 + x]);
                            } else if k1 + k2 < ls {
                                assert(st[k2] == head[k1 + k2]);
                            } else {
                                assert(tail[ls] == '\\');
                            }
                        }
                        assert(n.subrange(i, i + d.len()) =~= d);
                        assert(lower_seq(n).subrange(idx, idx + ml) == marker);
                        assert(marker_ends_at(n, j));
                        assert forall|k: int| j <= k < i implies #[trigger] n[k] == '\\' by {
                            assert(head[k - j] == '\\');
                        }
                        assert forall|k: int, k2b: int| i + d.len() <= k2b <= k < n.len() && #[trigger] n[k] == '\\'
                            implies #[trigger] n[k2b] == '\\' by {
                            assert(n[k] == tail[k - j]);
                            assert(k - j <= ls);
                            if k2b - j < ls {
                                assert(k2b - j - k1 >= k2);
                                assert(st[k2b - j - k1] == head[k2b - j]);
                            } else {
                                assert(n[k2b] == tail[ls]);
                            }
                        }
                        assert(dir_in_place(n, d, j, i));
                        assert(stands_in_place(n, d));
                        assert(crate::texture::dir_after_marker(n, marker) == Some(d));
                    }
                },
                None => {},
            }
        },
        None => {},
    }
}

/// The directory below `resource` is copied from the model's path as it
/// stands (same characters, same case, `/` read as `\`): it follows the
/// marker with only `\` between, ends with `\`, and only the file name
/// follows it.
pub proof fn law_relative_dir_copied(path: Seq<char>)
    ensures
        relative_dir(path) matches Some(d) ==> stands_in_place(normalize_seq(path), d),
{
    let n = normalize_seq(path);
    lemma_dir_after_marker_in_place(n, "\\resource\\"@);
    lemma_dir_after_marker_in_place(n, "\\resources\\"@);
}

proof fn lemma_find_first(s: Seq<char>, p: Seq<char>, i: int, idx: int)
    requires
        0 <= i <= idx,
        p.len() > 0,
        occurs_at(s, p, idx),
        forall|k: int| 0 <= k < idx ==> !#[trigger] occurs_at(s, p, k),
    ensures
        crate::text::find_from(s, p, i) == Some(idx),
    decreases idx - i,
{
    if i < idx {
        assert(!occurs_at(s, p, i));
        lemma_find_first(s, p, i + 1, idx);
    }
}

/// A marker's first occurrence followed by a directory (some character other
/// than `\`, then a `\`) gives a directory.
proof fn lemma_dir_found(n: Seq<char>, marker: Seq<char>, idx: int, x: int, y: int)
    requires
        marker.len() > 0,
        occurs_at(lower_seq(n), marker, idx),
        forall|k: int| 0 <= k < idx ==> !#[trigger] occurs_at(lower_seq(n), marker, k),
        idx + marker.len() <= x < y < n.len(),
        n[x] != '\\',
        n[y] == '\\',
    ensures
        crate::texture::dir_after_marker(n, marker) is Some,
{
    lemma_find_first(lower_seq(n), marker, 0, idx);
    let ml = marker.len() as int;
    let tail = n.subrange(idx + ml, n.len() as int);
    crate::laws::lemma_last_before_none(tail, '\\', tail.len() as int);
    assert(tail[y - idx - ml] == '\\');
    let ls = crate::text::last_index_of(tail, '\\').unwrap();
    assert(ls >= y - idx - ml);
    let head = tail.subrange(0, ls);
    let xh = x - idx - ml;
    assert(head[xh] == n[x]);
    let k1 = lemma_trim_start_run(head, '\\');
    assert(xh >= k1);
    let st = trim_start_char(head, '\\');
    let k2 = lemma_trim_end_run(st, '\\');
    assert(st[xh - k1] == head[xh]);
    assert(k2 > xh - k1);
    assert(crate::text::trim_char(head, '\\').len() > 0);
}

/// A model path whose first `\resource\` (in any ASCII case, `/` read as `\`)
/// is followed by a directory has a directory below `resource`.
pub proof fn law_relative_dir_found(path: Seq<char>, idx: int, x: int, y: int)
    requires
        occurs_at(lower_seq(normalize_seq(path)), "\\resource\\"@, idx),
        forall|k: int| 0 <= k < idx ==> !#[trigger] occurs_at(lower_seq(normalize_seq(path)), "\\resource\\"@, k),
        idx + 10 <= x < y < path.len(),
        normalize_seq(path)[x] != '\\',
        normalize_seq(path)[y] == '\\',
    ensures
        relative_dir(path) is Some,
{
    reveal_strlit("\\resource\\");
    lemma_dir_found(normalize_seq(path), "\\resource\\"@, idx, x, y);
}

/// A model path without `\resource\` whose first `\resources\` is followed by
/// a directory has a directory below `resources`.
pub proof fn law_relative_dir_found_plural(path: Seq<char>, idx: int, x: int, y: int)
    requires
        forall|k: int| !#[trigger] occurs_at(lower_seq(normalize_seq(path)), "\\resource\\"@, k),
        occurs_at(lower_seq(normalize_seq(path)), "\\resources\\"@, idx),
        forall|k: int| 0 <= k < idx ==> !#[trigger] occurs_at(lower_seq(normalize_seq(path)), "\\resources\\"@, k),
        idx + 11 <= x < y < path.len(),
        normalize_seq(path)[x] != '\\',
        normalize_seq(path)[y] == '\\',
    ensures
        relative_dir(path) is Some,
{
    reveal_strlit("\\resource\\");
    reveal_strlit("\\resources\\");
    let l = lower_seq(normalize_seq(path));
    crate::text::lemma_find_from_bound(l, "\\resource\\"@, 0);
    lemma_dir_found(normalize_seq(path), "\\resources\\"@, idx, x, y);
}

// ---------------------------------------------------------------------------
// What is written
// ---------------------------------------------------------------------------

/// An MDL text from `pos` on with the quoted path of each texture reference
/// replaced by the new path of its record, everything else kept.
pub open spec fn with_new_paths(t: Seq<char>, pos: int, m: ModelPathView, o: OptionsView) -> Seq<char>
    decreases t.len() - pos,
{
    if pos < 0 || pos >= t.len() {
        Seq::empty()
    } else {
        match texture_ref_at(t, pos) {
            Some((ps, pe)) => if pe + 1 > pos && pos <= ps {
                t.subrange(pos, ps) + record_for(m, o, t.subrange(ps, pe)).new_path + seq!['"']
                    + with_new_paths(t, pe + 1, m, o)
            } else {
                Seq::empty()
            },
            None => seq![t[pos]] + with_new_paths(t, pos + 1, m, o),
        }
    }
}

proof fn lemma_rewritten_from(t: Seq<char>, pos: int, m: ModelPathView, o: OptionsView)
    ensures
        rewrite_from(t, pos, m, o).text == with_new_paths(t, pos, m, o),
    decreases t.len() - pos,
{
    if 0 <= pos < t.len() {
        match texture_ref_at(t, pos) {
            Some((ps, pe)) => {
                crate::reapply::lemma_ref_facts(t, pos);
                crate::reapply::lemma_ref_text_shape(t, pos, m, o);
                lemma_rewritten_from(t, pe + 1, m, o);
            },
            None => {
                lemma_rewritten_from(t, pos + 1, m, o);
            },
        }
    }
}

/// The rewritten MDL text is the text with the quoted path of each texture
/// reference replaced by the new path of its record (a filtered texture's
/// path stays), and nothing else changed.
pub proof fn law_mdl_rewritten_text(t: Seq<char>, m: ModelPathView, o: OptionsView)
    ensures
        rewrite_text(t, m, o).text == with_new_paths(t, 0, m, o),
{
    lemma_rewritten_from(t, 0, m, o);
}

proof fn lemma_mdx_step_changed(b0: Seq<u8>, st: crate::mdx::MdxState, p: int, m: ModelPathView, o: OptionsView, write: bool)
    ensures
        mdx_step(b0, st, p, m, o, write).changed == (st.changed || entry_written(b0, p, m, o)),
{
    crate::reapply::lemma_c_len_bounds(b0, p, 0);
    let len = c_len(b0, p, 0);
    let old = entry_old(b0, p);
    assert(old == crate::encoding::gbk_decode(b0.subrange(p, p + len)));
    if len > 0 && is_texture_name(old) && !is_filtered(old, m, o) {
        let new = new_path(old, m, o);
        if old != new && !crate::mdx::too_long(new) {
            assert(entry_written(b0, p, m, o));
        }
    }
}

proof fn lemma_mdx_fold_changed(b0: Seq<u8>, ps: Seq<int>, m: ModelPathView, o: OptionsView, write: bool)
    ensures
        mdx_fold(b0, ps, m, o, write).changed <==> exists|k: int| 0 <= k < ps.len()
            && #[trigger] entry_written(b0, ps[k], m, o),
    decreases ps.len(),
{
    if ps.len() > 0 {
        let prev = ps.drop_last();
        let p = ps.last();
        lemma_mdx_fold_changed(b0, prev, m, o, write);
        let st = mdx_fold(b0, prev, m, o, write);
        assert(mdx_fold(b0, ps, m, o, write) == mdx_step(b0, st, p, m, o, write));
        lemma_mdx_step_changed(b0, st, p, m, o, write);
        if exists|k: int| 0 <= k < ps.len() && #[trigger] entry_written(b0, ps[k], m, o) {
            let k = choose|k: int| 0 <= k < ps.len() && #[trigger] entry_written(b0, ps[k], m, o);
            if k < prev.len() {
                assert(prev[k] == ps[k]);
            }
        }
        if exists|k: int| 0 <= k < prev.len() && #[trigger] entry_written(b0, prev[k], m, o) {
            let k = choose|k: int| 0 <= k < prev.len() && #[trigger] entry_written(b0, prev[k], m, o);
            assert(prev[k] == ps[k]);
        }
        assert(ps[ps.len() - 1] == p);
    }
}

/// An MDX file counts as changed exactly when some texture entry gets a new
/// path written: one that is not filtered, differs from the old path and fits
/// the entry.
pub proof fn law_mdx_changed_iff_written(b0: Seq<u8>, m: ModelPathView, o: OptionsView, write: bool)
    ensures
        mdx_result(b0, m, o, write).changed <==> is_mdx_header(b0) && exists|k: int|
            0 <= k < chunk_walk(b0, 4).0.len() && #[trigger] entry_written(b0, chunk_walk(b0, 4).0[k], m, o),
{
    if is_mdx_header(b0) {
        lemma_mdx_fold_changed(b0, chunk_walk(b0, 4).0, m, o, write);
    }
}

/// Rewriting an MDX file leaves the path room of each texture entry as
/// `room_after` gives it: the GBK form of the new path, zero-filled to the
/// room's 260 bytes, where the new path is written, and the room as it was
/// otherwise.
pub proof fn law_mdx_rooms_after_rewrite(b0: Seq<u8>, m: ModelPathView, o: OptionsView)
    ensures
        mdx_output(b0, m, o, true) matches Some(out) ==> forall|k: int| 0 <= k < chunk_walk(b0, 4).0.len()
            ==> room(out, #[trigger] chunk_walk(b0, 4).0[k]) == room_after(b0, chunk_walk(b0, 4).0[k], m, o),
{
    if mdx_output(b0, m, o, true) is Some {
        let ps = chunk_walk(b0, 4).0;
        crate::laws::lemma_chunk_walk_bounds(b0, 4);
        crate::reapply::lemma_walk_order(b0, 4);
        crate::reapply::lemma_first_fold_rooms(b0, ps, m, o);
    }
}

// ---------------------------------------------------------------------------
// Texture names and prefixes
// ---------------------------------------------------------------------------

/// Whether a path names a texture depends on it only up to ASCII case, and a
/// texture name has at least the four characters of its ending.
pub proof fn law_texture_name_ignores_case(a: Seq<char>, b: Seq<char>)
    requires
        lower_seq(a) == lower_seq(b),
    ensures
        is_texture_name(a) == is_texture_name(b),
        is_texture_name(a) ==> a.len() >= 4,
{
    reveal_strlit(".blp");
    reveal_strlit(".tga");
    assert(lower_seq(a).len() == a.len());
}

/// With a prefix in use (no reset, no `resource` rule, a prefix that is not
/// blank once expanded), the new path is the expanded prefix, then at most one
/// added `\` (only when asked for and the prefix does not already end with a
/// separator), then the texture's file name.
pub proof fn law_prefix_placement(old: Seq<char>, m: ModelPathView, o: OptionsView)
    requires
        !o.reset,
        !(o.trim_resource && relative_dir(m.path) is Some),
        !crate::text::all_white_space(expanded_prefix(m, o)),
    ensures
        ({
            let e = expanded_prefix(m, o);
            let n = new_path(old, m, o);
            let b = basename(old);
            &&& has_prefix(n, e)
            &&& n.subrange(n.len() - b.len(), n.len() as int) == b
            &&& n.len() == e.len() + b.len() || (n.len() == e.len() + b.len() + 1 && n[e.len() as int] == '\\')
            &&& (o.append_slash ==> n.len() > b.len() && (n[n.len() - b.len() - 1] == '\\' || n[n.len() - b.len() - 1] == '/'))
            &&& (!o.append_slash ==> n == e + b)
        }),
{
    let e = expanded_prefix(m, o);
    let n = new_path(old, m, o);
    let b = basename(old);
    if crate::texture::needs_slash(e, o) {
        assert(n == e.push('\\') + b);
        assert(n.subrange(0, e.len() as int) =~= e);
        assert(n.subrange(n.len() - b.len(), n.len() as int) =~= b);
        assert(n[e.len() as int] == '\\');
    } else {
        assert(n == e + b);
        assert(n.subrange(0, e.len() as int) =~= e);
        assert(n.subrange(n.len() - b.len(), n.len() as int) =~= b);
        if o.append_slash {
            assert(e.len() > 0);
            assert(n[n.len() - b.len() - 1] == e.last());
        }
    }
}

} // verus!
