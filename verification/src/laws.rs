//! Properties that hold of the path rules for every input.

use vstd::prelude::*;
use crate::mdl::{ref_change, ref_new_path, rewrite_from, rewrite_text, texture_ref_at};
use crate::mdx::{
    chunk_walk, entry_paths, mdx_fold, mdx_output, mdx_result, mdx_step, too_long, write_entry,
    MdxState,
};
use crate::model::{backup_name, ModelPathView};
use crate::process::file_outcome;
use crate::text::{
    all_white_space, ascii_lower, backslash_of, decimal, digit_char, last_before, last_index_of,
    lower_seq, normalize_seq, trim_char, trim_end_char, trim_start_char,
};
use crate::texture::{
    basename, expanded_prefix, is_builtin, is_filtered, needs_slash, new_path, relative_dir,
    rule_applies, ChangeView, OptionsView,
};

verus! {

// ---------------------------------------------------------------------------
// Helper lemmas on characters
// ---------------------------------------------------------------------------

pub(crate) proof fn lemma_lower_char(c: char)
    ensures
        'A' <= c <= 'Z' ==> 'a' <= ascii_lower(c) <= 'z',
        !('A' <= c <= 'Z') ==> ascii_lower(c) == c,
        ascii_lower(ascii_lower(c)) == ascii_lower(c),
        ascii_lower(backslash_of(c)) == backslash_of(ascii_lower(c)),
        ascii_lower(c) == '\\' <==> c == '\\',
        ascii_lower(c) == '/' <==> c == '/',
{
    if 'A' <= c && c <= 'Z' {
        assert(((c as u32) + 32) as u8 == (c as u32) + 32);
    }
}

proof fn lemma_lower_normalize(s: Seq<char>)
    ensures
        lower_seq(normalize_seq(s)) == normalize_seq(lower_seq(s)),
{
    assert forall|i: int| 0 <= i < s.len() implies lower_seq(normalize_seq(s))[i]
        == normalize_seq(lower_seq(s))[i] by {
        lemma_lower_char(s[i]);
    }
    assert(lower_seq(normalize_seq(s)) =~= normalize_seq(lower_seq(s)));
}

proof fn lemma_lower_trim_start(s: Seq<char>)
    ensures
        lower_seq(trim_start_char(s, '\\')) == trim_start_char(lower_seq(s), '\\'),
    decreases s.len(),
{
    if s.len() > 0 {
        lemma_lower_char(s[0]);
        assert(lower_seq(s).drop_first() =~= lower_seq(s.drop_first()));
        lemma_lower_trim_start(s.drop_first());
    }
}

proof fn lemma_normalize_normalize(s: Seq<char>)
    ensures
        normalize_seq(normalize_seq(s)) == normalize_seq(s),
{
    assert(normalize_seq(normalize_seq(s)) =~= normalize_seq(s));
}

/// A text that holds neither `/` nor `\`.
pub open spec fn no_separator(s: Seq<char>) -> bool {
    forall|i: int| 0 <= i < s.len() ==> #[trigger] s[i] != '\\' && s[i] != '/'
}

pub(crate) proof fn lemma_last_before_none(s: Seq<char>, c: char, n: int)
    requires
        0 <= n <= s.len(),
    ensures
        last_before(s, c, n) is None <==> (forall|j: int| 0 <= j < n ==> s[j] != c),
        last_before(s, c, n) matches Some(k) ==> 0 <= k < n && s[k] == c && (forall|j: int|
            k < j < n ==> s[j] != c),
    decreases n,
{
    if n > 0 {
        lemma_last_before_none(s, c, n - 1);
    }
}

// ---------------------------------------------------------------------------
// The built-in filter
// ---------------------------------------------------------------------------

/// Whether a texture counts as built in does not depend on ASCII case: two
/// paths that agree once lower-cased are both built in or both not.
pub proof fn law_builtin_ignores_case(a: Seq<char>, b: Seq<char>)
    requires
        lower_seq(a) == lower_seq(b),
    ensures
        is_builtin(a) == is_builtin(b),
{
    lemma_lower_normalize(a);
    lemma_lower_normalize(b);
    lemma_lower_trim_start(normalize_seq(a));
    lemma_lower_trim_start(normalize_seq(b));
}

/// Whether a texture counts as built in does not depend on which slash
/// separates its directories.
pub proof fn law_builtin_ignores_slash(a: Seq<char>)
    ensures
        is_builtin(normalize_seq(a)) == is_builtin(a),
{
    lemma_normalize_normalize(a);
}

/// Under the `resource` rule no texture is filtered as built in: the rule
/// overrides the filter.
pub proof fn law_resource_rule_overrides_filter(old: Seq<char>, m: ModelPathView, o: OptionsView)
    requires
        rule_applies(m, o),
    ensures
        !is_filtered(old, m, o),
{
}

/// When resetting, the `resource` rule never applies, so with the filter on
/// every built-in texture is left alone.
pub proof fn law_reset_respects_filter(old: Seq<char>, m: ModelPathView, o: OptionsView)
    requires
        o.reset,
        o.skip_builtin,
        is_builtin(old),
    ensures
        !rule_applies(m, o),
        is_filtered(old, m, o),
{
}

// ---------------------------------------------------------------------------
// File names
// ---------------------------------------------------------------------------

/// The file name of a texture path holds no separator.
pub proof fn law_basename_has_no_separator(path: Seq<char>)
    ensures
        no_separator(basename(path)),
{
    let n = normalize_seq(path);
    lemma_last_before_none(n, '\\', n.len() as int);
    assert forall|i: int| 0 <= i < basename(path).len() implies #[trigger] basename(path)[i] != '\\'
        && basename(path)[i] != '/' by {
        match last_index_of(n, '\\') {
            Some(k) => {
                assert(basename(path)[i] == n[k + 1 + i]);
            },
            None => {},
        }
    }
}

/// A text without separators is its own file name.
proof fn lemma_basename_plain(b: Seq<char>)
    requires
        no_separator(b),
    ensures
        basename(b) == b,
{
    assert(normalize_seq(b) =~= b);
    lemma_last_before_none(b, '\\', b.len() as int);
}

/// Taking the file name twice gives the file name.
pub proof fn law_basename_idempotent(path: Seq<char>)
    ensures
        basename(basename(path)) == basename(path),
{
    law_basename_has_no_separator(path);
    lemma_basename_plain(basename(path));
}

/// The file name of a directory ending in a separator followed by a plain
/// name is that name.
proof fn lemma_basename_after_dir(dir: Seq<char>, b: Seq<char>)
    requires
        dir.len() > 0,
        dir.last() == '\\' || dir.last() == '/',
        no_separator(b),
    ensures
        basename(dir + b) == b,
{
    let n = normalize_seq(dir + b);
    assert(n.len() == dir.len() + b.len());
    let k = dir.len() - 1;
    assert(n[k] == '\\');
    assert forall|j: int| k < j < n.len() implies n[j] != '\\' by {
        assert(n[j] == backslash_of(b[j - dir.len()]));
    }
    lemma_last_before_none(n, '\\', n.len() as int);
    match last_index_of(n, '\\') {
        Some(x) => {
            assert(x == k);
        },
        None => {
            assert(n[k] == '\\');
        },
    }
    assert(n.subrange(k + 1, n.len() as int) =~= b) by {
        assert forall|j: int| 0 <= j < b.len() implies n.subrange(k + 1, n.len() as int)[j] == b[j] by {
            assert(n[k + 1 + j] == backslash_of(b[j]));
        }
    }
}

// ---------------------------------------------------------------------------
// The directory under `resource`
// ---------------------------------------------------------------------------

proof fn lemma_trim_start_props(s: Seq<char>, c: char)
    ensures
        trim_start_char(s, c).len() > 0 ==> trim_start_char(s, c)[0] != c,
        trim_start_char(s, c).len() <= s.len(),
        exists|k: int| 0 <= k <= s.len() && trim_start_char(s, c) == #[trigger] s.subrange(k, s.len() as int),
    decreases s.len(),
{
    if s.len() > 0 && s[0] == c {
        lemma_trim_start_props(s.drop_first(), c);
        let k = choose|k: int| 0 <= k <= s.drop_first().len() && trim_start_char(s.drop_first(), c)
            == #[trigger] s.drop_first().subrange(k, s.drop_first().len() as int);
        assert(s.drop_first().subrange(k, s.drop_first().len() as int) =~= s.subrange(k + 1, s.len() as int));
    } else {
        assert(s.subrange(0, s.len() as int) =~= s);
    }
}

proof fn lemma_trim_end_props(s: Seq<char>, c: char)
    ensures
        trim_end_char(s, c).len() > 0 ==> trim_end_char(s, c).last() != c,
        trim_end_char(s, c).len() > 0 ==> trim_end_char(s, c)[0] == s[0],
        exists|k: int| 0 <= k <= s.len() && trim_end_char(s, c) == #[trigger] s.subrange(0, k),
    decreases s.len(),
{
    if s.len() > 0 && s.last() == c {
        lemma_trim_end_props(s.drop_last(), c);
        let k = choose|k: int| 0 <= k <= s.drop_last().len() && trim_end_char(s.drop_last(), c)
            == #[trigger] s.drop_last().subrange(0, k);
        assert(s.drop_last().subrange(0, k) =~= s.subrange(0, k));
    } else {
        assert(s.subrange(0, s.len() as int) =~= s);
    }
}

/// The directory under `resource` is never empty, ends with exactly one `\`,
/// starts with no `\` and holds no `/`.
pub proof fn law_relative_dir_shape(path: Seq<char>)
    ensures
        relative_dir(path) matches Some(d) ==> d.len() >= 2 && d.last() == '\\' && d[0] != '\\'
            && d[d.len() - 2] != '\\' && (forall|i: int| 0 <= i < d.len() ==> #[trigger] d[i] != '/'),
{
    let n = normalize_seq(path);
    assert forall|i: int| 0 <= i < n.len() implies #[trigger] n[i] != '/' by {
        assert(n[i] == backslash_of(path[i]));
    }
    lemma_dir_after_marker_shape(n, "\\resource\\"@);
    lemma_dir_after_marker_shape(n, "\\resources\\"@);
}

proof fn lemma_dir_after_marker_shape(n: Seq<char>, marker: Seq<char>)
    requires
        forall|i: int| 0 <= i < n.len() ==> #[trigger] n[i] != '/',
    ensures
        crate::texture::dir_after_marker(n, marker) matches Some(d) ==> d.len() >= 2 && d.last()
            == '\\' && d[0] != '\\' && d[d.len() - 2] != '\\' && (forall|i: int| 0 <= i < d.len() ==> #[trigger] d[i] != '/'),
{
    crate::text::lemma_find_from_bound(lower_seq(n), marker, 0);
    match crate::text::find_from(lower_seq(n), marker, 0) {
        Some(idx) => {
            let tail = n.subrange(idx + marker.len(), n.len() as int);
            crate::text::lemma_last_before_bound(tail, '\\', tail.len() as int);
            match last_index_of(tail, '\\') {
                Some(ls) => {
                    let head = tail.subrange(0, ls);
                    let st = trim_start_char(head, '\\');
                    lemma_trim_start_props(head, '\\');
                    lemma_trim_end_props(st, '\\');
                    let dir = trim_char(head, '\\');
                    if dir.len() > 0 {
                        let k1 = choose|k: int| 0 <= k <= head.len() && st == #[trigger] head.subrange(k, head.len() as int);
                        let k2 = choose|k: int| 0 <= k <= st.len() && dir == #[trigger] st.subrange(0, k);
                        assert forall|i: int| 0 <= i < dir.len() implies #[trigger] dir[i] != '/' by {
                            assert(dir[i] == st[i]);
                            assert(st[i] == head[k1 + i]);
                            assert(head[k1 + i] == n[idx + marker.len() + k1 + i]);
                        }
                        let d = dir.push('\\');
                        assert forall|i: int| 0 <= i < d.len() implies #[trigger] d[i] != '/' by {
                            if i < dir.len() {
                                assert(d[i] == dir[i]);
                            }
                        }
                    }
                },
                None => {},
            }
        },
        None => {},
    }
}

// ---------------------------------------------------------------------------
// New paths
// ---------------------------------------------------------------------------

/// The options put a separator between whatever directory they give and the
/// texture's file name (always so when resetting, under the `resource` rule,
/// with a blank prefix, or with a `\` appended or already there).
pub open spec fn keeps_file_name(m: ModelPathView, o: OptionsView) -> bool {
    let e = expanded_prefix(m, o);
    ||| o.reset
    ||| (o.trim_resource && relative_dir(m.path) is Some)
    ||| all_white_space(e)
    ||| needs_slash(e, o)
    ||| (e.len() > 0 && (e.last() == '\\' || e.last() == '/'))
}

/// When resetting, a texture's new path is its bare file name, whatever the
/// prefix.
pub proof fn law_reset_gives_file_name(old: Seq<char>, m: ModelPathView, o: OptionsView)
    requires
        o.reset,
    ensures
        new_path(old, m, o) == basename(old),
{
}

/// Under the `resource` rule a texture's new path is the model's directory
/// below `resource` followed by the texture's file name.
pub proof fn law_resource_rule_path(old: Seq<char>, m: ModelPathView, o: OptionsView)
    requires
        rule_applies(m, o),
    ensures
        new_path(old, m, o) == relative_dir(m.path).unwrap() + basename(old),
{
}

/// The new path depends on the old one only through its file name.
pub proof fn law_new_path_uses_only_file_name(a: Seq<char>, b: Seq<char>, m: ModelPathView, o: OptionsView)
    requires
        basename(a) == basename(b),
    ensures
        new_path(a, m, o) == new_path(b, m, o),
{
}

/// Where the options put a separator before the file name, the new path keeps
/// the texture's file name.
pub proof fn law_new_path_keeps_file_name(old: Seq<char>, m: ModelPathView, o: OptionsView)
    requires
        keeps_file_name(m, o),
    ensures
        basename(new_path(old, m, o)) == basename(old),
{
    let b = basename(old);
    law_basename_has_no_separator(old);
    law_basename_idempotent(old);
    if o.reset {
    } else if o.trim_resource && relative_dir(m.path) is Some {
        law_relative_dir_shape(m.path);
        lemma_basename_after_dir(relative_dir(m.path).unwrap(), b);
    } else {
        let e = expanded_prefix(m, o);
        if all_white_space(e) {
        } else if needs_slash(e, o) {
            lemma_basename_after_dir(e.push('\\'), b);
        } else {
            lemma_basename_after_dir(e, b);
        }
    }
}

/// Applying the same options a second time changes nothing more, where the
/// options put a separator before the file name.
pub proof fn law_modify_twice_is_modify_once(old: Seq<char>, m: ModelPathView, o: OptionsView)
    requires
        keeps_file_name(m, o),
    ensures
        new_path(new_path(old, m, o), m, o) == new_path(old, m, o),
{
    law_new_path_keeps_file_name(old, m, o);
    law_new_path_uses_only_file_name(new_path(old, m, o), old, m, o);
}

/// A reset after a modification gives what a reset of the old path gives.
pub proof fn law_reset_undoes_modify(old: Seq<char>, m: ModelPathView, o: OptionsView, r: OptionsView)
    requires
        keeps_file_name(m, o),
        r.reset,
    ensures
        new_path(new_path(old, m, o), m, r) == new_path(old, m, r),
{
    law_new_path_keeps_file_name(old, m, o);
}

// ---------------------------------------------------------------------------
// MDL text
// ---------------------------------------------------------------------------

proof fn lemma_mdl_unchanged_from(t: Seq<char>, pos: int, m: ModelPathView, o: OptionsView)
    requires
        0 <= pos <= t.len(),
    ensures
        !rewrite_from(t, pos, m, o).changed ==> rewrite_from(t, pos, m, o).text == t.subrange(pos, t.len() as int),
    decreases t.len() - pos,
{
    if pos < t.len() {
        match texture_ref_at(t, pos) {
            Some((ps, pe)) => {
                lemma_mdl_unchanged_from(t, pe + 1, m, o);
                assert(t.subrange(pos, pe + 1) + t.subrange(pe + 1, t.len() as int) =~= t.subrange(pos, t.len() as int));
            },
            None => {
                lemma_mdl_unchanged_from(t, pos + 1, m, o);
                assert(seq![t[pos]] + t.subrange(pos + 1, t.len() as int) =~= t.subrange(pos, t.len() as int));
            },
        }
    } else {
        assert(t.subrange(pos, t.len() as int) =~= Seq::<char>::empty());
    }
}

/// An MDL text in which no path changes is written back as it was.
pub proof fn law_mdl_unchanged_text(t: Seq<char>, m: ModelPathView, o: OptionsView)
    ensures
        !rewrite_text(t, m, o).changed ==> rewrite_text(t, m, o).text == t,
{
    lemma_mdl_unchanged_from(t, 0, m, o);
    assert(t.subrange(0, t.len() as int) =~= t);
}

proof fn lemma_mdl_records_from(t: Seq<char>, pos: int, m: ModelPathView, o: OptionsView)
    ensures
        forall|k: int| 0 <= k < rewrite_from(t, pos, m, o).changes.len() && (#[trigger] rewrite_from(t, pos, m, o).changes[k]).filtered
            ==> rewrite_from(t, pos, m, o).changes[k].new_path == rewrite_from(t, pos, m, o).changes[k].old_path,
        rewrite_from(t, pos, m, o).changed <==> exists|k: int| 0 <= k < rewrite_from(t, pos, m, o).changes.len()
            && (#[trigger] rewrite_from(t, pos, m, o).changes[k]).new_path != rewrite_from(t, pos, m, o).changes[k].old_path,
    decreases t.len() - pos,
{
    if 0 <= pos < t.len() {
        match texture_ref_at(t, pos) {
            Some((ps, pe)) => {
                lemma_mdl_records_from(t, pe + 1, m, o);
                let rest = rewrite_from(t, pe + 1, m, o);
                let cur = rewrite_from(t, pos, m, o);
                let old = t.subrange(ps, pe);
                assert(cur.changes == seq![ref_change(old, m, o)] + rest.changes);
                assert forall|k: int| 0 < k < cur.changes.len() implies #[trigger] cur.changes[k] == rest.changes[k - 1] by {}
                if rest.changed {
                    let k = choose|k: int| 0 <= k < rest.changes.len() && (#[trigger] rest.changes[k]).new_path != rest.changes[k].old_path;
                    assert(cur.changes[k + 1] == rest.changes[k]);
                }
                if cur.changed {
                    if old != ref_new_path(old, m, o) {
                        assert(cur.changes[0] == ref_change(old, m, o));
                    }
                }
                if exists|k: int| 0 <= k < cur.changes.len() && (#[trigger] cur.changes[k]).new_path != cur.changes[k].old_path {
                    let k = choose|k: int| 0 <= k < cur.changes.len() && (#[trigger] cur.changes[k]).new_path != cur.changes[k].old_path;
                    if k == 0 {
                        assert(cur.changes[0] == ref_change(old, m, o));
                    } else {
                        assert(rest.changes[k - 1] == cur.changes[k]);
                    }
                }
            },
            None => {
                lemma_mdl_records_from(t, pos + 1, m, o);
                assert(rewrite_from(t, pos, m, o).changes == rewrite_from(t, pos + 1, m, o).changes);
            },
        }
    }
}

/// Every texture that an MDL text filters as built in keeps its path, and the
/// text counts as changed exactly when some record shows a different path.
pub proof fn law_mdl_records(t: Seq<char>, m: ModelPathView, o: OptionsView)
    ensures
        forall|k: int| 0 <= k < rewrite_text(t, m, o).changes.len() && (#[trigger] rewrite_text(t, m, o).changes[k]).filtered
            ==> rewrite_text(t, m, o).changes[k].new_path == rewrite_text(t, m, o).changes[k].old_path,
        rewrite_text(t, m, o).changed <==> exists|k: int| 0 <= k < rewrite_text(t, m, o).changes.len()
            && (#[trigger] rewrite_text(t, m, o).changes[k]).new_path != rewrite_text(t, m, o).changes[k].old_path,
{
    lemma_mdl_records_from(t, 0, m, o);
}

// ---------------------------------------------------------------------------
// MDX bytes
// ---------------------------------------------------------------------------

/// The parts of the processing state that do not depend on writing.
pub open spec fn reported(st: MdxState) -> (Seq<ChangeView>, Seq<Seq<char>>, bool) {
    (st.changes, st.warnings, st.changed)
}

proof fn lemma_mdx_fold_reported(b0: Seq<u8>, ps: Seq<int>, m: ModelPathView, o: OptionsView)
    ensures
        reported(mdx_fold(b0, ps, m, o, true)) == reported(mdx_fold(b0, ps, m, o, false)),
    decreases ps.len(),
{
    if ps.len() > 0 {
        lemma_mdx_fold_reported(b0, ps.drop_last(), m, o);
    }
}

/// A preview of an MDX file reports exactly what rewriting it reports.
pub proof fn law_mdx_preview_matches_apply(b0: Seq<u8>, m: ModelPathView, o: OptionsView)
    ensures
        mdx_result(b0, m, o, true) == mdx_result(b0, m, o, false),
{
    if crate::mdx::is_mdx_header(b0) {
        lemma_mdx_fold_reported(b0, chunk_walk(b0, 4).0, m, o);
    }
}

pub(crate) proof fn lemma_chunk_walk_bounds(b: Seq<u8>, off: int)
    requires
        0 <= off,
    ensures
        forall|k: int| 0 <= k < chunk_walk(b, off).0.len() ==> 0 <= #[trigger] chunk_walk(b, off).0[k]
            && chunk_walk(b, off).0[k] + 260 <= b.len(),
    decreases b.len() - off,
{
    if off + 8 <= b.len() {
        let size = crate::mdx::le_u32(b, off + 4);
        let start = off + 8;
        if start + size <= b.len() {
            lemma_chunk_walk_bounds(b, start + size);
            let here = if crate::mdx::is_texs_at(b, off) { entry_paths(start, size) } else { Seq::empty() };
            assert forall|e: int| 0 <= e < here.len() implies 0 <= #[trigger] here[e] && here[e] + 260 <= b.len() by {
                if crate::mdx::is_texs_at(b, off) {
                    assert(e * 268 + 268 <= (size / 268) * 268) by (nonlinear_arith)
                        requires 0 <= e < size / 268, size >= 0;
                    assert((size / 268) * 268 <= size) by (nonlinear_arith)
                        requires size >= 0;
                    assert(e * 268 >= 0) by (nonlinear_arith)
                        requires e >= 0;
                }
            }
            let rest = chunk_walk(b, start + size);
            assert forall|k: int| 0 <= k < chunk_walk(b, off).0.len() implies 0 <= #[trigger] chunk_walk(b, off).0[k]
                && chunk_walk(b, off).0[k] + 260 <= b.len() by {
                if k < here.len() {
                    assert(chunk_walk(b, off).0[k] == here[k]);
                } else {
                    assert(chunk_walk(b, off).0[k] == rest.0[k - here.len()]);
                }
            }
        }
    }
}

proof fn lemma_mdx_fold_length(b0: Seq<u8>, ps: Seq<int>, m: ModelPathView, o: OptionsView, write: bool)
    requires
        forall|k: int| 0 <= k < ps.len() ==> 0 <= #[trigger] ps[k] && ps[k] + 260 <= b0.len(),
    ensures
        mdx_fold(b0, ps, m, o, write).bytes.len() == b0.len(),
    decreases ps.len(),
{
    if ps.len() > 0 {
        lemma_mdx_fold_length(b0, ps.drop_last(), m, o, write);
        let st = mdx_fold(b0, ps.drop_last(), m, o, write);
        let p = ps.last();
        assert(0 <= p && p + 260 <= b0.len());
        let len = crate::mdx::c_len(b0, p, 0);
        if len > 0 {
            let old = crate::encoding::gbk_decode(b0.subrange(p, p + len));
            let new = new_path(old, m, o);
            if write && !too_long(new) {
                let enc = crate::encoding::gbk_encode(new);
                assert(write_entry(st.bytes, p, enc).len() == st.bytes.len());
            }
        }
    }
}

/// Index `i` lies in the path room of one of the entries.
pub open spec fn in_path_room(ps: Seq<int>, i: int) -> bool {
    exists|k: int| 0 <= k < ps.len() && #[trigger] ps[k] <= i < ps[k] + 260
}

pub(crate) proof fn lemma_mdx_fold_rooms(b0: Seq<u8>, ps: Seq<int>, m: ModelPathView, o: OptionsView, write: bool)
    requires
        forall|k: int| 0 <= k < ps.len() ==> 0 <= #[trigger] ps[k] && ps[k] + 260 <= b0.len(),
    ensures
        mdx_fold(b0, ps, m, o, write).bytes.len() == b0.len(),
        forall|i: int| 0 <= i < b0.len() && !in_path_room(ps, i) ==> #[trigger] mdx_fold(b0, ps, m, o, write).bytes[i] == b0[i],
    decreases ps.len(),
{
    lemma_mdx_fold_length(b0, ps, m, o, write);
    if ps.len() > 0 {
        let prev = ps.drop_last();
        lemma_mdx_fold_rooms(b0, prev, m, o, write);
        let st = mdx_fold(b0, prev, m, o, write);
        let p = ps.last();
        let st2 = mdx_fold(b0, ps, m, o, write);
        assert forall|i: int| 0 <= i < b0.len() && !in_path_room(ps, i) implies #[trigger] st2.bytes[i] == b0[i] by {
            assert(!in_path_room(prev, i)) by {
                if in_path_room(prev, i) {
                    let k = choose|k: int| 0 <= k < prev.len() && #[trigger] prev[k] <= i < prev[k] + 260;
                    assert(ps[k] == prev[k]);
                }
            }
            assert(!(p <= i < p + 260)) by {
                if p <= i < p + 260 {
                    assert(ps[ps.len() - 1] == p);
                }
            }
            let len = crate::mdx::c_len(b0, p, 0);
            if len > 0 {
                let old = crate::encoding::gbk_decode(b0.subrange(p, p + len));
                let new = new_path(old, m, o);
                if write && !too_long(new) {
                    let enc = crate::encoding::gbk_encode(new);
                    let w = write_entry(st.bytes, p, enc);
                    if i < p {
                        assert(w[i] == st.bytes[i]);
                    } else {
                        assert(w[i] == st.bytes[i]);
                    }
                }
            }
        }
    }
}

/// Rewriting an MDX file changes no byte outside the path room of its
/// texture entries: chunk headers, other chunks and the rest of each entry
/// stay as they were.
pub proof fn law_mdx_only_path_rooms_change(b0: Seq<u8>, m: ModelPathView, o: OptionsView, write: bool)
    ensures
        mdx_output(b0, m, o, write) matches Some(out) ==> out.len() == b0.len() && forall|i: int|
            0 <= i < b0.len() && !in_path_room(chunk_walk(b0, 4).0, i) ==> #[trigger] out[i] == b0[i],
{
    if crate::mdx::is_mdx_header(b0) {
        lemma_chunk_walk_bounds(b0, 4);
        lemma_mdx_fold_rooms(b0, chunk_walk(b0, 4).0, m, o, write);
    }
}

proof fn lemma_mdx_step_records(b0: Seq<u8>, st: MdxState, p: int, m: ModelPathView, o: OptionsView, write: bool)
    ensures
        mdx_step(b0, st, p, m, o, write).changes == st.changes || exists|x: ChangeView| mdx_step(b0, st, p, m, o, write).changes
            == #[trigger] st.changes.push(x) && (x.filtered ==> x.new_path == x.old_path),
{
    let len = crate::mdx::c_len(b0, p, 0);
    if len > 0 {
        let old = crate::encoding::gbk_decode(b0.subrange(p, p + len));
        if crate::texture::is_texture_name(old) {
            if is_filtered(old, m, o) {
                let x = crate::texture::change_of(m, old, old, true);
                assert(mdx_step(b0, st, p, m, o, write).changes == st.changes.push(x));
            } else {
                let x = crate::texture::change_of(m, old, new_path(old, m, o), false);
                assert(mdx_step(b0, st, p, m, o, write).changes == st.changes.push(x));
            }
        }
    }
}

proof fn lemma_mdx_fold_filtered(b0: Seq<u8>, ps: Seq<int>, m: ModelPathView, o: OptionsView, write: bool)
    ensures
        forall|k: int| 0 <= k < mdx_fold(b0, ps, m, o, write).changes.len()
            && (#[trigger] mdx_fold(b0, ps, m, o, write).changes[k]).filtered
            ==> mdx_fold(b0, ps, m, o, write).changes[k].new_path == mdx_fold(b0, ps, m, o, write).changes[k].old_path,
    decreases ps.len(),
{
    if ps.len() > 0 {
        lemma_mdx_fold_filtered(b0, ps.drop_last(), m, o, write);
        let st = mdx_fold(b0, ps.drop_last(), m, o, write);
        lemma_mdx_step_records(b0, st, ps.last(), m, o, write);
        let st2 = mdx_fold(b0, ps, m, o, write);
        assert(st2 == mdx_step(b0, st, ps.last(), m, o, write));
        if st2.changes != st.changes {
            let x = choose|x: ChangeView| st2.changes == #[trigger] st.changes.push(x) && (x.filtered ==> x.new_path == x.old_path);
            assert forall|k: int| 0 <= k < st2.changes.len() && (#[trigger] st2.changes[k]).filtered
                implies st2.changes[k].new_path == st2.changes[k].old_path by {
                if k < st.changes.len() {
                    assert(st2.changes[k] == st.changes[k]);
                } else {
                    assert(st2.changes[k] == x);
                }
            }
        }
    }
}

/// Every texture that an MDX file filters as built in keeps its path.
pub proof fn law_mdx_filtered_keep_path(b0: Seq<u8>, m: ModelPathView, o: OptionsView, write: bool)
    ensures
        forall|k: int| 0 <= k < mdx_result(b0, m, o, write).changes.len()
            && (#[trigger] mdx_result(b0, m, o, write).changes[k]).filtered
            ==> mdx_result(b0, m, o, write).changes[k].new_path == mdx_result(b0, m, o, write).changes[k].old_path,
{
    if crate::mdx::is_mdx_header(b0) {
        lemma_mdx_fold_filtered(b0, chunk_walk(b0, 4).0, m, o, write);
    }
}

// ---------------------------------------------------------------------------
// Files and backups
// ---------------------------------------------------------------------------

/// A preview never yields bytes to write.
pub proof fn law_preview_writes_nothing(bytes: Seq<u8>, m: ModelPathView, o: OptionsView)
    ensures
        file_outcome(bytes, m, o, false) matches Some(r) ==> r.1 is None,
{
}

/// Rewriting a file reports exactly what a preview of it reports, and the
/// preview yields nothing to write.
pub proof fn law_preview_matches_apply(bytes: Seq<u8>, m: ModelPathView, o: OptionsView)
    ensures
        file_outcome(bytes, m, o, true) matches Some(a) ==> file_outcome(bytes, m, o, false) == Some((a.0, None::<Seq<u8>>)),
{
    law_mdx_preview_matches_apply(bytes, m, o);
}

/// The records and messages gathered over a list of model files (their bytes
/// and paths), in order; none where some file yields none.
pub open spec fn gathered(files: Seq<(Seq<u8>, ModelPathView)>, o: OptionsView, write: bool) -> Option<(Seq<ChangeView>, Seq<Seq<char>>)>
    decreases files.len(),
{
    if files.len() == 0 {
        Some((Seq::empty(), Seq::empty()))
    } else {
        match gathered(files.drop_last(), o, write) {
            Some(acc) => match file_outcome(files.last().0, files.last().1, o, write) {
                Some(r) => Some((acc.0 + r.0.changes, acc.1 + r.0.warnings)),
                None => None,
            },
            None => None,
        }
    }
}

/// Over a list of distinct model files read from one state, rewriting them
/// gathers the same records and messages (backup notices aside, which the
/// library does not produce) as a preview of them.
pub proof fn law_gathered_preview_matches_apply(files: Seq<(Seq<u8>, ModelPathView)>, o: OptionsView)
    ensures
        gathered(files, o, true) is Some ==> gathered(files, o, false) == gathered(files, o, true),
    decreases files.len(),
{
    if files.len() > 0 {
        law_gathered_preview_matches_apply(files.drop_last(), o);
        law_preview_matches_apply(files.last().0, files.last().1, o);
    }
}

proof fn lemma_decimal_len(n: nat)
    ensures
        decimal(n).len() >= 1,
        n < 10 <==> decimal(n).len() == 1,
    decreases n,
{
    if n >= 10 {
        lemma_decimal_len(n / 10);
    }
}

proof fn lemma_digit_char(a: nat, b: nat)
    requires
        a < 10,
        b < 10,
        digit_char(a) == digit_char(b),
    ensures
        a == b,
{
    assert((a + 48) as u8 == a + 48);
    assert((b + 48) as u8 == b + 48);
}

proof fn lemma_decimal_injective(a: nat, b: nat)
    requires
        decimal(a) == decimal(b),
    ensures
        a == b,
    decreases a,
{
    lemma_decimal_len(a);
    lemma_decimal_len(b);
    if a < 10 {
        assert(decimal(b).len() == 1);
        assert(b < 10);
        assert(decimal(a) == seq![digit_char(a)]);
        assert(decimal(b) == seq![digit_char(b)]);
        assert(decimal(a)[0] == decimal(b)[0]);
        assert(seq![digit_char(a)][0] == digit_char(a));
        assert(seq![digit_char(b)][0] == digit_char(b));
        lemma_digit_char(a, b);
    } else {
        let da = decimal(a);
        let db = decimal(b);
        assert(da.last() == digit_char(a % 10));
        assert(db.last() == digit_char(b % 10));
        lemma_digit_char(a % 10, b % 10);
        assert(da.drop_last() =~= decimal(a / 10));
        assert(db.drop_last() =~= decimal(b / 10));
        lemma_decimal_injective(a / 10, b / 10);
    }
}

/// Backups tried with different numbers have different names, so the search
/// for a free backup name never tries one name twice.
pub proof fn law_backup_names_distinct(m: ModelPathView, a: nat, b: nat)
    requires
        a != b,
    ensures
        backup_name(m, a) != backup_name(m, b),
{
    let stem = match m.file_stem {
        Some(s) => s,
        None => "model"@,
    };
    let ext = match m.extension {
        Some(e) => seq!['.'] + e,
        None => Seq::<char>::empty(),
    };
    let head = stem + "back"@;
    if backup_name(m, a) == backup_name(m, b) {
        let x = backup_name(m, a);
        let da = decimal(a);
        let db = decimal(b);
        assert(x == head + da + ext);
        assert(x == head + db + ext);
        assert(da.len() == db.len());
        assert(da =~= x.subrange(head.len() as int, (head.len() + da.len()) as int));
        assert(db =~= x.subrange(head.len() as int, (head.len() + db.len()) as int));
        lemma_decimal_injective(a, b);
    }
}

} // verus!
