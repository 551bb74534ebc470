//! Applying the same options to a model a second time: once its rewritten
//! paths read back as written, nothing more changes.

use vstd::prelude::*;
use crate::encoding::{decode_admits, gbk_decode, gbk_encode};
use crate::laws::{
    in_path_room, keeps_file_name, law_modify_twice_is_modify_once, lemma_chunk_walk_bounds,
    lemma_last_before_none, lemma_lower_char, lemma_mdx_fold_rooms,
};
use crate::mdl::{
    image_word_at, lemma_quote_end, lemma_ref_replace, lemma_white_end, mdl_fits, mdl_output,
    mdl_result, quote_end, ref_new_path, ref_text, rewrite_from, rewrite_text, texture_ref_at,
    white_end,
};
use crate::mdx::{
    c_len, chunk_walk, entry_paths, is_mdx_header, is_texs_at, le_u32, mdx_final, mdx_fold,
    mdx_output, mdx_result, mdx_step, too_long, write_entry, zeros,
};
use crate::model::{is_mdx_ext, ModelPathView};
use crate::process::file_outcome;
use crate::text::{
    all_white_space, ascii_lower, backslash_of, has_suffix, is_white_space, last_index_of, lower_seq,
    normalize_seq,
};
use crate::texture::{
    basename, expanded_prefix, is_filtered, is_texture_name, needs_slash, new_path, relative_dir,
    OptionsView,
};

verus! {

// ---------------------------------------------------------------------------
// What reads back
// ---------------------------------------------------------------------------

/// A path written in GBK reads back as written: its GBK form decodes to it
/// and holds no zero byte (which would end it early in an MDX entry).
pub open spec fn reads_back(new: Seq<char>) -> bool {
    gbk_decode(gbk_encode(new)) == new && !gbk_encode(new).contains(0u8)
}

/// The path room of the entry at `p`.
pub open spec fn room(b: Seq<u8>, p: int) -> Seq<u8> {
    b.subrange(p, p + 260)
}

/// The path that the entry at `p` holds.
pub open spec fn entry_old(b0: Seq<u8>, p: int) -> Seq<char> {
    gbk_decode(b0.subrange(p, p + c_len(b0, p, 0)))
}

/// Whether rewriting writes a new path into the entry at `p`.
pub open spec fn entry_written(b0: Seq<u8>, p: int, m: ModelPathView, o: OptionsView) -> bool {
    let old = entry_old(b0, p);
    let new = new_path(old, m, o);
    c_len(b0, p, 0) > 0 && is_texture_name(old) && !is_filtered(old, m, o) && old != new && !too_long(new)
}

/// The path room of the entry at `p` after rewriting.
pub open spec fn room_after(b0: Seq<u8>, p: int, m: ModelPathView, o: OptionsView) -> Seq<u8> {
    if entry_written(b0, p, m, o) {
        let enc = gbk_encode(new_path(entry_old(b0, p), m, o));
        enc + zeros(260 - enc.len())
    } else {
        room(b0, p)
    }
}

/// Every path that rewriting writes into an entry of the MDX file reads back
/// as written.
pub open spec fn mdx_writes_read_back(b0: Seq<u8>, m: ModelPathView, o: OptionsView) -> bool {
    forall|k: int| 0 <= k < chunk_walk(b0, 4).0.len() && #[trigger] entry_written(b0, chunk_walk(b0, 4).0[k], m, o)
        ==> reads_back(new_path(entry_old(b0, chunk_walk(b0, 4).0[k]), m, o))
}

// ---------------------------------------------------------------------------
// The chunk walk
// ---------------------------------------------------------------------------

/// Entries lie behind the header of the chunk that holds them, in order, one
/// entry's size apart at least.
pub(crate) proof fn lemma_walk_order(b: Seq<u8>, off: int)
    requires
        0 <= off,
    ensures
        forall|k: int| 0 <= k < chunk_walk(b, off).0.len() ==> #[trigger] chunk_walk(b, off).0[k] >= off + 12,
        forall|i: int, j: int| 0 <= i < j < chunk_walk(b, off).0.len()
            ==> #[trigger] chunk_walk(b, off).0[i] + 268 <= #[trigger] chunk_walk(b, off).0[j],
    decreases b.len() - off,
{
    if off + 8 <= b.len() {
        let size = le_u32(b, off + 4);
        let start = off + 8;
        if start + size <= b.len() {
            lemma_walk_order(b, start + size);
            let rest = chunk_walk(b, start + size);
            let here = if is_texs_at(b, off) { entry_paths(start, size) } else { Seq::empty() };
            let w = chunk_walk(b, off).0;
            assert(w == here + rest.0);
            assert forall|e: int| 0 <= e < here.len() implies #[trigger] here[e] >= start + 4 && here[e] + 264 <= start + size by {
                assert(e * 268 + 268 <= (size / 268) * 268) by (nonlinear_arith)
                    requires 0 <= e < size / 268, size >= 0;
                assert((size / 268) * 268 <= size) by (nonlinear_arith)
                    requires size >= 0;
                assert(e * 268 >= 0) by (nonlinear_arith)
                    requires e >= 0;
            }
            assert forall|e1: int, e2: int| 0 <= e1 < e2 < here.len() implies #[trigger] here[e1] + 268 <= #[trigger] here[e2] by {
                assert(e1 * 268 + 268 <= e2 * 268) by (nonlinear_arith)
                    requires e1 < e2;
            }
            assert forall|k: int| 0 <= k < w.len() implies #[trigger] w[k] >= off + 12 by {
                if k < here.len() {
                    assert(w[k] == here[k]);
                } else {
                    assert(w[k] == rest.0[k - here.len()]);
                }
            }
            assert forall|i: int, j: int| 0 <= i < j < w.len() implies #[trigger] w[i] + 268 <= #[trigger] w[j] by {
                if j < here.len() {
                    assert(w[i] == here[i] && w[j] == here[j]);
                } else if i < here.len() {
                    assert(w[i] == here[i] && w[j] == rest.0[j - here.len()]);
                } else {
                    assert(w[i] == rest.0[i - here.len()] && w[j] == rest.0[j - here.len()]);
                }
            }
        }
    }
}

/// Two files that agree, from `off` on, outside the path rooms of the first
/// one's entries are walked alike from `off`: the walk reads chunk headers
/// only.
proof fn lemma_walk_same(b1: Seq<u8>, b2: Seq<u8>, off: int)
    requires
        0 <= off,
        b1.len() == b2.len(),
        forall|i: int| off <= i < b1.len() && !in_path_room(chunk_walk(b1, off).0, i) ==> #[trigger] b2[i] == b1[i],
    ensures
        chunk_walk(b2, off) == chunk_walk(b1, off),
    decreases b1.len() - off,
{
    if off + 8 <= b1.len() {
        let w = chunk_walk(b1, off).0;
        lemma_walk_order(b1, off);
        assert forall|i: int| off <= i < off + 8 implies b2[i] == b1[i] by {
            assert(!in_path_room(w, i)) by {
                if in_path_room(w, i) {
                    let k = choose|k: int| 0 <= k < w.len() && #[trigger] w[k] <= i < w[k] + 260;
                    assert(w[k] >= off + 12);
                }
            }
        }
        let size = le_u32(b1, off + 4);
        assert(le_u32(b2, off + 4) == size);
        assert(is_texs_at(b2, off) == is_texs_at(b1, off));
        let start = off + 8;
        if start + size <= b1.len() {
            let rest = chunk_walk(b1, start + size).0;
            let here = if is_texs_at(b1, off) { entry_paths(start, size) } else { Seq::empty() };
            assert(w == here + rest);
            assert forall|i: int| start + size <= i < b1.len() && !in_path_room(rest, i) implies #[trigger] b2[i] == b1[i] by {
                if in_path_room(w, i) {
                    let k = choose|k: int| 0 <= k < w.len() && #[trigger] w[k] <= i < w[k] + 260;
                    if k < here.len() {
                        assert(w[k] == here[k]);
                        assert(k * 268 + 268 <= (size / 268) * 268) by (nonlinear_arith)
                            requires 0 <= k < size / 268, size >= 0;
                        assert((size / 268) * 268 <= size) by (nonlinear_arith)
                            requires size >= 0;
                    } else {
                        assert(w[k] == rest[k - here.len()]);
                    }
                }
            }
            lemma_walk_same(b1, b2, start + size);
        }
    }
}

// ---------------------------------------------------------------------------
// Path rooms
// ---------------------------------------------------------------------------

pub(crate) proof fn lemma_c_len_bounds(b: Seq<u8>, p: int, k: int)
    requires
        0 <= k <= 260,
    ensures
        k <= c_len(b, p, k) <= 260,
    decreases 260 - k,
{
    if 0 <= k < 260 && 0 <= p + k < b.len() && b[p + k] != 0 {
        lemma_c_len_bounds(b, p, k + 1);
    }
}

/// The length of an entry's path depends on its path room alone.
proof fn lemma_c_len_room(b1: Seq<u8>, b2: Seq<u8>, p: int, k: int)
    requires
        0 <= p,
        p + 260 <= b1.len(),
        p + 260 <= b2.len(),
        room(b1, p) == room(b2, p),
        0 <= k <= 260,
    ensures
        c_len(b1, p, k) == c_len(b2, p, k),
    decreases 260 - k,
{
    if k < 260 {
        assert(b1[p + k] == room(b1, p)[k]);
        assert(b2[p + k] == room(b2, p)[k]);
        lemma_c_len_room(b1, b2, p, k + 1);
    }
}

/// The length of a path written into a room, zero-filled behind it.
proof fn lemma_c_len_written(b: Seq<u8>, p: int, enc: Seq<u8>, k: int)
    requires
        0 <= p,
        p + 260 <= b.len(),
        enc.len() <= 259,
        !enc.contains(0u8),
        room(b, p) == enc + zeros(260 - enc.len()),
        0 <= k <= enc.len(),
    ensures
        c_len(b, p, k) == enc.len(),
    decreases enc.len() - k,
{
    assert(b[p + k] == room(b, p)[k]);
    if k < enc.len() {
        assert(room(b, p)[k] == enc[k]);
        assert(b[p + k] != 0) by {
            if b[p + k] == 0 {
                assert(enc.contains(0u8));
            }
        }
        lemma_c_len_written(b, p, enc, k + 1);
    } else {
        assert(room(b, p)[k] == zeros(260 - enc.len())[0]);
    }
}

/// Writing an entry changes no other room that lies clear of it.
proof fn lemma_write_entry_rooms(b: Seq<u8>, p: int, enc: Seq<u8>, q: int)
    requires
        0 <= p,
        p + 260 <= b.len(),
        enc.len() <= 260,
        0 <= q,
        q + 260 <= b.len(),
    ensures
        write_entry(b, p, enc).len() == b.len(),
        room(write_entry(b, p, enc), p) == enc + zeros(260 - enc.len()),
        q + 260 <= p || p + 260 <= q ==> room(write_entry(b, p, enc), q) == room(b, q),
{
    let w = write_entry(b, p, enc);
    assert(room(w, p) =~= enc + zeros(260 - enc.len()));
    if q + 260 <= p {
        assert(room(w, q) =~= room(b, q));
    } else if p + 260 <= q {
        assert(room(w, q) =~= room(b, q));
    }
}

/// Rewriting leaves each entry's room as `room_after` says.
pub(crate) proof fn lemma_first_fold_rooms(b0: Seq<u8>, ps: Seq<int>, m: ModelPathView, o: OptionsView)
    requires
        forall|k: int| 0 <= k < ps.len() ==> 0 <= #[trigger] ps[k] && ps[k] + 260 <= b0.len(),
        forall|i: int, j: int| 0 <= i < j < ps.len() ==> #[trigger] ps[i] + 268 <= #[trigger] ps[j],
    ensures
        forall|j: int| 0 <= j < ps.len() ==> room(mdx_fold(b0, ps, m, o, true).bytes, #[trigger] ps[j])
            == room_after(b0, ps[j], m, o),
    decreases ps.len(),
{
    if ps.len() > 0 {
        let prev = ps.drop_last();
        let p = ps.last();
        lemma_first_fold_rooms(b0, prev, m, o);
        lemma_mdx_fold_rooms(b0, prev, m, o, true);
        let st = mdx_fold(b0, prev, m, o, true);
        let st2 = mdx_fold(b0, ps, m, o, true);
        assert(st2 == mdx_step(b0, st, p, m, o, true));
        assert(p == ps[ps.len() - 1]);
        let written = entry_written(b0, p, m, o);
        let enc = gbk_encode(new_path(entry_old(b0, p), m, o));
        assert(st2.bytes == if written { write_entry(st.bytes, p, enc) } else { st.bytes }) by {
            let len = c_len(b0, p, 0);
            lemma_c_len_bounds(b0, p, 0);
            let old = gbk_decode(b0.subrange(p, p + len));
            assert(old == entry_old(b0, p));
            if len == 0 {
                assert(st2 == st);
            } else if !is_texture_name(old) {
                assert(st2 == st);
            } else if is_filtered(old, m, o) {
                assert(st2.bytes == st.bytes);
            } else {
                let new = new_path(old, m, o);
                if old == new {
                    assert(st2.bytes == st.bytes);
                } else if too_long(new) {
                    assert(st2.bytes == st.bytes);
                } else {
                    assert(st2.bytes == write_entry(st.bytes, p, gbk_encode(new)));
                    assert(written);
                }
            }
        }
        assert forall|j: int| 0 <= j < ps.len() implies room(st2.bytes, #[trigger] ps[j]) == room_after(b0, ps[j], m, o) by {
            if j < prev.len() {
                assert(prev[j] == ps[j]);
                if written {
                    lemma_write_entry_rooms(st.bytes, p, enc, ps[j]);
                }
            } else {
                assert(j == ps.len() - 1);
                if written {
                    lemma_write_entry_rooms(st.bytes, p, enc, p);
                } else {
                    assert forall|i: int| p <= i < p + 260 implies st.bytes[i] == b0[i] by {
                        assert(!in_path_room(prev, i)) by {
                            if in_path_room(prev, i) {
                                let k = choose|k: int| 0 <= k < prev.len() && #[trigger] prev[k] <= i < prev[k] + 260;
                                assert(prev[k] == ps[k]);
                            }
                        }
                    }
                    assert(room(st.bytes, p) =~= room(b0, p));
                }
            }
        }
    }
}

/// Processing the rewritten bytes again with the same options writes nothing
/// and finds nothing changed.
proof fn lemma_second_fold(b0: Seq<u8>, out: Seq<u8>, ps: Seq<int>, m: ModelPathView, o: OptionsView)
    requires
        keeps_file_name(m, o),
        forall|k: int| 0 <= k < ps.len() ==> 0 <= #[trigger] ps[k] && ps[k] + 260 <= b0.len() && ps[k] + 260 <= out.len(),
        forall|k: int| 0 <= k < ps.len() ==> room(out, #[trigger] ps[k]) == room_after(b0, ps[k], m, o),
        forall|k: int| 0 <= k < ps.len() && #[trigger] entry_written(b0, ps[k], m, o)
            ==> reads_back(new_path(entry_old(b0, ps[k]), m, o)),
    ensures
        !mdx_fold(out, ps, m, o, true).changed,
        mdx_fold(out, ps, m, o, true).bytes == out,
    decreases ps.len(),
{
    if ps.len() > 0 {
        let prev = ps.drop_last();
        let p = ps.last();
        assert(p == ps[ps.len() - 1]);
        assert forall|k: int| 0 <= k < prev.len() implies #[trigger] prev[k] == ps[k] by {}
        lemma_second_fold(b0, out, prev, m, o);
        let st = mdx_fold(out, prev, m, o, true);
        assert(mdx_fold(out, ps, m, o, true) == mdx_step(out, st, p, m, o, true));
        assert(room(out, p) == room_after(b0, p, m, o));
        let len2 = c_len(out, p, 0);
        let old2 = gbk_decode(out.subrange(p, p + len2));
        if entry_written(b0, p, m, o) {
            let new = new_path(entry_old(b0, p), m, o);
            let enc = gbk_encode(new);
            assert(reads_back(new));
            lemma_c_len_written(out, p, enc, 0);
            assert(out.subrange(p, p + len2) =~= enc) by {
                assert forall|i: int| 0 <= i < enc.len() implies #[trigger] out[p + i] == enc[i] by {
                    assert(out[p + i] == room(out, p)[i]);
                }
            }
            law_modify_twice_is_modify_once(entry_old(b0, p), m, o);
            assert(old2 == new);
            assert(new_path(old2, m, o) == old2);
        } else {
            lemma_c_len_room(out, b0, p, 0);
            lemma_c_len_bounds(b0, p, 0);
            assert(out.subrange(p, p + len2) =~= b0.subrange(p, p + len2)) by {
                assert forall|i: int| 0 <= i < len2 implies #[trigger] out[p + i] == b0[p + i] by {
                    assert(out[p + i] == room(out, p)[i]);
                    assert(b0[p + i] == room(b0, p)[i]);
                }
            }
            assert(old2 == entry_old(b0, p));
        }
    }
}

// ---------------------------------------------------------------------------
// New paths of references
// ---------------------------------------------------------------------------

/// What rewriting puts before a texture's file name.
pub open spec fn path_head(m: ModelPathView, o: OptionsView) -> Seq<char> {
    if o.reset {
        Seq::empty()
    } else if o.trim_resource && relative_dir(m.path) is Some {
        relative_dir(m.path).unwrap()
    } else {
        let e = expanded_prefix(m, o);
        if all_white_space(e) {
            Seq::empty()
        } else if needs_slash(e, o) {
            e.push('\\')
        } else {
            e
        }
    }
}

proof fn lemma_new_path_head(old: Seq<char>, m: ModelPathView, o: OptionsView)
    ensures
        new_path(old, m, o) == path_head(m, o) + basename(old),
{
    let b = basename(old);
    assert(Seq::<char>::empty() + b =~= b);
}

/// The file name of a texture path names the same texture kind and holds no
/// `"` where the path holds none.
proof fn lemma_basename_texture(old: Seq<char>)
    requires
        is_texture_name(old),
        !old.contains('"'),
    ensures
        is_texture_name(basename(old)),
        !basename(old).contains('"'),
{
    reveal_strlit(".blp");
    reveal_strlit(".tga");
    let n = normalize_seq(old);
    let len = old.len() as int;
    let lo = lower_seq(old);
    let sfx = if has_suffix(lo, ".blp"@) { ".blp"@ } else { ".tga"@ };
    assert(has_suffix(lo, sfx));
    assert forall|i: int| len - 4 <= i < len implies #[trigger] n[i] != '\\' && n[i] == old[i] by {
        lemma_lower_char(old[i]);
        assert(lo[i] == lo.subrange(len - 4, len)[i - (len - 4)]);
        assert(lo[i] == ascii_lower(old[i]));
    }
    lemma_last_before_none(n, '\\', len);
    let b = basename(old);
    let k: int = match last_index_of(n, '\\') {
        Some(k) => k + 1,
        None => 0,
    };
    assert(k <= len - 4);
    assert(b =~= n.subrange(k, len));
    assert(lower_seq(b).subrange(b.len() - 4, b.len() as int) =~= sfx) by {
        assert forall|i: int| 0 <= i < 4 implies #[trigger] lower_seq(b).subrange(b.len() - 4, b.len() as int)[i] == sfx[i] by {
            assert(lower_seq(b)[b.len() - 4 + i] == ascii_lower(n[len - 4 + i]));
            assert(lo.subrange(len - 4, len)[i] == lo[len - 4 + i]);
        }
    }
    assert(!b.contains('"')) by {
        if b.contains('"') {
            let i = choose|i: int| 0 <= i < b.len() && b[i] == '"';
            assert(n[k + i] == backslash_of(old[k + i]));
            assert(old.contains('"'));
        }
    }
}

/// A text ending in a texture name is itself a texture name.
proof fn lemma_texture_behind(h: Seq<char>, b: Seq<char>)
    requires
        is_texture_name(b),
    ensures
        is_texture_name(h + b),
{
    reveal_strlit(".blp");
    reveal_strlit(".tga");
    let l = lower_seq(h + b);
    assert(l =~= lower_seq(h) + lower_seq(b));
    assert(b.len() >= 4);
    assert(l.subrange(l.len() - 4, l.len() as int) =~= lower_seq(b).subrange(b.len() - 4, b.len() as int));
}

/// The path a reference carries after rewriting holds no `"`, names a
/// texture, and is kept by rewriting it again.
proof fn lemma_ref_path_settles(old: Seq<char>, m: ModelPathView, o: OptionsView)
    requires
        keeps_file_name(m, o),
        !path_head(m, o).contains('"'),
        is_texture_name(old),
        !old.contains('"'),
    ensures
        !ref_new_path(old, m, o).contains('"'),
        is_texture_name(ref_new_path(old, m, o)),
        ref_new_path(ref_new_path(old, m, o), m, o) == ref_new_path(old, m, o),
{
    if !is_filtered(old, m, o) {
        let n = new_path(old, m, o);
        lemma_new_path_head(old, m, o);
        lemma_basename_texture(old);
        lemma_texture_behind(path_head(m, o), basename(old));
        law_modify_twice_is_modify_once(old, m, o);
        assert(!n.contains('"')) by {
            if n.contains('"') {
                let i = choose|i: int| 0 <= i < n.len() && n[i] == '"';
                let h = path_head(m, o);
                if i < h.len() {
                    assert(h[i] == n[i]);
                } else {
                    assert(basename(old)[i - h.len()] == n[i]);
                }
            }
        }
    }
}

// ---------------------------------------------------------------------------
// MDL text: reading alike
// ---------------------------------------------------------------------------

/// `u` from `b` on holds the `n` characters that `t` holds from `a` on.
pub open spec fn same_run(t: Seq<char>, a: int, u: Seq<char>, b: int, n: int) -> bool {
    &&& 0 <= a && 0 <= b && 0 <= n
    &&& a + n <= t.len() && b + n <= u.len()
    &&& forall|i: int| 0 <= i < n ==> #[trigger] t[a + i] == u[b + i]
}

/// Both texts end where the run ends.
pub open spec fn ends_together(t: Seq<char>, a: int, u: Seq<char>, b: int, n: int) -> bool {
    a + n == t.len() && b + n == u.len()
}

proof fn lemma_white_end_same(t: Seq<char>, a: int, u: Seq<char>, b: int, n: int)
    requires
        same_run(t, a, u, b, n),
        white_end(t, a) < a + n || ends_together(t, a, u, b, n),
    ensures
        white_end(u, b) - b == white_end(t, a) - a,
    decreases n,
{
    if a < t.len() && is_white_space(t[a]) {
        lemma_white_end(t, a + 1);
        assert(t[a + 0] == u[b + 0]);
        assert(same_run(t, a + 1, u, b + 1, n - 1)) by {
            assert forall|i: int| 0 <= i < n - 1 implies #[trigger] t[a + 1 + i] == u[b + 1 + i] by {
                assert(t[a + (i + 1)] == u[b + (i + 1)]);
            }
        }
        lemma_white_end_same(t, a + 1, u, b + 1, n - 1);
    } else if n > 0 {
        assert(t[a + 0] == u[b + 0]);
    }
}

proof fn lemma_quote_end_same(t: Seq<char>, a: int, u: Seq<char>, b: int, n: int)
    requires
        same_run(t, a, u, b, n),
        quote_end(t, a) < a + n || ends_together(t, a, u, b, n),
    ensures
        quote_end(u, b) - b == quote_end(t, a) - a,
    decreases n,
{
    if a < t.len() && t[a] != '"' {
        lemma_quote_end(t, a + 1);
        assert(t[a + 0] == u[b + 0]);
        assert(same_run(t, a + 1, u, b + 1, n - 1)) by {
            assert forall|i: int| 0 <= i < n - 1 implies #[trigger] t[a + 1 + i] == u[b + 1 + i] by {
                assert(t[a + (i + 1)] == u[b + (i + 1)]);
            }
        }
        lemma_quote_end_same(t, a + 1, u, b + 1, n - 1);
    } else if n > 0 {
        assert(t[a + 0] == u[b + 0]);
    }
}

/// How far the search for a reference at `a` reads.
pub open spec fn lookahead_end(t: Seq<char>, a: int) -> int {
    if !image_word_at(t, a) {
        a + 5
    } else {
        let q = white_end(t, a + 5);
        if q > a + 5 && q < t.len() && t[q] == '"' {
            quote_end(t, q + 1) + 1
        } else {
            q + 1
        }
    }
}

pub open spec fn shifted(r: Option<(int, int)>, d: int) -> Option<(int, int)> {
    match r {
        Some((x, y)) => Some((x + d, y + d)),
        None => None,
    }
}

/// A reference is found alike in two texts that read alike as far as the
/// search reads.
proof fn lemma_ref_same(t: Seq<char>, a: int, u: Seq<char>, b: int, n: int)
    requires
        same_run(t, a, u, b, n),
        lookahead_end(t, a) <= a + n || ends_together(t, a, u, b, n),
    ensures
        texture_ref_at(u, b) == shifted(texture_ref_at(t, a), b - a),
{
    let d = b - a;
    if n >= 5 {
        assert(t.subrange(a, a + 5) =~= u.subrange(b, b + 5)) by {
            assert forall|i: int| 0 <= i < 5 implies #[trigger] t.subrange(a, a + 5)[i] == u.subrange(b, b + 5)[i] by {
                assert(t[a + i] == u[b + i]);
            }
        }
        assert(image_word_at(u, b) == image_word_at(t, a));
    } else {
        if a + 5 <= t.len() {
            lemma_white_end(t, a + 5);
            let q = white_end(t, a + 5);
            if q > a + 5 && q < t.len() && t[q] == '"' {
                lemma_quote_end(t, q + 1);
            }
        }
        assert(!image_word_at(t, a) && !image_word_at(u, b));
    }
    if image_word_at(t, a) {
        lemma_white_end(t, a + 5);
        assert(n >= 5);
        let q0 = white_end(t, a + 5);
        if q0 > a + 5 && q0 < t.len() && t[q0] == '"' {
            lemma_quote_end(t, q0 + 1);
        }
        assert(same_run(t, a + 5, u, b + 5, n - 5)) by {
            assert forall|i: int| 0 <= i < n - 5 implies #[trigger] t[a + 5 + i] == u[b + 5 + i] by {
                assert(t[a + (i + 5)] == u[b + (i + 5)]);
            }
        }
        lemma_white_end_same(t, a + 5, u, b + 5, n - 5);
        let q = white_end(t, a + 5);
        let q2 = white_end(u, b + 5);
        assert(q2 == q + d);
        if q < a + n {
            assert(t[a + (q - a)] == u[b + (q - a)]);
        }
        if q > a + 5 && q < t.len() && t[q] == '"' {
            assert(q2 > b + 5 && q2 < u.len() && u[q2] == '"');
            lemma_quote_end(t, q + 1);
            let m = q + 1 - a;
            assert(same_run(t, q + 1, u, q2 + 1, n - m)) by {
                assert forall|i: int| 0 <= i < n - m implies #[trigger] t[q + 1 + i] == u[q2 + 1 + i] by {
                    assert(t[a + (i + m)] == u[b + (i + m)]);
                }
            }
            lemma_quote_end_same(t, q + 1, u, q2 + 1, n - m);
            let c = quote_end(t, q + 1);
            let c2 = quote_end(u, q2 + 1);
            assert(c2 == c + d);
            if c < t.len() && c >= q + 6 {
                assert(t.subrange(q + 1, c) =~= u.subrange(q2 + 1, c2)) by {
                    assert forall|i: int| 0 <= i < c - q - 1 implies #[trigger] t.subrange(q + 1, c)[i] == u.subrange(q2 + 1, c2)[i] by {
                        assert(t[a + (i + m)] == u[b + (i + m)]);
                    }
                }
            }
        } else {
            assert(!(q2 > b + 5 && q2 < u.len() && u[q2] == '"'));
        }
    }
}

/// The rewrite of a text from `pos` on depends on the text from `pos` on only.
proof fn lemma_rewrite_suffix(t: Seq<char>, d: int, pos: int, m: ModelPathView, o: OptionsView)
    requires
        0 <= d <= pos <= t.len(),
    ensures
        rewrite_from(t.subrange(d, t.len() as int), pos - d, m, o) == rewrite_from(t, pos, m, o),
    decreases t.len() - pos,
{
    let s = t.subrange(d, t.len() as int);
    if pos < t.len() {
        assert(same_run(t, pos, s, pos - d, t.len() - pos)) by {
            assert forall|i: int| 0 <= i < t.len() - pos implies #[trigger] t[pos + i] == s[pos - d + i] by {}
        }
        lemma_ref_same(t, pos, s, pos - d, t.len() - pos);
        match texture_ref_at(t, pos) {
            Some((ps, pe)) => {
                lemma_quote_end(t, ps);
                lemma_rewrite_suffix(t, d, pe + 1, m, o);
                assert(t.subrange(pos, pe + 1) =~= s.subrange(pos - d, pe - d + 1));
                assert(t.subrange(ps, pe) =~= s.subrange(ps - d, pe - d));
                assert(t.subrange(pos, ps) =~= s.subrange(pos - d, ps - d));
            },
            None => {
                lemma_rewrite_suffix(t, d, pos + 1, m, o);
            },
        }
    }
}

// ---------------------------------------------------------------------------
// MDL text: reading the rewritten text again
// ---------------------------------------------------------------------------

/// The first index at or after `pos` where a reference starts, or the end of
/// the text.
pub open spec fn next_ref(t: Seq<char>, pos: int) -> int
    decreases t.len() - pos,
{
    if pos < 0 || pos >= t.len() {
        t.len() as int
    } else if texture_ref_at(t, pos) is Some {
        pos
    } else {
        next_ref(t, pos + 1)
    }
}

proof fn lemma_white_end_stops(t: Seq<char>, a: int, x: int)
    requires
        0 <= a <= x < t.len(),
        !is_white_space(t[x]),
    ensures
        white_end(t, a) <= x,
    decreases x - a,
{
    if a < x && is_white_space(t[a]) {
        lemma_white_end_stops(t, a + 1, x);
    }
}

proof fn lemma_quote_end_at(t: Seq<char>, a: int, x: int)
    requires
        0 <= a <= x < t.len(),
        t[x] == '"',
        forall|k: int| a <= k < x ==> #[trigger] t[k] != '"',
    ensures
        quote_end(t, a) == x,
    decreases x - a,
{
    if a < x {
        lemma_quote_end_at(t, a + 1, x);
    }
}

proof fn lemma_quote_end_stops(t: Seq<char>, a: int, x: int)
    requires
        0 <= a <= x < t.len(),
        t[x] == '"',
    ensures
        quote_end(t, a) <= x,
    decreases x - a,
{
    if a < x && t[a] != '"' {
        lemma_quote_end_stops(t, a + 1, x);
    }
}

/// The characters of the word `image` at a reference's start.
proof fn lemma_image_chars(t: Seq<char>, x: int)
    requires
        image_word_at(t, x),
    ensures
        ascii_lower(t[x]) == 'i',
        ascii_lower(t[x + 1]) == 'm',
        ascii_lower(t[x + 2]) == 'a',
        ascii_lower(t[x + 3]) == 'g',
        ascii_lower(t[x + 4]) == 'e',
        !is_white_space(t[x]),
        t[x] != '"',
{
    reveal_strlit("image");
    let w = lower_seq(t.subrange(x, x + 5));
    assert(w[0] == ascii_lower(t[x]));
    assert(w[1] == ascii_lower(t[x + 1]));
    assert(w[2] == ascii_lower(t[x + 2]));
    assert(w[3] == ascii_lower(t[x + 3]));
    assert(w[4] == ascii_lower(t[x + 4]));
    lemma_lower_char(t[x]);
}

/// No reference starts at a character whose lower case is not `i`.
proof fn lemma_no_ref_at(u: Seq<char>, k: int)
    requires
        0 <= k < u.len(),
        ascii_lower(u[k]) != 'i',
    ensures
        texture_ref_at(u, k) is None,
{
    if image_word_at(u, k) {
        lemma_image_chars(u, k);
    }
}

/// What a reference found at `j` is made of.
pub(crate) proof fn lemma_ref_facts(t: Seq<char>, j: int)
    requires
        texture_ref_at(t, j) is Some,
    ensures
        ({
            let (ps, pe) = texture_ref_at(t, j).unwrap();
            &&& 0 <= j && j + 7 <= ps
            &&& image_word_at(t, j)
            &&& white_end(t, j + 5) == ps - 1
            &&& forall|k: int| j + 5 <= k < ps - 1 ==> is_white_space(#[trigger] t[k])
            &&& t[ps - 1] == '"'
            &&& ps + 5 <= pe < t.len()
            &&& t[pe] == '"'
            &&& forall|k: int| ps <= k < pe ==> #[trigger] t[k] != '"'
            &&& is_texture_name(t.subrange(ps, pe))
        }),
{
    lemma_white_end(t, j + 5);
    let q = white_end(t, j + 5);
    lemma_quote_end(t, q + 1);
}

/// A reference's text after rewriting: up to its opening quote as it was,
/// then the new path and the closing quote.
pub(crate) proof fn lemma_ref_text_shape(t: Seq<char>, pos: int, m: ModelPathView, o: OptionsView)
    requires
        texture_ref_at(t, pos) is Some,
    ensures
        ({
            let (ps, pe) = texture_ref_at(t, pos).unwrap();
            ref_text(t, pos, ps, pe, m, o) == t.subrange(pos, ps) + ref_new_path(t.subrange(ps, pe), m, o) + seq!['"']
        }),
{
    let (ps, pe) = texture_ref_at(t, pos).unwrap();
    lemma_ref_facts(t, pos);
    let old = t.subrange(ps, pe);
    let new = ref_new_path(old, m, o);
    if old == new {
        assert(t.subrange(pos, pe + 1) =~= t.subrange(pos, ps) + old + seq!['"']);
    } else {
        lemma_ref_replace(t, pos, ps, pe, new);
    }
}

/// Up to the opening quote of the next reference, the rewritten text reads
/// as the text; where no reference follows, it is the text.
proof fn lemma_rewrite_agrees(t: Seq<char>, pos: int, m: ModelPathView, o: OptionsView)
    requires
        0 <= pos <= t.len(),
    ensures
        pos <= next_ref(t, pos) <= t.len(),
        next_ref(t, pos) < t.len() ==> texture_ref_at(t, next_ref(t, pos)) is Some,
        next_ref(t, pos) == t.len() ==> rewrite_from(t, pos, m, o).text == t.subrange(pos, t.len() as int),
        next_ref(t, pos) < t.len() ==> ({
            let ps = texture_ref_at(t, next_ref(t, pos)).unwrap().0;
            &&& ps - pos <= rewrite_from(t, pos, m, o).text.len()
            &&& forall|i: int| 0 <= i < ps - pos ==> #[trigger] rewrite_from(t, pos, m, o).text[i] == t[pos + i]
        }),
    decreases t.len() - pos,
{
    let r = rewrite_from(t, pos, m, o).text;
    if pos == t.len() {
        assert(r =~= t.subrange(pos, t.len() as int));
    } else {
        match texture_ref_at(t, pos) {
            Some((ps, pe)) => {
                lemma_ref_facts(t, pos);
                lemma_ref_text_shape(t, pos, m, o);
                assert forall|i: int| 0 <= i < ps - pos implies #[trigger] r[i] == t[pos + i] by {
                    assert(r[i] == ref_text(t, pos, ps, pe, m, o)[i]);
                }
            },
            None => {
                lemma_rewrite_agrees(t, pos + 1, m, o);
                let rest = rewrite_from(t, pos + 1, m, o).text;
                assert(r == seq![t[pos]] + rest);
                if next_ref(t, pos) == t.len() {
                    assert(r =~= t.subrange(pos, t.len() as int));
                } else {
                    let ps = texture_ref_at(t, next_ref(t, pos)).unwrap().0;
                    assert forall|i: int| 0 <= i < ps - pos implies #[trigger] r[i] == t[pos + i] by {
                        if i > 0 {
                            assert(r[i] == rest[i - 1]);
                        }
                    }
                }
            },
        }
    }
}

/// Over a stretch where no reference starts, rewriting copies the text.
proof fn lemma_rewrite_copies(u: Seq<char>, a: int, b: int, m: ModelPathView, o: OptionsView)
    requires
        0 <= a <= b <= u.len(),
        forall|k: int| a <= k < b ==> #[trigger] texture_ref_at(u, k) is None,
    ensures
        rewrite_from(u, a, m, o).text == u.subrange(a, b) + rewrite_from(u, b, m, o).text,
        rewrite_from(u, a, m, o).changed == rewrite_from(u, b, m, o).changed,
    decreases b - a,
{
    if a < b {
        lemma_rewrite_copies(u, a + 1, b, m, o);
        assert(texture_ref_at(u, a) is None);
        assert(u.subrange(a, b) =~= seq![u[a]] + u.subrange(a + 1, b));
    } else {
        assert(u.subrange(a, b) =~= Seq::<char>::empty());
    }
}

/// Rewriting `u` gives it back unchanged.
pub open spec fn settled(u: Seq<char>, m: ModelPathView, o: OptionsView) -> bool {
    rewrite_from(u, 0, m, o).text == u && !rewrite_from(u, 0, m, o).changed
}

/// A short new path (`.blp` or `.tga` alone) holds no reference start, and
/// neither does the rest of the reference around it.
proof fn lemma_short_ref_copies(t: Seq<char>, pos: int, u: Seq<char>, h: int, n: Seq<char>, c: int)
    requires
        texture_ref_at(t, pos) is Some,
        h == texture_ref_at(t, pos).unwrap().0 - pos,
        n.len() == 4,
        is_texture_name(n),
        c == h + 4,
        c < u.len(),
        same_run(t, pos, u, 0, h),
        u[c] == '"',
        forall|k: int| h <= k < c ==> #[trigger] u[k] == n[k - h],
    ensures
        forall|k: int| 0 < k < c + 1 ==> #[trigger] texture_ref_at(u, k) is None,
{
    reveal_strlit(".blp");
    reveal_strlit(".tga");
    lemma_ref_facts(t, pos);
    lemma_image_chars(t, pos);
    let ln = lower_seq(n);
    assert(ln =~= ln.subrange(0, 4));
    assert(ln == ".blp"@ || ln == ".tga"@);
    assert forall|k: int| 0 < k < c + 1 implies #[trigger] texture_ref_at(u, k) is None by {
        if k < 5 {
            assert(u[0 + k] == t[pos + k]);
        } else if k < h - 1 {
            assert(u[0 + k] == t[pos + k]);
            assert(is_white_space(t[pos + k]));
            lemma_lower_char(t[pos + k]);
        } else if k == h - 1 {
            assert(u[0 + k] == t[pos + k]);
            lemma_lower_char(u[k]);
        } else if k == c {
            lemma_lower_char(u[k]);
        } else {
            assert(ln[k - h] == ascii_lower(n[k - h]));
        }
        lemma_no_ref_at(u, k);
    }
}

/// The step of `lemma_reread` at a reference.
proof fn lemma_reread_ref(t: Seq<char>, pos: int, m: ModelPathView, o: OptionsView)
    requires
        keeps_file_name(m, o),
        !path_head(m, o).contains('"'),
        0 <= pos < t.len(),
        texture_ref_at(t, pos) is Some,
        settled(rewrite_from(t, texture_ref_at(t, pos).unwrap().1 + 1, m, o).text, m, o),
    ensures
        settled(rewrite_from(t, pos, m, o).text, m, o),
{
    let u = rewrite_from(t, pos, m, o).text;
    let (ps, pe) = texture_ref_at(t, pos).unwrap();
    lemma_ref_facts(t, pos);
    let old = t.subrange(ps, pe);
    assert(!old.contains('"')) by {
        if old.contains('"') {
            let i = choose|i: int| 0 <= i < old.len() && old[i] == '"';
            assert(t[ps + i] == old[i]);
        }
    }
    lemma_ref_path_settles(old, m, o);
    let n = ref_new_path(old, m, o);
    let rest = rewrite_from(t, pe + 1, m, o).text;
    lemma_ref_text_shape(t, pos, m, o);
    let h = ps - pos;
    let c = h + n.len();
    assert(u =~= t.subrange(pos, ps) + n + seq!['"'] + rest);
    assert(same_run(t, pos, u, 0, h)) by {
        assert forall|i: int| 0 <= i < h implies #[trigger] t[pos + i] == u[0 + i] by {}
    }
    assert(same_run(t, pos + 5, u, 5, h - 5)) by {
        assert forall|i: int| 0 <= i < h - 5 implies #[trigger] t[pos + 5 + i] == u[5 + i] by {
            assert(t[pos + (5 + i)] == u[0 + (5 + i)]);
        }
    }
    lemma_white_end_same(t, pos + 5, u, 5, h - 5);
    assert(u.subrange(0, 5) =~= t.subrange(pos, pos + 5));
    assert(u[h - 1] == '"');
    assert forall|k: int| h <= k < c implies #[trigger] u[k] == n[k - h] && u[k] != '"' by {}
    lemma_quote_end_at(u, h, c);
    lemma_rewrite_suffix(u, c + 1, c + 1, m, o);
    assert(u.subrange(c + 1, u.len() as int) =~= rest);
    assert(u.subrange(0, c + 1) + rest =~= u);
    assert(u.subrange(h, c) =~= n);
    if n.len() >= 5 {
        assert(texture_ref_at(u, 0) == Some((h, c)));
        assert(ref_text(u, 0, h, c, m, o) == u.subrange(0, c + 1));
    } else {
        reveal_strlit(".blp");
        reveal_strlit(".tga");
        assert(n.len() == 4);
        assert(texture_ref_at(u, 0) is None);
        lemma_short_ref_copies(t, pos, u, h, n, c);
        lemma_rewrite_copies(u, 0, c + 1, m, o);
    }
}

/// The search for a reference at `pos` reads no further than the opening
/// quote of the next reference.
proof fn lemma_lookahead_before_next(t: Seq<char>, pos: int, j1: int)
    requires
        0 <= pos < j1 < t.len(),
        texture_ref_at(t, j1) is Some,
    ensures
        lookahead_end(t, pos) <= texture_ref_at(t, j1).unwrap().0,
{
    let ps1 = texture_ref_at(t, j1).unwrap().0;
    lemma_ref_facts(t, j1);
    if image_word_at(t, pos) {
        let q = white_end(t, pos + 5);
        lemma_white_end(t, pos + 5);
        lemma_image_chars(t, j1);
        lemma_white_end_stops(t, pos + 5, ps1 - 1);
        if q == ps1 - 1 {
            lemma_image_chars(t, pos);
            if j1 >= pos + 5 {
                assert(is_white_space(t[j1]));
            }
        }
        if q > pos + 5 && q < t.len() && t[q] == '"' {
            lemma_quote_end_stops(t, q + 1, ps1 - 1);
        }
    }
}

/// The step of `lemma_reread` where no reference starts.
proof fn lemma_reread_plain(t: Seq<char>, pos: int, m: ModelPathView, o: OptionsView)
    requires
        0 <= pos < t.len(),
        texture_ref_at(t, pos) is None,
        settled(rewrite_from(t, pos + 1, m, o).text, m, o),
    ensures
        settled(rewrite_from(t, pos, m, o).text, m, o),
{
    let u = rewrite_from(t, pos, m, o).text;
    let rest = rewrite_from(t, pos + 1, m, o).text;
    assert(u == seq![t[pos]] + rest);
    lemma_rewrite_agrees(t, pos + 1, m, o);
    let j1 = next_ref(t, pos + 1);
    if j1 == t.len() {
        assert(u =~= t.subrange(pos, t.len() as int));
        assert(same_run(t, pos, u, 0, t.len() - pos)) by {
            assert forall|i: int| 0 <= i < t.len() - pos implies #[trigger] t[pos + i] == u[0 + i] by {}
        }
        lemma_ref_same(t, pos, u, 0, t.len() - pos);
    } else {
        let ps1 = texture_ref_at(t, j1).unwrap().0;
        lemma_ref_facts(t, j1);
        assert(same_run(t, pos, u, 0, ps1 - pos)) by {
            assert forall|i: int| 0 <= i < ps1 - pos implies #[trigger] t[pos + i] == u[0 + i] by {
                if i > 0 {
                    assert(u[i] == rest[i - 1]);
                    assert(rest[i - 1] == t[pos + 1 + (i - 1)]);
                }
            }
        }
        lemma_lookahead_before_next(t, pos, j1);
        lemma_ref_same(t, pos, u, 0, ps1 - pos);
    }
    assert(texture_ref_at(u, 0) is None);
    lemma_rewrite_suffix(u, 1, 1, m, o);
    assert(u.subrange(1, u.len() as int) =~= rest);
    assert(seq![u[0]] + rest =~= u);
}

/// Rewriting the rewritten text again gives it back unchanged.
proof fn lemma_reread(t: Seq<char>, pos: int, m: ModelPathView, o: OptionsView)
    requires
        keeps_file_name(m, o),
        !path_head(m, o).contains('"'),
        0 <= pos <= t.len(),
    ensures
        settled(rewrite_from(t, pos, m, o).text, m, o),
    decreases t.len() - pos,
{
    if pos == t.len() {
        assert(rewrite_from(t, pos, m, o).text.len() == 0);
    } else {
        match texture_ref_at(t, pos) {
            Some((ps, pe)) => {
                lemma_ref_facts(t, pos);
                lemma_reread(t, pe + 1, m, o);
                lemma_reread_ref(t, pos, m, o);
            },
            None => {
                lemma_reread(t, pos + 1, m, o);
                lemma_reread_plain(t, pos, m, o);
            },
        }
    }
}

// ---------------------------------------------------------------------------
// The laws
// ---------------------------------------------------------------------------

/// The bytes of a model file after rewriting: what rewriting gives, or the
/// file as it was where nothing is written.
pub open spec fn applied(bytes: Seq<u8>, output: Option<Seq<u8>>) -> Seq<u8> {
    match output {
        Some(out) => out,
        None => bytes,
    }
}

/// Rewriting an MDX file a second time with the same options changes
/// nothing, where the options put a separator before each texture's file
/// name and every path written the first time reads back as written.
pub proof fn law_mdx_second_apply_changes_nothing(b0: Seq<u8>, m: ModelPathView, o: OptionsView)
    requires
        keeps_file_name(m, o),
        mdx_writes_read_back(b0, m, o),
    ensures
        !mdx_result(applied(b0, mdx_output(b0, m, o, true)), m, o, true).changed,
        mdx_output(applied(b0, mdx_output(b0, m, o, true)), m, o, true) is None,
{
    if mdx_output(b0, m, o, true) is Some {
        assert(is_mdx_header(b0));
        let ps = chunk_walk(b0, 4).0;
        lemma_chunk_walk_bounds(b0, 4);
        lemma_walk_order(b0, 4);
        lemma_mdx_fold_rooms(b0, ps, m, o, true);
        lemma_first_fold_rooms(b0, ps, m, o);
        let out = mdx_fold(b0, ps, m, o, true).bytes;
        assert(mdx_final(b0, m, o, true).bytes == out);
        assert forall|i: int| 0 <= i < 16 implies !in_path_room(ps, i) by {
            if in_path_room(ps, i) {
                let k = choose|k: int| 0 <= k < ps.len() && #[trigger] ps[k] <= i < ps[k] + 260;
                assert(ps[k] >= 16);
            }
        }
        assert(out[0] == b0[0] && out[1] == b0[1] && out[2] == b0[2] && out[3] == b0[3]);
        assert(is_mdx_header(out));
        lemma_walk_same(b0, out, 4);
        lemma_second_fold(b0, out, ps, m, o);
    }
}

/// Rewriting an MDL file a second time with the same options changes
/// nothing, where the options put a separator before each texture's file
/// name, what they put before it holds no `"`, and the text written the first
/// time reads back as written (within the decoder's limit).
pub proof fn law_mdl_second_apply_changes_nothing(bytes: Seq<u8>, m: ModelPathView, o: OptionsView)
    requires
        keeps_file_name(m, o),
        !path_head(m, o).contains('"'),
        mdl_fits(bytes, m, o, true),
        mdl_output(bytes, m, o, true) matches Some(out) ==> gbk_decode(out) == rewrite_text(gbk_decode(bytes), m, o).text
            && decode_admits(out),
    ensures
        mdl_fits(applied(bytes, mdl_output(bytes, m, o, true)), m, o, true),
        !mdl_result(applied(bytes, mdl_output(bytes, m, o, true)), m, o).changed,
        mdl_output(applied(bytes, mdl_output(bytes, m, o, true)), m, o, true) is None,
{
    let t = gbk_decode(bytes);
    lemma_reread(t, 0, m, o);
}

/// The premises under which a second rewrite of a model file changes
/// nothing: the options put a separator before each texture's file name, and
/// what the first rewrite writes reads back as written (for MDL text, what it
/// puts before a file name also holds no `"`).
pub open spec fn rewrite_settles(bytes: Seq<u8>, m: ModelPathView, o: OptionsView) -> bool {
    &&& keeps_file_name(m, o)
    &&& is_mdx_ext(m) ==> mdx_writes_read_back(bytes, m, o)
    &&& !is_mdx_ext(m) ==> {
        &&& !path_head(m, o).contains('"')
        &&& mdl_output(bytes, m, o, true) matches Some(out) ==> gbk_decode(out) == rewrite_text(gbk_decode(bytes), m, o).text
            && decode_admits(out)
    }
}

/// Rewriting a model file a second time with the same options changes
/// nothing and writes nothing, under `rewrite_settles`.
pub proof fn law_second_apply_changes_nothing(bytes: Seq<u8>, m: ModelPathView, o: OptionsView)
    requires
        rewrite_settles(bytes, m, o),
        file_outcome(bytes, m, o, true) is Some,
    ensures
        file_outcome(applied(bytes, file_outcome(bytes, m, o, true).unwrap().1), m, o, true) matches Some(again)
            && !again.0.changed && again.1 is None,
{
    if is_mdx_ext(m) {
        law_mdx_second_apply_changes_nothing(bytes, m, o);
    } else {
        law_mdl_second_apply_changes_nothing(bytes, m, o);
    }
}

/// How many of the given model files (their bytes and paths) rewriting
/// changes, as `ApplyResult::absorb` counts them; none where some file
/// yields no outcome.
pub open spec fn changed_count(files: Seq<(Seq<u8>, ModelPathView)>, o: OptionsView) -> Option<nat>
    decreases files.len(),
{
    if files.len() == 0 {
        Some(0)
    } else {
        match changed_count(files.drop_last(), o) {
            Some(n) => match file_outcome(files.last().0, files.last().1, o, true) {
                Some(r) => Some(if r.0.changed { n + 1 } else { n }),
                None => None,
            },
            None => None,
        }
    }
}

/// A model file as rewriting leaves it.
pub open spec fn applied_file(f: (Seq<u8>, ModelPathView), o: OptionsView) -> (Seq<u8>, ModelPathView) {
    match file_outcome(f.0, f.1, o, true) {
        Some(r) => (applied(f.0, r.1), f.1),
        None => f,
    }
}

/// The model files as rewriting leaves them.
pub open spec fn applied_files(files: Seq<(Seq<u8>, ModelPathView)>, o: OptionsView) -> Seq<(Seq<u8>, ModelPathView)> {
    files.map_values(|f: (Seq<u8>, ModelPathView)| applied_file(f, o))
}

/// Over a list of distinct model files, rewriting them all a second time with
/// the same options counts no changed file, under `rewrite_settles` for each.
pub proof fn law_second_apply_counts_no_change(files: Seq<(Seq<u8>, ModelPathView)>, o: OptionsView)
    requires
        forall|i: int| 0 <= i < files.len() ==> rewrite_settles(#[trigger] files[i].0, files[i].1, o),
        changed_count(files, o) is Some,
    ensures
        changed_count(applied_files(files, o), o) == Some(0nat),
    decreases files.len(),
{
    let again = applied_files(files, o);
    if files.len() > 0 {
        let prev = files.drop_last();
        assert forall|i: int| 0 <= i < prev.len() implies rewrite_settles(#[trigger] prev[i].0, prev[i].1, o) by {
            assert(prev[i] == files[i]);
        }
        law_second_apply_counts_no_change(prev, o);
        assert(again.drop_last() =~= applied_files(prev, o));
        let f = files.last();
        assert(rewrite_settles(files[files.len() - 1].0, files[files.len() - 1].1, o));
        law_second_apply_changes_nothing(f.0, f.1, o);
        assert(again.last() == applied_file(f, o));
    }
}

} // verus!
