//! Texture paths in binary MDX models.
//!
//! An MDX file starts with `MDLX` and continues with chunks: a four-byte tag,
//! a little-endian 32-bit size, then that many bytes.  A `TEXS` chunk holds
//! texture entries of 268 bytes each; the entry's path is a zero-terminated
//! GBK string of at most 260 bytes starting 4 bytes into the entry.

use vstd::prelude::*;
use crate::encoding::{
    decode_text, encode_admits, encode_admitted, encode_text, gbk_decode, gbk_encode,
    lemma_short_bytes_admitted,
};
use crate::model::{ModelPath, ModelPathView};
use crate::outcome::{
    changes_view, opt_bytes, push_change, push_warning, strings_view, FileOutcome, FileResult,
    FileResultView,
};
use crate::texture::{
    build_new_path, change_of, is_builtin_texture, is_filtered, is_texture_name, is_texture_path,
    new_path, resource_rule_applies, texture_change, ChangeView, Options, OptionsView, TextureChange,
};
use crate::text::{chars_of, eq_chars};

verus! {

// ---------------------------------------------------------------------------
// Mathematical model
// ---------------------------------------------------------------------------

/// Size of one texture entry.
pub const ENTRY_SIZE: usize = 268;

/// Room for the path in an entry.
pub const PATH_ROOM: usize = 260;

/// The little-endian 32-bit number at index `i`.
pub open spec fn le_u32(b: Seq<u8>, i: int) -> int {
    b[i] + 256 * b[i + 1] + 65536 * b[i + 2] + 16777216 * b[i + 3]
}

/// The file starts with the `MDLX` tag and is at least 12 bytes long.
pub open spec fn is_mdx_header(b: Seq<u8>) -> bool {
    b.len() >= 12 && b[0] == 0x4D && b[1] == 0x44 && b[2] == 0x4C && b[3] == 0x58
}

/// The chunk at index `i` is tagged `TEXS`.
pub open spec fn is_texs_at(b: Seq<u8>, i: int) -> bool {
    b[i] == 0x54 && b[i + 1] == 0x45 && b[i + 2] == 0x58 && b[i + 3] == 0x53
}

/// Where the paths of the entries of a `TEXS` chunk start.
pub open spec fn entry_paths(start: int, size: int) -> Seq<int> {
    Seq::new((size / 268) as nat, |e: int| start + e * 268 + 4)
}

/// Walks the chunks from index `off`: where the texture paths are, in order,
/// and whether the walk stopped at a chunk whose size runs past the end.
pub open spec fn chunk_walk(b: Seq<u8>, off: int) -> (Seq<int>, bool)
    decreases b.len() - off,
{
    if off < 0 || off + 8 > b.len() {
        (Seq::empty(), false)
    } else {
        let size = le_u32(b, off + 4);
        let start = off + 8;
        if start + size > b.len() {
            (Seq::empty(), true)
        } else {
            let rest = chunk_walk(b, start + size);
            let here = if is_texs_at(b, off) {
                entry_paths(start, size)
            } else {
                Seq::empty()
            };
            (here + rest.0, rest.1)
        }
    }
}

/// The length of the zero-terminated string at `p`, counted from `k`, at
/// most the path room.
pub open spec fn c_len(b: Seq<u8>, p: int, k: int) -> int
    decreases 260 - k,
{
    if 0 <= k < 260 && 0 <= p + k < b.len() && b[p + k] != 0 {
        c_len(b, p, k + 1)
    } else {
        k
    }
}

pub open spec fn zeros(n: int) -> Seq<u8> {
    Seq::new(n as nat, |i: int| 0u8)
}

/// The bytes with the path room at `p` cleared and `enc` written into it.
pub open spec fn write_entry(b: Seq<u8>, p: int, enc: Seq<u8>) -> Seq<u8> {
    b.subrange(0, p) + enc + zeros(260 - enc.len()) + b.subrange(p + 260, b.len() as int)
}

/// A new path does not fit the entry: its GBK form is longer than 259 bytes,
/// or it is a text that the encoder would not take (far longer than that).
pub open spec fn too_long(new: Seq<char>) -> bool {
    !encode_admits(new) || gbk_encode(new).len() > 259
}

pub open spec fn too_long_message(new: Seq<char>) -> Seq<char> {
    "路径过长，跳过："@ + new
}

pub open spec fn not_mdx_message(path: Seq<char>) -> Seq<char> {
    path + "：不是标准 MDX 文件"@
}

pub open spec fn bad_chunk_message(path: Seq<char>) -> Seq<char> {
    path + "：MDX 区块长度异常，已停止解析"@
}

/// What processing has produced so far.
pub struct MdxState {
    pub changes: Seq<ChangeView>,
    pub warnings: Seq<Seq<char>>,
    pub changed: bool,
    pub bytes: Seq<u8>,
}

/// Processing the entry whose path starts at `p`: an empty path or one that
/// names no texture is passed over; a filtered built-in texture is recorded
/// unchanged; otherwise the new path is recorded, and, where it differs and
/// fits, written into the entry (when `write`), or else warned about.
pub open spec fn mdx_step(b0: Seq<u8>, st: MdxState, p: int, m: ModelPathView, o: OptionsView, write: bool) -> MdxState {
    let len = c_len(b0, p, 0);
    if len == 0 {
        st
    } else {
        let old = gbk_decode(b0.subrange(p, p + len));
        if !is_texture_name(old) {
            st
        } else if is_filtered(old, m, o) {
            MdxState {
                changes: st.changes.push(change_of(m, old, old, true)),
                warnings: st.warnings,
                changed: st.changed,
                bytes: st.bytes,
            }
        } else {
            let new = new_path(old, m, o);
            let ch = change_of(m, old, new, false);
            if old == new {
                MdxState { changes: st.changes.push(ch), warnings: st.warnings, changed: st.changed, bytes: st.bytes }
            } else if too_long(new) {
                MdxState {
                    changes: st.changes.push(ch),
                    warnings: st.warnings.push(too_long_message(new)),
                    changed: st.changed,
                    bytes: st.bytes,
                }
            } else {
                MdxState {
                    changes: st.changes.push(ch),
                    warnings: st.warnings,
                    changed: true,
                    bytes: if write { write_entry(st.bytes, p, gbk_encode(new)) } else { st.bytes },
                }
            }
        }
    }
}

/// Processing the entries at the given path offsets, in order.
pub open spec fn mdx_fold(b0: Seq<u8>, ps: Seq<int>, m: ModelPathView, o: OptionsView, write: bool) -> MdxState
    decreases ps.len(),
{
    if ps.len() == 0 {
        MdxState { changes: Seq::empty(), warnings: Seq::empty(), changed: false, bytes: b0 }
    } else {
        mdx_step(b0, mdx_fold(b0, ps.drop_last(), m, o, write), ps.last(), m, o, write)
    }
}

/// Processing a whole MDX file.
pub open spec fn mdx_final(b0: Seq<u8>, m: ModelPathView, o: OptionsView, write: bool) -> MdxState {
    if !is_mdx_header(b0) {
        MdxState { changes: Seq::empty(), warnings: seq![not_mdx_message(m.path)], changed: false, bytes: b0 }
    } else {
        let walk = chunk_walk(b0, 4);
        let st = mdx_fold(b0, walk.0, m, o, write);
        if walk.1 {
            MdxState {
                changes: st.changes,
                warnings: st.warnings.push(bad_chunk_message(m.path)),
                changed: st.changed,
                bytes: st.bytes,
            }
        } else {
            st
        }
    }
}

/// The result reported for an MDX file.
pub open spec fn mdx_result(b0: Seq<u8>, m: ModelPathView, o: OptionsView, write: bool) -> FileResultView {
    let f = mdx_final(b0, m, o, write);
    FileResultView { changed: f.changed, changes: f.changes, warnings: f.warnings }
}

/// The bytes written back: present when rewriting and some path changed.
pub open spec fn mdx_output(b0: Seq<u8>, m: ModelPathView, o: OptionsView, write: bool) -> Option<Seq<u8>> {
    let f = mdx_final(b0, m, o, write);
    if write && f.changed {
        Some(f.bytes)
    } else {
        None
    }
}

pub open spec fn state_of(changes: Seq<TextureChange>, warnings: Seq<String>, changed: bool, bytes: Seq<u8>) -> MdxState {
    MdxState { changes: changes_view(changes), warnings: strings_view(warnings), changed, bytes }
}

// ---------------------------------------------------------------------------
// Executable processing
// ---------------------------------------------------------------------------

/// Clears the path room at `p` and writes `enc` into it.
fn write_entry_bytes(bytes: &mut Vec<u8>, p: usize, enc: &Vec<u8>)
    requires
        p + 260 <= old(bytes)@.len(),
        enc@.len() <= 259,
    ensures
        final(bytes)@ == write_entry(old(bytes)@, p as int, enc@),
{
    let ghost b = bytes@;
    let blen = bytes.len();
    let mut i: usize = 0;
    while i < PATH_ROOM
        invariant
            blen == b.len(),
            p + 260 <= b.len(),
            bytes@.len() == b.len(),
            i <= 260,
            forall|j: int| 0 <= j < b.len() && !(p <= j < p + i) ==> bytes@[j] == b[j],
            forall|j: int| p <= j < p + i ==> bytes@[j] == 0u8,
        decreases 260 - i,
    {
        bytes.set(p + i, 0u8);
        i = i + 1;
    }
    let mut k: usize = 0;
    while k < enc.len()
        invariant
            blen == b.len(),
            p + 260 <= b.len(),
            enc@.len() <= 259,
            bytes@.len() == b.len(),
            k <= enc@.len(),
            forall|j: int| 0 <= j < b.len() && !(p <= j < p + 260) ==> bytes@[j] == b[j],
            forall|j: int| p + k <= j < p + 260 ==> bytes@[j] == 0u8,
            forall|j: int| p <= j < p + k ==> bytes@[j] == enc@[j - p],
        decreases enc@.len() - k,
    {
        bytes.set(p + k, enc[k]);
        k = k + 1;
    }
    assert(bytes@ =~= write_entry(b, p as int, enc@));
}

/// What becomes of a texture entry, decided from its decoded path.
pub enum EntryPlan {
    /// The path names no texture: the entry is passed over.
    Skip,
    /// The texture is recorded and its path stays.
    Record(TextureChange),
    /// The texture is recorded; its new path cannot be written (the message
    /// says so).
    Warn(TextureChange, String),
    /// The texture is recorded; its new path (given) is to be encoded and
    /// placed into the entry.
    Encode(TextureChange, String),
}

pub enum EntryPlanView {
    Skip,
    Record(ChangeView),
    Warn(ChangeView, Seq<char>),
    Encode(ChangeView, Seq<char>),
}

impl View for EntryPlan {
    type V = EntryPlanView;

    open spec fn view(&self) -> EntryPlanView {
        match self {
            EntryPlan::Skip => EntryPlanView::Skip,
            EntryPlan::Record(c) => EntryPlanView::Record(c@),
            EntryPlan::Warn(c, w) => EntryPlanView::Warn(c@, w@),
            EntryPlan::Encode(c, n) => EntryPlanView::Encode(c@, n@),
        }
    }
}

/// The plan for an entry whose path decodes to `old`: a path that names no
/// texture is passed over; a filtered built-in texture is recorded unchanged;
/// otherwise the new path is recorded, and, where it differs, it is to be
/// encoded, unless the encoder would not take it.
pub open spec fn entry_plan(old: Seq<char>, m: ModelPathView, o: OptionsView) -> EntryPlanView {
    if !is_texture_name(old) {
        EntryPlanView::Skip
    } else if is_filtered(old, m, o) {
        EntryPlanView::Record(change_of(m, old, old, true))
    } else {
        let new = new_path(old, m, o);
        let ch = change_of(m, old, new, false);
        if old == new {
            EntryPlanView::Record(ch)
        } else if !encode_admits(new) {
            EntryPlanView::Warn(ch, too_long_message(new))
        } else {
            EntryPlanView::Encode(ch, new)
        }
    }
}

/// What an encoded new path comes to.
pub enum EntryOutcome {
    /// Too long for the entry: recorded and warned about.
    Warn(TextureChange, String),
    /// Recorded, with the bytes to write into the entry's path room.
    Write(TextureChange, Vec<u8>),
}

pub enum EntryOutcomeView {
    Warn(ChangeView, Seq<char>),
    Write(ChangeView, Seq<u8>),
}

impl View for EntryOutcome {
    type V = EntryOutcomeView;

    open spec fn view(&self) -> EntryOutcomeView {
        match self {
            EntryOutcome::Warn(c, w) => EntryOutcomeView::Warn(c@, w@),
            EntryOutcome::Write(c, b) => EntryOutcomeView::Write(c@, b@),
        }
    }
}

/// An encoded new path fits the entry when it takes at most 259 bytes (one
/// more byte is kept for the terminating zero).
pub open spec fn placement(ch: ChangeView, new: Seq<char>, enc: Seq<u8>) -> EntryOutcomeView {
    if enc.len() > 259 {
        EntryOutcomeView::Warn(ch, too_long_message(new))
    } else {
        EntryOutcomeView::Write(ch, enc)
    }
}

fn too_long_warning(new_path: &str) -> (r: String)
    ensures
        r@ == too_long_message(new_path@),
{
    let mut msg = String::from_str("路径过长，跳过：");
    msg.append(new_path);
    msg
}

/// Decides what becomes of a texture entry of an MDX model whose path
/// decodes to `old_path`.
pub fn plan_texture_entry(old_path: &str, model: &ModelPath, opts: &Options) -> (r: EntryPlan)
    ensures
        r@ == entry_plan(old_path@, model@, opts@),
{
    if !is_texture_path(old_path) {
        return EntryPlan::Skip;
    }
    if opts.skip_builtin && is_builtin_texture(old_path) && !resource_rule_applies(model, opts) {
        return EntryPlan::Record(texture_change(model, old_path, old_path, true));
    }
    let new_s = build_new_path(old_path, model, opts);
    let c = texture_change(model, old_path, new_s.as_str(), false);
    let old_c = chars_of(old_path);
    let new_c = chars_of(new_s.as_str());
    if eq_chars(&old_c, &new_c) {
        return EntryPlan::Record(c);
    }
    if !encode_admitted(new_s.as_str()) {
        let msg = too_long_warning(new_s.as_str());
        return EntryPlan::Warn(c, msg);
    }
    EntryPlan::Encode(c, new_s)
}

/// Places an encoded new path: it is written where it fits the entry's path
/// room with its terminating zero, and warned about otherwise.
pub fn place_new_path(change: TextureChange, new_path: &str, encoded: Vec<u8>) -> (r: EntryOutcome)
    ensures
        r@ == placement(change@, new_path@, encoded@),
{
    if encoded.len() > 259 {
        EntryOutcome::Warn(change, too_long_warning(new_path))
    } else {
        EntryOutcome::Write(change, encoded)
    }
}

/// Processes the entry whose path starts at `p`.
fn mdx_entry(
    bytes: &mut Vec<u8>,
    changes: &mut Vec<TextureChange>,
    warnings: &mut Vec<String>,
    changed: &mut bool,
    p: usize,
    Ghost(b0): Ghost<Seq<u8>>,
    model: &ModelPath,
    opts: &Options,
    write: bool,
)
    requires
        p + 260 <= old(bytes)@.len(),
        old(bytes)@.len() == b0.len(),
        forall|i: int| p <= i < p + 260 ==> old(bytes)@[i] == b0[i],
    ensures
        state_of(final(changes)@, final(warnings)@, *final(changed), final(bytes)@)
            == mdx_step(b0, state_of(old(changes)@, old(warnings)@, *old(changed), old(bytes)@), p as int, model@, opts@, write),
        final(bytes)@.len() == old(bytes)@.len(),
        forall|i: int| 0 <= i < old(bytes)@.len() && !(p <= i < p + 260) ==> final(bytes)@[i] == old(bytes)@[i],
{
    let blen = bytes.len();
    let mut len: usize = 0;
    while len < PATH_ROOM && bytes[p + len] != 0
        invariant
            blen == bytes@.len(),
            p + 260 <= bytes@.len(),
            bytes@.len() == b0.len(),
            forall|i: int| p <= i < p + 260 ==> bytes@[i] == b0[i],
            len <= 260,
            c_len(b0, p as int, 0) == c_len(b0, p as int, len as int),
        decreases 260 - len,
    {
        len = len + 1;
    }
    if len == 0 {
        return;
    }
    let mut raw: Vec<u8> = Vec::new();
    let mut k: usize = 0;
    while k < len
        invariant
            blen == bytes@.len(),
            bytes@.len() == b0.len(),
            p + 260 <= bytes@.len(),
            forall|i: int| p <= i < p + 260 ==> bytes@[i] == b0[i],
            k <= len <= 260,
            raw@ == b0.subrange(p as int, p + k),
        decreases len - k,
    {
        raw.push(bytes[p + k]);
        k = k + 1;
        assert(raw@ =~= b0.subrange(p as int, p + k));
    }
    proof {
        lemma_short_bytes_admitted(raw@);
    }
    let old_s = decode_text(raw.as_slice());
    let ghost old = old_s@;
    let ghost m = model@;
    let ghost o = opts@;
    match plan_texture_entry(old_s.as_str(), model, opts) {
        EntryPlan::Skip => {},
        EntryPlan::Record(c) => {
            push_change(changes, c);
        },
        EntryPlan::Warn(c, msg) => {
            push_warning(warnings, msg);
            push_change(changes, c);
        },
        EntryPlan::Encode(c, new_s) => {
            let encoded = encode_text(new_s.as_str());
            match place_new_path(c, new_s.as_str(), encoded) {
                EntryOutcome::Warn(c, msg) => {
                    push_warning(warnings, msg);
                    push_change(changes, c);
                },
                EntryOutcome::Write(c, enc) => {
                    if write {
                        write_entry_bytes(bytes, p, &enc);
                    }
                    *changed = true;
                    push_change(changes, c);
                },
            }
        },
    }
}

/// Processes an MDX model held in the given bytes: records each texture entry
/// and, when `write` is set and some path changed, gives the bytes with the
/// new paths written in.
pub fn process_mdx(bytes: Vec<u8>, model: &ModelPath, opts: &Options, write: bool) -> (r: FileOutcome)
    ensures
        r.result@ == mdx_result(bytes@, model@, opts@, write),
        opt_bytes(r.output) == mdx_output(bytes@, model@, opts@, write),
{
    let ghost b0 = bytes@;
    let ghost m = model@;
    let ghost o = opts@;
    let mut bytes = bytes;
    let mut changes: Vec<TextureChange> = Vec::new();
    let mut warnings: Vec<String> = Vec::new();
    let mut changed = false;
    let len = bytes.len();
    proof {
        assert(changes_view(changes@) =~= Seq::<ChangeView>::empty());
        assert(strings_view(warnings@) =~= Seq::<Seq<char>>::empty());
    }
    if len < 12 || !(bytes[0] == 0x4D && bytes[1] == 0x44 && bytes[2] == 0x4C && bytes[3] == 0x58) {
        let mut msg = model.path.clone();
        msg.append("：不是标准 MDX 文件");
        push_warning(&mut warnings, msg);
        let result = FileResult { changed, changes, warnings };
        return FileOutcome { result, output: None };
    }
    let mut offset: usize = 4;
    let mut bad = false;
    let ghost mut done: Seq<int> = Seq::empty();
    while offset <= len - 8
        invariant
            len == b0.len(),
            len >= 12,
            bytes@.len() == len,
            4 <= offset <= len,
            m == model@,
            o == opts@,
            done + chunk_walk(b0, offset as int).0 == chunk_walk(b0, 4).0,
            chunk_walk(b0, offset as int).1 == chunk_walk(b0, 4).1,
            bad ==> chunk_walk(b0, offset as int).0 == Seq::<int>::empty() && chunk_walk(b0, offset as int).1,
            state_of(changes@, warnings@, changed, bytes@) == mdx_fold(b0, done, m, o, write),
            forall|i: int| offset <= i < len ==> bytes@[i] == b0[i],
        ensures
            bad || offset + 8 > len,
        decreases len - offset,
    {
        let size = (bytes[offset + 4] as usize) + (bytes[offset + 5] as usize) * 256
            + (bytes[offset + 6] as usize) * 65536 + (bytes[offset + 7] as usize) * 16777216;
        let start = offset + 8;
        proof {
            assert(size == le_u32(b0, offset + 4));
        }
        if size > len - start {
            bad = true;
            break;
        }
        let end = start + size;
        let ghost rest = chunk_walk(b0, end as int);
        if bytes[offset] == 0x54 && bytes[offset + 1] == 0x45 && bytes[offset + 2] == 0x58
            && bytes[offset + 3] == 0x53 {
            let count = size / ENTRY_SIZE;
            let ghost here = entry_paths(start as int, size as int);
            let ghost done0 = done;
            assert(chunk_walk(b0, offset as int).0 == here + rest.0);
            let mut entry: usize = 0;
            while entry < count
                invariant
                    len == b0.len(),
                    bytes@.len() == len,
                    m == model@,
                    o == opts@,
                    start + size <= len,
                    count == size / 268,
                    entry <= count,
                    here == entry_paths(start as int, size as int),
                    done == done0 + here.take(entry as int),
                    state_of(changes@, warnings@, changed, bytes@) == mdx_fold(b0, done, m, o, write),
                    forall|i: int| start + entry * 268 <= i < len ==> bytes@[i] == b0[i],
                decreases count - entry,
            {
                assert(entry * 268 + 268 <= count * 268) by (nonlinear_arith)
                    requires entry < count;
                assert(count * 268 <= size) by (nonlinear_arith)
                    requires count == size / 268;
                let p = start + entry * ENTRY_SIZE + 4;
                let ghost prev = done;
                mdx_entry(&mut bytes, &mut changes, &mut warnings, &mut changed, p, Ghost(b0), model, opts, write);
                proof {
                    assert(here[entry as int] == p);
                    done = done.push(p as int);
                    assert(done.drop_last() =~= prev);
                    assert(here.take(entry + 1) =~= here.take(entry as int).push(p as int));
                    assert(done =~= done0 + here.take(entry + 1));
                }
                entry = entry + 1;
            }
            proof {
                assert(here.take(count as int) =~= here);
                assert(done + rest.0 =~= done0 + (here + rest.0));
                assert(count * 268 <= size) by (nonlinear_arith)
                    requires count == size / 268;
            }
        } else {
            proof {
                assert(chunk_walk(b0, offset as int).0 =~= rest.0);
            }
        }
        offset = end;
    }
    if bad {
        let mut msg = model.path.clone();
        msg.append("：MDX 区块长度异常，已停止解析");
        push_warning(&mut warnings, msg);
    }
    proof {
        assert(chunk_walk(b0, offset as int).0 =~= Seq::<int>::empty());
        assert(done =~= chunk_walk(b0, 4).0);
    }
    let output = if write && changed {
        Some(bytes)
    } else {
        None
    };
    let result = FileResult { changed, changes, warnings };
    FileOutcome { result, output }
}

} // verus!
