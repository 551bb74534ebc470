use regex::Regex;

use texture_paths::mdl::{process_mdl, rewrite_mdl_text};
use texture_paths::encoding::{decode_admitted, encode_admitted};
use texture_paths::mdx::{place_new_path, plan_texture_entry, process_mdx, EntryOutcome, EntryPlan};
use texture_paths::model::{
    backup_file_name, backup_search_step, first_backup_number, is_mdx, is_model_file, model_file,
    next_backup_path, split_file_name, BackupSearch, ModelPath,
};
use texture_paths::process::{process_file, trim_quotes, ApplyResult, PreviewResult};
use texture_paths::text::{decimal_chars, is_space};
use texture_paths::texture::{
    build_new_path, is_builtin_texture, is_texture_path, normalize_slash, resource_relative_dir,
    resource_rule_applies, texture_basename, texture_change, Options,
};

fn opts(prefix: &str, append_slash: bool, skip_builtin: bool, trim_resource: bool, reset: bool) -> Options {
    Options {
        prefix: prefix.to_string(),
        append_slash,
        skip_builtin,
        auto_backup: false,
        trim_resource,
        reset,
    }
}

fn mdx_with_entries(paths: &[&[u8]]) -> Vec<u8> {
    let mut body = Vec::new();
    for p in paths {
        let mut entry = vec![0u8; 268];
        entry[4..4 + p.len()].copy_from_slice(p);
        body.extend_from_slice(&entry);
    }
    let mut mdx = b"MDLX".to_vec();
    mdx.extend_from_slice(b"VERS");
    mdx.extend_from_slice(&4u32.to_le_bytes());
    mdx.extend_from_slice(&[1, 2, 3, 4]);
    mdx.extend_from_slice(b"TEXS");
    mdx.extend_from_slice(&(body.len() as u32).to_le_bytes());
    mdx.extend_from_slice(&body);
    mdx
}

// The MDL reference grammar written as a regular expression, for comparison with the scanner.
fn regex_rewrite(text: &str, new_for: impl Fn(&str) -> String) -> String {
    let pattern = Regex::new(r#"(?i)Image\s+"([^"]+\.(?:blp|tga))""#).unwrap();
    pattern
        .replace_all(text, |caps: &regex::Captures| {
            let old = caps.get(1).unwrap().as_str();
            let new = new_for(old);
            caps.get(0).unwrap().as_str().replace(old, &new)
        })
        .to_string()
}

#[test]
fn normalize_and_basename() {
    assert_eq!(normalize_slash("a/b\\c/d.blp"), "a\\b\\c\\d.blp");
    assert_eq!(texture_basename("Textures/Foo\\bar.blp"), "bar.blp");
    assert_eq!(texture_basename("bar.blp"), "bar.blp");
    assert_eq!(texture_basename("dir\\"), "");
}

#[test]
fn texture_extensions_ignore_case() {
    assert!(is_texture_path("a\\B.BLP"));
    assert!(is_texture_path("x.Tga"));
    assert!(!is_texture_path("x.png"));
    assert!(!is_texture_path("blp"));
}

#[test]
fn builtin_filter_handles_slashes_and_leading_separators() {
    assert!(is_builtin_texture("/Textures/foo.blp"));
    assert!(is_builtin_texture("\\\\UI/x.blp"));
    assert!(is_builtin_texture("TEXTURES\\foo.blp"));
    assert!(!is_builtin_texture("Texturesfoo.blp"));
    assert!(!is_builtin_texture("mytextures\\foo.blp"));
}

#[test]
fn resource_directory_edge_cases() {
    assert_eq!(resource_relative_dir("C:/Map/Resources/a/b/m.mdx"), Some("a\\b\\".to_string()));
    assert_eq!(resource_relative_dir("C:\\Map\\resource\\m.mdx"), None);
    assert_eq!(resource_relative_dir("C:\\Map\\other\\a\\m.mdx"), None);
    assert_eq!(resource_relative_dir("C:\\resource\\\\a\\\\m.mdx"), Some("a\\".to_string()));
    // The first marker found but empty: the second marker is tried.
    assert_eq!(resource_relative_dir("C:\\resource\\x\\resources\\a\\m.mdx"), Some("x\\resources\\a\\".to_string()));
}

#[test]
fn prefix_expansion_and_slash() {
    let m = ModelPath::new("/maps/hero.mdx");
    assert_eq!(build_new_path("old\\skin.blp", &m, &opts("tex\\($fileName)", true, false, false, false)), "tex\\hero\\skin.blp");
    assert_eq!(build_new_path("old\\skin.blp", &m, &opts("tex/", true, false, false, false)), "tex/skin.blp");
    assert_eq!(build_new_path("old\\skin.blp", &m, &opts("tex", false, false, false, false)), "texskin.blp");
    assert_eq!(build_new_path("old/skin.blp", &m, &opts("   ", true, false, false, false)), "skin.blp");
    assert_eq!(build_new_path("old/skin.blp", &m, &opts("", true, false, false, true)), "skin.blp");
}

#[test]
fn modify_twice_is_modify_once() {
    let m = ModelPath::new("/maps/hero.mdx");
    let o = opts("tex\\($fileName)", true, false, false, false);
    let once = build_new_path("old\\skin.blp", &m, &o);
    let twice = build_new_path(&once, &m, &o);
    assert_eq!(once, twice);
    let reset = opts("", true, false, false, true);
    assert_eq!(build_new_path(&once, &m, &reset), build_new_path("old\\skin.blp", &m, &reset));
}

#[test]
fn rule_applies_only_when_asked_and_not_resetting() {
    let m = ModelPath::new("C:\\w\\resource\\fx\\a.mdx");
    assert!(resource_rule_applies(&m, &opts("", true, true, true, false)));
    assert!(!resource_rule_applies(&m, &opts("", true, true, false, false)));
    assert!(!resource_rule_applies(&m, &opts("", true, true, true, true)));
}

#[test]
fn model_files_and_names() {
    let m = ModelPath::new("/maps/Hero.MDL");
    assert!(is_model_file(&m));
    assert!(!is_mdx(&m));
    let f = model_file(&m);
    assert_eq!(f.path, "/maps/Hero.MDL");
    assert_eq!(f.name, "Hero.MDL");
    assert!(is_mdx(&ModelPath::new("/a/b.Mdx")));
    assert!(!is_model_file(&ModelPath::new("/a/b.blp")));
    assert!(!is_model_file(&ModelPath::new("/a/mdx")));
    let c = texture_change(&m, "a.blp", "b.blp", false);
    assert_eq!(c.file, "/maps/Hero.MDL");
    assert_eq!(c.model, "Hero.MDL");
    assert_eq!(c.old_path, "a.blp");
    assert_eq!(c.new_path, "b.blp");
    assert!(!c.filtered);
}

#[test]
fn backup_names() {
    let m = ModelPath::new("/maps/hero.mdx");
    assert_eq!(backup_file_name(&m, 1), "heroback1.mdx");
    assert_eq!(backup_file_name(&m, 120), "heroback120.mdx");
    assert_eq!(next_backup_path(&m, 3), "/maps/heroback3.mdx");
    let bare = ModelPath::new("/maps/readme");
    assert_eq!(backup_file_name(&bare, 2), "readmeback2");
    let none = ModelPath { path: String::new(), file_name: None, file_stem: None, extension: None, parent: None };
    assert_eq!(backup_file_name(&none, 7), "modelback7");
    assert!(next_backup_path(&none, 7).ends_with("modelback7"));
    let deep = ModelPath::new("/a/b/c/unit.mdl");
    assert!(next_backup_path(&deep, 12).ends_with("unitback12.mdl"));
    assert_ne!(backup_file_name(&m, 1), backup_file_name(&m, 11));
}

#[test]
fn decimal_digits() {
    for n in [0u64, 7, 10, 99, 1234567, u64::MAX] {
        let s: String = decimal_chars(n).into_iter().collect();
        assert_eq!(s, n.to_string());
    }
}

#[test]
fn white_space_matches_std() {
    for c in (0u32..=0x10FFFF).filter_map(char::from_u32) {
        assert_eq!(is_space(c), c.is_whitespace(), "{:?}", c);
    }
}

#[test]
fn quotes_are_trimmed() {
    assert_eq!(trim_quotes("\"C:\\a b\\m.mdx\""), "C:\\a b\\m.mdx");
    assert_eq!(trim_quotes("\"\"x\""), "x");
    assert_eq!(trim_quotes("plain"), "plain");
}

#[test]
fn mdx_rewrites_paths_in_place() {
    let bytes = mdx_with_entries(&[b"old\\a.blp", b"Textures\\b.blp", b"", b"notes.txt"]);
    let m = ModelPath::new("/maps/hero.mdx");
    let o = opts("new\\", true, true, false, false);
    let out = process_mdx(bytes.clone(), &m, &o, true);
    assert!(out.result.changed);
    assert_eq!(out.result.changes.len(), 2);
    assert_eq!(out.result.changes[0].new_path, "new\\a.blp");
    assert!(out.result.changes[1].filtered);
    assert_eq!(out.result.changes[1].new_path, "Textures\\b.blp");
    let written = out.output.unwrap();
    assert_eq!(written.len(), bytes.len());
    let first = 4 + 12 + 8 + 4;
    assert_eq!(&written[first..first + 9], b"new\\a.blp");
    assert!(written[first + 9..first + 260].iter().all(|b| *b == 0));
    assert_eq!(&written[..first], &bytes[..first]);
    // A preview reports the same and writes nothing.
    let preview = process_mdx(bytes.clone(), &m, &o, false);
    assert!(preview.result.changed);
    assert_eq!(preview.result.changes.len(), 2);
    assert!(preview.output.is_none());
}

#[test]
fn mdx_warnings() {
    let m = ModelPath::new("/maps/hero.mdx");
    let o = opts("new\\", true, false, false, false);
    let out = process_mdx(b"MDLXshort".to_vec(), &m, &o, true);
    assert_eq!(out.result.warnings, vec!["/maps/hero.mdx：不是标准 MDX 文件".to_string()]);
    assert!(out.result.changes.is_empty());

    let mut bad = mdx_with_entries(&[b"a.blp"]);
    bad.extend_from_slice(b"XXXX");
    bad.extend_from_slice(&1000u32.to_le_bytes());
    let out = process_mdx(bad, &m, &o, false);
    assert_eq!(out.result.changes.len(), 1);
    assert_eq!(out.result.warnings, vec!["/maps/hero.mdx：MDX 区块长度异常，已停止解析".to_string()]);

    let long = "x".repeat(300);
    let out = process_mdx(mdx_with_entries(&[b"a.blp"]), &m, &opts(&long, true, false, false, false), true);
    assert!(!out.result.changed);
    assert!(out.output.is_none());
    assert_eq!(out.result.warnings.len(), 1);
    assert!(out.result.warnings[0].starts_with("路径过长，跳过："));
    assert_eq!(out.result.changes.len(), 1);
}

#[test]
fn mdx_paths_are_gbk() {
    let (name, _, _) = encoding_rs::GBK.encode("贴图\\火焰.blp");
    let bytes = mdx_with_entries(&[&name]);
    let m = ModelPath::new("/maps/hero.mdx");
    let out = process_mdx(bytes, &m, &opts("特效\\", true, false, false, false), true);
    assert_eq!(out.result.changes[0].old_path, "贴图\\火焰.blp");
    assert_eq!(out.result.changes[0].new_path, "特效\\火焰.blp");
    let written = out.output.unwrap();
    let (expected, _, _) = encoding_rs::GBK.encode("特效\\火焰.blp");
    let first = 4 + 12 + 8 + 4;
    assert_eq!(&written[first..first + expected.len()], &expected[..]);
    assert_ne!(expected.len(), "特效\\火焰.blp".len());
}

#[test]
fn mdl_rewrite_agrees_with_regex() {
    let m = ModelPath::new("/maps/hero.mdl");
    let o = opts("new\\", true, true, false, false);
    let samples = [
        "Bitmap {\n  Image \"old\\a.blp\",\n}\n",
        "IMAGE\t\"x.TGA\" image \"y.tga\"",
        "Image\"a.blp\" Image  \"\" Image \"b.png\" Image \"c.blp\"",
        "ImageImage \"a.blp\"",
        "Image \"a.blp\nb.blp\"",
        "Image \u{3000}\"宽.blp\" Image \".blp\"",
        "Image \"Textures\\keep.blp\" Image \"new\\done.blp\"",
        "Image \"a\" Image \"b.blp\"",
    ];
    for text in samples {
        let (out, changes, changed) = rewrite_mdl_text(text, &m, &o);
        let out: String = out.into_iter().collect();
        let expected = regex_rewrite(text, |old| {
            if is_builtin_texture(old) { old.to_string() } else { build_new_path(old, &m, &o) }
        });
        assert_eq!(out, expected, "{:?}", text);
        let pattern = Regex::new(r#"(?i)Image\s+"([^"]+\.(?:blp|tga))""#).unwrap();
        assert_eq!(changes.len(), pattern.captures_iter(text).count(), "{:?}", text);
        assert_eq!(changed, out != text, "{:?}", text);
    }
}

#[test]
fn mdl_process_encodes_only_when_writing_changes() {
    let m = ModelPath::new("/maps/hero.mdl");
    let o = opts("new\\", true, false, false, false);
    let text = "Image \"old\\a.blp\"";
    let out = process_mdl(text.as_bytes(), &m, &o, true).unwrap();
    assert!(out.result.changed);
    assert_eq!(out.output.unwrap(), b"Image \"new\\a.blp\"".to_vec());
    let out = process_mdl(text.as_bytes(), &m, &o, false).unwrap();
    assert!(out.output.is_none());
    let same = "Image \"new\\a.blp\"";
    let out = process_mdl(same.as_bytes(), &m, &o, true).unwrap();
    assert!(!out.result.changed);
    assert!(out.output.is_none());
    assert_eq!(out.result.changes.len(), 1);
}

#[test]
fn results_gather_over_files() {
    let o = opts("new\\", true, false, false, false);
    let mut apply = ApplyResult::new();
    let mut preview = PreviewResult::new();
    for (path, bytes) in [
        ("/m/a.mdl", b"Image \"x.blp\"".to_vec()),
        ("/m/b.mdl", b"Image \"new\\y.blp\"".to_vec()),
        ("/m/c.mdx", mdx_with_entries(&[b"z.blp"])),
    ] {
        let m = ModelPath::new(path);
        let out = process_file(&m, bytes.clone(), &o, true).unwrap();
        apply.absorb(out.result);
        let out = process_file(&m, bytes, &o, false).unwrap();
        preview.absorb(out.result);
    }
    assert_eq!(apply.changed_files, 2);
    assert_eq!(apply.changes.len(), 3);
    assert_eq!(preview.changes.len(), 3);
    assert_eq!(preview.changes[2].new_path, "new\\z.blp");
}

#[test]
fn mdl_text_is_gbk() {
    let m = ModelPath::new("/maps/hero.mdl");
    let o = opts("特效\\", true, false, false, false);
    let (source, _, _) = encoding_rs::GBK.encode("Image \"旧\\火焰.blp\"");
    let out = process_mdl(&source, &m, &o, true).unwrap();
    assert_eq!(out.result.changes[0].old_path, "旧\\火焰.blp");
    assert_eq!(out.result.changes[0].new_path, "特效\\火焰.blp");
    let (expected, _, _) = encoding_rs::GBK.encode("Image \"特效\\火焰.blp\"");
    assert_eq!(out.output.unwrap(), expected.to_vec());
}

#[test]
fn model_path_components() {
    let m = ModelPath::new("maps/hero.mdx");
    assert_eq!(m.file_name.as_deref(), Some("hero.mdx"));
    assert_eq!(m.file_stem.as_deref(), Some("hero"));
    assert_eq!(m.extension.as_deref(), Some("mdx"));
    assert_eq!(m.parent.as_deref(), Some("maps"));
    assert_eq!(next_backup_path(&m, 1), "maps/heroback1.mdx");
    assert_eq!(next_backup_path(&m, 3), "maps/heroback3.mdx");
    let bare = ModelPath::new("maps/hero");
    assert_eq!(next_backup_path(&bare, 1), "maps/heroback1");
    let here = ModelPath::new("hero.mdl");
    assert_eq!(here.parent.as_deref(), Some(""));
    assert_eq!(next_backup_path(&here, 2), "heroback2.mdl");
}

#[test]
fn file_names_split_as_std_does() {
    for name in [
        "hero.mdx", "hero", ".bashrc", "a.", "..", ".", "a.b.c", "..a", "x..", ".a.b", "贴图.blp",
    ] {
        let (stem, ext) = split_file_name(name);
        let p = std::path::Path::new(name);
        let std_stem = p.file_stem().map(|s| s.to_string_lossy().to_string());
        let std_ext = p.extension().map(|s| s.to_string_lossy().to_string());
        if let Some(std_stem) = std_stem {
            assert_eq!(Some(stem), Some(std_stem), "{:?}", name);
            assert_eq!(ext, std_ext, "{:?}", name);
        }
        let in_dir = format!("dir/{}", name);
        let m = ModelPath::new(&in_dir);
        let d = std::path::Path::new(&in_dir);
        assert_eq!(m.file_stem, d.file_stem().map(|s| s.to_string_lossy().to_string()), "{:?}", name);
        assert_eq!(m.extension, d.extension().map(|s| s.to_string_lossy().to_string()), "{:?}", name);
    }
}

#[test]
fn backup_search_steps() {
    assert_eq!(first_backup_number(), 1);
    assert!(matches!(backup_search_step(1, false), BackupSearch::Found));
    assert!(matches!(backup_search_step(1, true), BackupSearch::Next(2)));
    assert!(matches!(backup_search_step(u64::MAX, true), BackupSearch::Exhausted));
}

#[test]
fn rootless_paths_show_the_whole_path() {
    let root = ModelPath::new("/");
    assert_eq!(root.file_name, None);
    assert_eq!(model_file(&root).name, "/");
    let up = ModelPath::new("a/..");
    assert_eq!(up.file_name, None);
    assert_eq!(model_file(&up).name, "a/..");
    let f = model_file(&ModelPath::new("a/b/c.mdx"));
    assert_eq!(f.path, "a/b/c.mdx");
    assert_eq!(f.name, "c.mdx");
}

#[test]
fn entry_plans() {
    let m = ModelPath::new("/maps/hero.mdx");
    let o = opts("new\\", true, true, false, false);
    assert!(matches!(plan_texture_entry("notes.txt", &m, &o), EntryPlan::Skip));
    match plan_texture_entry("Textures\\b.blp", &m, &o) {
        EntryPlan::Record(c) => {
            assert!(c.filtered);
            assert_eq!(c.new_path, "Textures\\b.blp");
        }
        _ => panic!("a built-in texture is recorded unchanged"),
    }
    match plan_texture_entry("new\\a.blp", &m, &o) {
        EntryPlan::Record(c) => {
            assert!(!c.filtered);
            assert_eq!(c.new_path, "new\\a.blp");
        }
        _ => panic!("an unchanged path is recorded"),
    }
    match plan_texture_entry("old\\a.BLP", &m, &o) {
        EntryPlan::Encode(c, new_path) => {
            assert_eq!(new_path, "new\\a.BLP");
            assert_eq!(c.old_path, "old\\a.BLP");
            assert_eq!(c.new_path, "new\\a.BLP");
            assert_eq!(c.model, "hero.mdx");
        }
        _ => panic!("a changed path is to be encoded"),
    }
}

#[test]
fn encoded_paths_are_placed_or_warned_about() {
    let m = ModelPath::new("/maps/hero.mdx");
    let c = texture_change(&m, "a.blp", "b.blp", false);
    match place_new_path(c, "b.blp", b"b.blp".to_vec()) {
        EntryOutcome::Write(c, bytes) => {
            assert_eq!(bytes, b"b.blp".to_vec());
            assert_eq!(c.new_path, "b.blp");
        }
        _ => panic!("a short path is written"),
    }
    let c = texture_change(&m, "a.blp", "b.blp", false);
    match place_new_path(c, "b.blp", vec![b'x'; 259]) {
        EntryOutcome::Write(_, bytes) => assert_eq!(bytes.len(), 259),
        _ => panic!("259 bytes fit"),
    }
    let c = texture_change(&m, "a.blp", "b.blp", false);
    match place_new_path(c, "long.blp", vec![b'x'; 260]) {
        EntryOutcome::Warn(c, msg) => {
            assert_eq!(msg, "路径过长，跳过：long.blp");
            assert_eq!(c.new_path, "b.blp");
        }
        _ => panic!("260 bytes do not fit"),
    }
}

#[test]
fn coder_limits() {
    assert!(decode_admitted(b"plain ascii"));
    assert!(decode_admitted(&[0xB0, 0xA1]));
    assert!(decode_admitted(&[0xEF, 0xBB, 0xBF, b'a']));
    assert!(decode_admitted(&[]));
    assert!(encode_admitted("plain"));
    assert!(encode_admitted("贴图"));
    assert!(encode_admitted(""));
}

#[test]
fn second_apply_changes_nothing() {
    let cases: Vec<(&str, Vec<u8>, Options)> = vec![
        ("/m/a.mdl", "Image \"x.blp\" Image \"old/y.TGA\" Image\t\"Textures\\b.blp\"".as_bytes().to_vec(),
            opts("new", true, true, false, false)),
        ("/m/b.mdl", "Image \"a\\.blp\" Image \"c\\d.blp\"".as_bytes().to_vec(), opts("", false, false, false, true)),
        ("/m/resource/units/c.mdl", b"Image \"x\\y.blp\"".to_vec(), opts("p\\", false, false, true, false)),
        ("/m/d.mdx", mdx_with_entries(&[b"old\\a.blp", b"Textures\\b.blp", b"q.tga"]), opts("($fileName)", true, true, false, false)),
        ("/m/e.mdx", mdx_with_entries(&[b"a\\b\\c.blp"]), opts("", false, false, false, true)),
    ];
    let mut first = ApplyResult::new();
    let mut second = ApplyResult::new();
    for (path, bytes, o) in cases {
        let m = ModelPath::new(path);
        let out = process_file(&m, bytes.clone(), &o, true).unwrap();
        assert!(out.result.changed, "{}", path);
        first.absorb(out.result);
        let written = out.output.unwrap();
        let again = process_file(&m, written.clone(), &o, true).unwrap();
        assert!(!again.result.changed, "{}", path);
        assert!(again.output.is_none(), "{}", path);
        second.absorb(again.result);
    }
    assert_eq!(first.changed_files, 5);
    assert_eq!(second.changed_files, 0);
}
