use std::path::Path;

use texture_paths::model::ModelPath;
use texture_paths::process::{process_file, PreviewResult};
use texture_paths::texture::{
    build_new_path, is_builtin_texture, resource_relative_dir, resource_rule_applies, Options,
};

fn preview(model_path: &str, bytes: Vec<u8>, opts: &Options) -> PreviewResult {
    let model = ModelPath::new(model_path);
    let outcome = process_file(&model, bytes, opts, false).unwrap();
    let mut result = PreviewResult::new();
    result.absorb(outcome.result);
    result
}

#[test]
fn resource_directory_comes_from_model_location() {
    let path = r"E:\maps\NewMap\resource\effect\tips\range\001\技能范围_静态.mdx";
    assert_eq!(
        resource_relative_dir(path),
        Some(r"effect\tips\range\001\".to_string())
    );
}

#[test]
fn builtin_texture_roots_are_filtered_case_insensitively() {
    for path in [
        r"Textures\foo.blp",
        r"units\human\footman.blp",
        r"Abilities\Spells\test.blp",
        r"UI\Console\test.blp",
        r"buildings\human\test.blp",
        r"Doodads\Cityscape\test.blp",
        r"Object\test.blp",
        r"Objects\InventoryItems\BundleofLumber\WoodItem.blp",
        r"TerrainArt\Village\Village_GrassThick.blp",
        r"ReplaceableTextures\TeamColor\TeamColor00.blp",
    ] {
        assert!(is_builtin_texture(path), "{} should be builtin", path);
    }
    assert!(!is_builtin_texture(r"effect\custom.blp"));
}

#[test]
fn resource_rule_overrides_builtin_filter_for_resource_models() {
    let path = ModelPath::new(r"E:\maps\NewMap\resource\effect\buff\debuff\dizziness\dizziness.mdx");
    let opts = Options {
        prefix: String::new(),
        append_slash: true,
        skip_builtin: true,
        auto_backup: false,
        trim_resource: true,
        reset: false,
    };

    assert!(resource_rule_applies(&path, &opts));
    assert_eq!(
        build_new_path(r"Textures\zapblue2.blp", &path, &opts),
        r"effect\buff\debuff\dizziness\zapblue2.blp"
    );
}

#[test]
fn mdx_resource_preview_returns_the_expected_path() {
    let root = Path::new("/tmp").join("xy_texture_path_test_1_1");
    let model_dir = root.join(r"resource\effect\buff\debuff\dizziness");
    let model_path = model_dir.join("dizziness.mdx");

    let texture = b"Textures\\zapblue2.blp";
    let mut entry = vec![0u8; 268];
    entry[4..4 + texture.len()].copy_from_slice(texture);
    let mut mdx = b"MDLX".to_vec();
    mdx.extend_from_slice(b"TEXS");
    mdx.extend_from_slice(&(268u32).to_le_bytes());
    mdx.extend_from_slice(&entry);

    let opts = Options {
        prefix: String::new(),
        append_slash: true,
        skip_builtin: true,
        auto_backup: false,
        trim_resource: true,
        reset: false,
    };
    let result = preview(&model_path.to_string_lossy(), mdx, &opts);

    assert_eq!(result.changes.len(), 1);
    assert_eq!(
        result.changes[0].new_path,
        r"effect\buff\debuff\dizziness\zapblue2.blp"
    );
}

#[test]
fn reset_removes_custom_prefix_but_respects_builtin_filter() {
    let path = ModelPath::new(r"E:\maps\NewMap\resource\effect\buff\debuff\dizziness\dizziness.mdx");
    let opts = Options {
        prefix: r"custom\path".to_string(),
        append_slash: true,
        skip_builtin: true,
        auto_backup: false,
        trim_resource: true,
        reset: true,
    };

    assert_eq!(
        build_new_path(r"effect\buff\debuff\dizziness\ZapBlue2.blp", &path, &opts,),
        "ZapBlue2.blp"
    );
    assert!(!resource_rule_applies(&path, &opts));
    assert!(opts.skip_builtin);
    assert!(is_builtin_texture(
        r"TerrainArt\Village\Village_GrassThick.blp"
    ));
}

#[test]
fn reset_preview_keeps_filtered_builtin_texture_unchanged() {
    let root = Path::new("/tmp").join("xy_reset_filter_test_1_1");
    let model_dir = root.join(r"resource\effect\test");
    let model_path = model_dir.join("test.mdl");
    let text = br#"Textures 1 {
    Bitmap {
        Image "TerrainArt\Village\Village_GrassThick.blp",
    }
}"#;

    let opts = Options {
        prefix: String::new(),
        append_slash: true,
        skip_builtin: true,
        auto_backup: false,
        trim_resource: true,
        reset: true,
    };
    let result = preview(&model_path.to_string_lossy(), text.to_vec(), &opts);

    assert_eq!(result.changes.len(), 1);
    assert!(result.changes[0].filtered);
    assert_eq!(
        result.changes[0].new_path,
        r"TerrainArt\Village\Village_GrassThick.blp"
    );
}
