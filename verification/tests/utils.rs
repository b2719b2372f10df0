use dino::utils::{
    calc_hash_for_files, calc_hash_for_project, is_ts_or_js_or_config_toml, plan_build,
    should_reload, BuildPlan,
};

fn file(path: &str, bytes: &[u8]) -> (String, Vec<u8>) {
    (path.to_string(), bytes.to_vec())
}

fn exts(list: &[&str]) -> Vec<String> {
    list.iter().map(|e| e.to_string()).collect()
}

#[test]
fn calc_hash_for_files_should_work() {
    let files = vec![
        file("fixtures/prj/main.ts", b""),
        file("fixtures/prj/utils/fetch.json", b""),
        file("fixtures/prj/utils/math.js", b""),
    ];
    let hash = calc_hash_for_files(&files, &exts(&["ts", "js", "json"]), 12);

    assert_eq!(hash, "af1349b9f5f9");
}

#[test]
fn hash_ignores_enumeration_order() {
    let a = vec![file("b.ts", b"bbb"), file("a.ts", b"aaa")];
    let b = vec![file("a.ts", b"aaa"), file("b.ts", b"bbb")];
    let e = exts(&["ts"]);
    assert_eq!(calc_hash_for_files(&a, &e, 16), calc_hash_for_files(&b, &e, 16));
}

#[test]
fn hash_skips_files_outside_extension_set() {
    let with_extra = vec![file("a.ts", b"aaa"), file("notes.md", b"ignored")];
    let without = vec![file("a.ts", b"aaa")];
    let e = exts(&["ts"]);
    assert_eq!(calc_hash_for_files(&with_extra, &e, 16), calc_hash_for_files(&without, &e, 16));
}

#[test]
fn hash_changes_with_content() {
    let one = vec![file("a.ts", b"aaa")];
    let two = vec![file("a.ts", b"aab")];
    let e = exts(&["ts"]);
    assert_ne!(calc_hash_for_files(&one, &e, 16), calc_hash_for_files(&two, &e, 16));
}

#[test]
fn project_hash_is_sixteen_characters() {
    let files = vec![file("main.ts", b"export {}")];
    let hash = calc_hash_for_project(&files);
    assert_eq!(hash.len(), 16);
}

#[test]
fn qualifying_paths_are_sources_and_config() {
    assert!(is_ts_or_js_or_config_toml("src/main.ts"));
    assert!(is_ts_or_js_or_config_toml("lib/util.js"));
    assert!(is_ts_or_js_or_config_toml("proj/config.toml"));
    assert!(!is_ts_or_js_or_config_toml("readme.md"));
    assert!(!is_ts_or_js_or_config_toml(".gitignore"));
    assert!(!is_ts_or_js_or_config_toml("no_extension"));
    assert!(!is_ts_or_js_or_config_toml("other.toml"));
}

#[test]
fn reload_triggers_only_on_qualifying_changes() {
    let quiet = vec!["readme.md".to_string(), ".build/abc.mjs".to_string()];
    assert!(!should_reload(&quiet));

    let touched = vec!["readme.md".to_string(), "src/main.ts".to_string()];
    assert!(should_reload(&touched));

    assert!(!should_reload(&Vec::new()));
}

#[test]
fn build_plan_derives_content_addressed_paths() {
    match plan_build("cafe", false) {
        BuildPlan::Rebuild(module, config) => {
            assert_eq!(module, ".build/cafe.mjs");
            assert_eq!(config, ".build/cafe.yml");
        },
        other => panic!("unexpected plan: {other:?}"),
    }
}

#[test]
fn second_build_of_unchanged_tree_is_cache_hit() {
    let files = vec![file("main.ts", b"export {}")];
    let hash1 = calc_hash_for_project(&files);
    let first = plan_build(&hash1, false);
    let module = match &first {
        BuildPlan::Rebuild(module, _) => module.clone(),
        other => panic!("unexpected plan: {other:?}"),
    };

    // Unchanged sources hash identically, and the artifact written by the
    // first build is found, so the second run bundles nothing.
    let hash2 = calc_hash_for_project(&files);
    assert_eq!(hash1, hash2);
    match plan_build(&hash2, true) {
        BuildPlan::CacheHit(found) => assert_eq!(found, module),
        other => panic!("unexpected plan: {other:?}"),
    }
}

#[test]
fn dino_should_work() {}
