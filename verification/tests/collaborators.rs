use rnp::json::{print_json, Json};
use rnp::manifest::{
    load_installed_versions, run_script_command, uninstall_from_manifest, update_targets,
    RunError,
};

fn manifest_doc() -> Json {
    Json::Obj(vec![
        (b"name".to_vec(), Json::Str(b"demo".to_vec())),
        (
            b"dependencies".to_vec(),
            Json::Obj(vec![
                (b"left-pad".to_vec(), Json::Str(b"^1.3.0".to_vec())),
                (b"chalk".to_vec(), Json::Str(b"2.4.2".to_vec())),
            ]),
        ),
        (
            b"devDependencies".to_vec(),
            Json::Obj(vec![(b"left-pad".to_vec(), Json::Str(b"*".to_vec()))]),
        ),
        (
            b"scripts".to_vec(),
            Json::Obj(vec![(b"test".to_vec(), Json::Str(b"node test.js".to_vec()))]),
        ),
    ])
}

#[test]
fn uninstall_removes_from_every_dep_map() {
    let (edited, removed) = uninstall_from_manifest(&manifest_doc(), &vec![b"left-pad".to_vec()]);
    assert_eq!(removed, 2);
    let text = String::from_utf8(print_json(&edited)).unwrap();
    assert!(!text.contains("left-pad"));
    assert!(text.contains("chalk"));
}

#[test]
fn uninstall_of_missing_name_is_noop() {
    let doc = manifest_doc();
    let before = print_json(&doc);
    let (edited, removed) = uninstall_from_manifest(&doc, &vec![b"absent".to_vec()]);
    assert_eq!(removed, 0);
    assert_eq!(print_json(&edited), before);
}

#[test]
fn run_looks_up_script_and_appends_args() {
    let cmd = run_script_command(
        &manifest_doc(),
        b"test",
        &vec![b"--grep".to_vec(), b"pad".to_vec()],
    )
    .expect("script exists");
    assert_eq!(String::from_utf8(cmd).unwrap(), "node test.js --grep pad");
    assert_eq!(
        run_script_command(&manifest_doc(), b"missing", &Vec::new()),
        Err(RunError::ScriptNotFound)
    );
    assert_eq!(
        run_script_command(&Json::Null, b"test", &Vec::new()),
        Err(RunError::NoScripts)
    );
}

#[test]
fn update_targets_default_to_direct_dependencies() {
    let all = update_targets(&manifest_doc(), &Vec::new());
    assert_eq!(all, vec![b"left-pad".to_vec(), b"chalk".to_vec()]);
    let chosen = update_targets(&manifest_doc(), &vec![b"chalk".to_vec()]);
    assert_eq!(chosen, vec![b"chalk".to_vec()]);
}

#[test]
fn installed_versions_prefer_lockfile() {
    let lock = Json::Obj(vec![(
        b"packages".to_vec(),
        Json::Obj(vec![
            (b"".to_vec(), Json::Obj(Vec::new())),
            (
                b"node_modules/left-pad".to_vec(),
                Json::Obj(vec![(b"version".to_vec(), Json::Str(b"1.3.0".to_vec()))]),
            ),
            (
                b"node_modules/broken".to_vec(),
                Json::Obj(vec![(b"version".to_vec(), Json::Str(b"oops".to_vec()))]),
            ),
        ]),
    )]);
    let versions = load_installed_versions(Some(&lock), Some(&manifest_doc()));
    assert_eq!(versions, vec![(b"left-pad".to_vec(), b"1.3.0".to_vec())]);
    let from_manifest = load_installed_versions(None, Some(&manifest_doc()));
    assert_eq!(
        from_manifest,
        vec![
            (b"left-pad".to_vec(), b"1.3.0".to_vec()),
            (b"chalk".to_vec(), b"2.4.2".to_vec()),
        ]
    );
    assert_eq!(load_installed_versions(None, None), Vec::new());
}

#[test]
fn lockfile_versions_use_name_after_last_node_modules() {
    let lock = Json::Obj(vec![(
        b"packages".to_vec(),
        Json::Obj(vec![(
            b"node_modules/a/node_modules/b".to_vec(),
            Json::Obj(vec![(b"version".to_vec(), Json::Str(b"2.0.1".to_vec()))]),
        )]),
    )]);
    let versions = load_installed_versions(Some(&lock), None);
    assert_eq!(versions, vec![(b"b".to_vec(), b"2.0.1".to_vec())]);
}

#[test]
fn metadata_extraction_selects_and_extracts() {
    let entry = |url: &str| {
        Json::Obj(vec![
            (
                b"dependencies".to_vec(),
                Json::Obj(vec![(b"ansi".to_vec(), Json::Str(b"^1.0.0".to_vec()))]),
            ),
            (
                b"dist".to_vec(),
                Json::Obj(vec![
                    (b"tarball".to_vec(), Json::Str(url.as_bytes().to_vec())),
                    (b"shasum".to_vec(), Json::Str(b"abc".to_vec())),
                ]),
            ),
        ])
    };
    let doc = Json::Obj(vec![(
        b"versions".to_vec(),
        Json::Obj(vec![
            (b"1.0.0".to_vec(), entry("https://x/1.0.0.tgz")),
            (b"1.4.0".to_vec(), entry("https://x/1.4.0.tgz")),
            (b"2.0.0".to_vec(), entry("https://x/2.0.0.tgz")),
        ]),
    )]);
    let req = rnp::range::parse_npm_version(b"^1.0.0").unwrap();
    let info = rnp::metadata::package_info_from_metadata(&doc, b"pkg", &req, None)
        .expect("metadata resolves");
    assert_eq!(info.name, b"pkg".to_vec());
    assert_eq!((info.version.major, info.version.minor), (1, 4));
    assert_eq!(info.tarball_url, b"https://x/1.4.0.tgz".to_vec());
    assert_eq!(info.shasum, Some(b"abc".to_vec()));
    assert_eq!(info.dependencies.len(), 1);
    assert_eq!(info.dependencies[0].name, b"ansi".to_vec());
}

#[test]
fn lifecycle_commands_run_in_order() {
    let mut info = rnp::package::PackageInfo::bare(
        b"pkg".to_vec(),
        rnp::version::parse_version(b"1.0.0").unwrap(),
    );
    info.postinstall = Some(b"echo post".to_vec());
    info.preinstall = Some(b"echo pre".to_vec());
    let cmds = rnp::layout::lifecycle_commands(&info);
    assert_eq!(cmds.len(), 2);
    assert_eq!(cmds[0].1, b"echo pre".to_vec());
    assert_eq!(cmds[1].1, b"echo post".to_vec());
}

#[test]
fn shim_paths_are_under_bin() {
    let link = rnp::layout::shim_link_path(b"tsc");
    assert_eq!(link, b"node_modules/.bin/tsc".to_vec());
    let target = rnp::layout::shim_target_path(b"typescript", b"bin/tsc");
    assert_eq!(target, b"node_modules/typescript/bin/tsc".to_vec());
}

#[test]
fn workspace_patterns_list_and_object_forms() {
    let list_form = Json::Obj(vec![(
        b"workspaces".to_vec(),
        Json::Arr(vec![
            Json::Str(b"packages/*".to_vec()),
            Json::Str(b"tools/cli".to_vec()),
            Json::Null,
        ]),
    )]);
    assert_eq!(
        rnp::manifest::workspace_patterns(&list_form),
        vec![b"packages/*".to_vec(), b"tools/cli".to_vec()]
    );
    let object_form = Json::Obj(vec![(
        b"workspaces".to_vec(),
        Json::Obj(vec![(
            b"packages".to_vec(),
            Json::Arr(vec![Json::Str(b"libs/*".to_vec())]),
        )]),
    )]);
    assert_eq!(
        rnp::manifest::workspace_patterns(&object_form),
        vec![b"libs/*".to_vec()]
    );
    assert_eq!(
        rnp::manifest::pattern_star_prefix(b"packages/*"),
        Some(b"packages".to_vec())
    );
    assert_eq!(rnp::manifest::pattern_star_prefix(b"tools/cli"), None);
    assert!(rnp::manifest::manifest_has_name(
        &Json::Obj(vec![(b"name".to_vec(), Json::Str(b"cli".to_vec()))]),
        b"cli"
    ));
}

#[test]
fn audit_summary_counts_by_severity() {
    let adv = |sev: &str| {
        Json::Obj(vec![(b"severity".to_vec(), Json::Str(sev.as_bytes().to_vec()))])
    };
    let doc = Json::Obj(vec![
        (b"left-pad".to_vec(), Json::Arr(vec![adv("high"), adv("low")])),
        (b"chalk".to_vec(), Json::Arr(vec![adv("critical"), adv("high"), adv("odd")])),
        (b"meta".to_vec(), Json::Str(b"ignored".to_vec())),
    ]);
    let counts = rnp::manifest::audit_summary(&doc);
    assert_eq!(counts.total, 5);
    assert_eq!(counts.critical, 1);
    assert_eq!(counts.high, 2);
    assert_eq!(counts.moderate, 0);
    assert_eq!(counts.low, 1);
}

#[test]
fn audit_payload_shapes_versions() {
    let payload = rnp::manifest::audit_payload(&vec![(b"left-pad".to_vec(), b"1.3.0".to_vec())]);
    let text = String::from_utf8(print_json(&payload)).unwrap();
    assert_eq!(text, "{\n  \"left-pad\": [\n    \"1.3.0\"\n  ]\n}");
}

#[test]
fn install_updates_manifest_with_caret_range() {
    let updated = rnp::manifest::set_direct_dependency(&manifest_doc(), b"is-even", b"^1.0.0")
        .expect("manifest is an object");
    let text = String::from_utf8(print_json(&updated)).unwrap();
    assert!(text.contains("\"is-even\": \"^1.0.0\""));
    assert!(text.contains("\"left-pad\": \"^1.3.0\""));
    let replaced = rnp::manifest::set_direct_dependency(&manifest_doc(), b"chalk", b"^3.0.0")
        .expect("manifest is an object");
    let text = String::from_utf8(print_json(&replaced)).unwrap();
    assert!(text.contains("\"chalk\": \"^3.0.0\""));
    assert!(!text.contains("2.4.2"));
}

#[test]
fn uninstall_strips_lockfile_entries() {
    let lock = Json::Obj(vec![(
        b"packages".to_vec(),
        Json::Obj(vec![
            (b"".to_vec(), Json::Obj(Vec::new())),
            (b"node_modules/left-pad".to_vec(), Json::Obj(Vec::new())),
            (b"node_modules/chalk".to_vec(), Json::Obj(Vec::new())),
        ]),
    )]);
    let stripped = rnp::manifest::strip_lockfile_entries(
        &lock,
        &vec![b"node_modules/left-pad".to_vec()],
    );
    let text = String::from_utf8(print_json(&stripped)).unwrap();
    assert!(!text.contains("left-pad"));
    assert!(text.contains("node_modules/chalk"));
}

#[test]
fn metadata_extracts_platform_scripts_and_bin() {
    let entry = Json::Obj(vec![
        (
            b"dist".to_vec(),
            Json::Obj(vec![(b"tarball".to_vec(), Json::Str(b"https://x/t.tgz".to_vec()))]),
        ),
        (
            b"engines".to_vec(),
            Json::Obj(vec![(b"node".to_vec(), Json::Str(b">=14".to_vec()))]),
        ),
        (b"os".to_vec(), Json::Arr(vec![Json::Str(b"!win32".to_vec())])),
        (b"cpu".to_vec(), Json::Arr(vec![Json::Str(b"x64".to_vec())])),
        (
            b"scripts".to_vec(),
            Json::Obj(vec![
                (b"postinstall".to_vec(), Json::Str(b"node setup.js".to_vec())),
                (b"prepare".to_vec(), Json::Str(b"ignored".to_vec())),
            ]),
        ),
        (
            b"bin".to_vec(),
            Json::Obj(vec![(b"tool".to_vec(), Json::Str(b"bin/tool.js".to_vec()))]),
        ),
    ]);
    let doc = Json::Obj(vec![(
        b"versions".to_vec(),
        Json::Obj(vec![(b"1.0.0".to_vec(), entry)]),
    )]);
    let req = rnp::range::parse_npm_version(b"*").unwrap();
    let info = rnp::metadata::package_info_from_metadata(&doc, b"@scope/tool", &req, None)
        .expect("metadata resolves");
    assert_eq!(info.os_constraints, vec![b"!win32".to_vec()]);
    assert_eq!(info.cpu_constraints, vec![b"x64".to_vec()]);
    assert!(info.engines_node.is_some());
    assert_eq!(info.postinstall, Some(b"node setup.js".to_vec()));
    assert_eq!(info.preinstall, None);
    assert_eq!(
        info.bin_entries,
        vec![(b"tool".to_vec(), b"bin/tool.js".to_vec())]
    );
}

#[test]
fn string_bin_defaults_to_last_name_segment() {
    let entry = Json::Obj(vec![
        (
            b"dist".to_vec(),
            Json::Obj(vec![(b"tarball".to_vec(), Json::Str(b"https://x/t.tgz".to_vec()))]),
        ),
        (b"bin".to_vec(), Json::Str(b"cli.js".to_vec())),
    ]);
    let doc = Json::Obj(vec![(
        b"versions".to_vec(),
        Json::Obj(vec![(b"1.0.0".to_vec(), entry)]),
    )]);
    let req = rnp::range::parse_npm_version(b"*").unwrap();
    let info = rnp::metadata::package_info_from_metadata(&doc, b"@scope/cli", &req, None)
        .expect("metadata resolves");
    assert_eq!(info.bin_entries, vec![(b"cli".to_vec(), b"cli.js".to_vec())]);
}
