use rnp::cache::{evaluate_cached, PackageCache, CACHE_MAX_AGE_SECS};
use rnp::json::{print_json, Json};
use rnp::layout::{partition_installable, strip_entry_path};
use rnp::lockfile::{lockfile_doc, read_lockfile_doc, dependency_maps_agree, RootMeta};
use rnp::metadata::find_best_version;
use rnp::package::{DepEntry, PackageInfo, ResolvedPackage};
use rnp::range::parse_npm_version;
use rnp::resolver::DependencyResolver;
use rnp::version::parse_version;

fn ver(t: &str) -> rnp::version::Version {
    parse_version(t.as_bytes()).expect("version should parse")
}

fn req(t: &str) -> rnp::range::VersionRequirement {
    parse_npm_version(t.as_bytes()).expect("requirement should parse")
}

fn dep(name: &str, text: &str) -> DepEntry {
    DepEntry { name: name.as_bytes().to_vec(), req: req(text) }
}

#[test]
fn resolver_conflict_keeps_first_and_records_it() {
    let mut r = DependencyResolver::new(b"root");
    let item = r.next_work().expect("root item");
    let mut root = PackageInfo::bare(b"root".to_vec(), ver("1.0.0"));
    root.dependencies = vec![dep("a", "^1.0.0"), dep("b", "^1.0.0")];
    r.commit(item, root);

    let item = r.next_work().expect("a item");
    assert_eq!(item.name, b"a".to_vec());
    let a = PackageInfo::bare(b"a".to_vec(), ver("1.2.0"));
    r.commit(item, a);

    let item = r.next_work().expect("b item");
    assert_eq!(item.name, b"b".to_vec());
    let mut b = PackageInfo::bare(b"b".to_vec(), ver("1.0.0"));
    b.dependencies = vec![dep("a", "^2.0.0")];
    r.commit(item, b);

    assert!(r.next_work().is_none());
    assert_eq!(r.conflicts.len(), 1);
    let rendered = r.conflicts[0].render();
    assert_eq!(
        String::from_utf8(rendered).unwrap(),
        "Version conflict for a: ^2.0.0 vs 1.2.0"
    );
    let packages = r.take_packages();
    assert_eq!(packages.len(), 3);
    let a_committed: Vec<_> = packages
        .iter()
        .filter(|p| p.info.name == b"a".to_vec())
        .collect();
    assert_eq!(a_committed.len(), 1);
    assert_eq!(a_committed[0].info.version.major, 1);
    for w in packages.windows(2) {
        assert!(w[0].depth <= w[1].depth);
    }
}

#[test]
fn cache_key_is_sha256_hex_of_identity() {
    let key = PackageCache::cache_key(b"left-pad", b"1.3.0");
    let digest = rnp::hash::sha256(b"left-pad@1.3.0");
    let expected = rnp::bytes::hex_lower(&digest);
    assert_eq!(key, expected);
    assert_eq!(key.len(), 64);
}

#[test]
fn cache_paths_under_home() {
    let cache = PackageCache::new(b"/home/u");
    let path = cache.tarball_path(b"x", b"1.0.0");
    let text = String::from_utf8(path).unwrap();
    assert!(text.starts_with("/home/u/.rnp/cache/"));
    assert!(text.ends_with(".tgz"));
}

#[test]
fn cached_blob_served_when_fresh_and_checksum_matches() {
    let blob = b"tarball-bytes";
    let sha = rnp::bytes::hex_lower(&rnp::hash::sha1(blob));
    assert!(evaluate_cached(blob, 0, CACHE_MAX_AGE_SECS, Some(&sha)));
    let upper: Vec<u8> = sha.iter().map(|b| b.to_ascii_uppercase()).collect();
    assert!(evaluate_cached(blob, 0, CACHE_MAX_AGE_SECS, Some(&upper)));
    assert!(evaluate_cached(blob, CACHE_MAX_AGE_SECS, CACHE_MAX_AGE_SECS, None));
}

#[test]
fn cached_blob_rejected_when_stale_or_mismatched() {
    let blob = b"tarball-bytes";
    let sha = rnp::bytes::hex_lower(&rnp::hash::sha1(blob));
    assert!(!evaluate_cached(blob, CACHE_MAX_AGE_SECS + 1, CACHE_MAX_AGE_SECS, Some(&sha)));
    let wrong = rnp::bytes::hex_lower(&rnp::hash::sha1(b"other"));
    assert!(!evaluate_cached(blob, 0, CACHE_MAX_AGE_SECS, Some(&wrong)));
}

#[test]
fn integrity_prefers_sri_then_shasum() {
    let blob = b"archive";
    let sha512 = rnp::hash::sha512(blob);
    let mut sri = b"sha512-".to_vec();
    sri.extend_from_slice(b64(&sha512).as_bytes());
    assert!(rnp::integrity::verify_integrity(blob, Some(&sri), None));
    assert!(!rnp::integrity::verify_integrity(b"tampered", Some(&sri), None));
    let sha1 = rnp::bytes::hex_lower(&rnp::hash::sha1(blob));
    assert!(rnp::integrity::verify_integrity(blob, None, Some(&sha1)));
    assert!(!rnp::integrity::verify_integrity(blob, None, Some(b"00")));
    assert!(rnp::integrity::verify_integrity(blob, None, None));
}

fn b64(data: &[u8]) -> String {
    const ALPHA: &[u8] = b"ABCDEFGHIJKLMNOPQRSTUVWXYZabcdefghijklmnopqrstuvwxyz0123456789+/";
    let mut out = String::new();
    for chunk in data.chunks(3) {
        let b0 = chunk[0] as u32;
        let b1 = *chunk.get(1).unwrap_or(&0) as u32;
        let b2 = *chunk.get(2).unwrap_or(&0) as u32;
        let n = (b0 << 16) | (b1 << 8) | b2;
        out.push(ALPHA[(n >> 18) as usize & 63] as char);
        out.push(ALPHA[(n >> 12) as usize & 63] as char);
        if chunk.len() > 1 {
            out.push(ALPHA[(n >> 6) as usize & 63] as char);
        } else {
            out.push('=');
        }
        if chunk.len() > 2 {
            out.push(ALPHA[n as usize & 63] as char);
        } else {
            out.push('=');
        }
    }
    out
}

#[test]
fn tarball_entry_paths_strip_one_component() {
    assert_eq!(
        strip_entry_path(b"package/index.js"),
        Some(b"index.js".to_vec())
    );
    assert_eq!(
        strip_entry_path(b"package/lib/util.js"),
        Some(b"lib/util.js".to_vec())
    );
    assert_eq!(strip_entry_path(b"package"), None);
    assert_eq!(strip_entry_path(b"package/../evil"), None);
    assert_eq!(strip_entry_path(b"package//etc/passwd"), None);
    assert_eq!(strip_entry_path(b"package/"), None);
    assert_eq!(strip_entry_path(b"package/lib/"), None);
}

#[test]
fn optional_platform_failure_is_skipped_required_is_fatal() {
    let mut info = PackageInfo::bare(b"native".to_vec(), ver("1.0.0"));
    info.os_constraints = vec![b"darwin".to_vec()];
    let optional = ResolvedPackage { info, depth: 1, optional: true };
    let kept = partition_installable(vec![optional], None, b"linux", b"x64")
        .expect("optional failure completes");
    assert_eq!(kept.len(), 0);

    let mut info = PackageInfo::bare(b"native".to_vec(), ver("1.0.0"));
    info.os_constraints = vec![b"darwin".to_vec()];
    let required = ResolvedPackage { info, depth: 1, optional: false };
    match partition_installable(vec![required], None, b"linux", b"x64") {
        Ok(_) => panic!("required platform failure must be fatal"),
        Err(name) => assert_eq!(name, b"native".to_vec()),
    }
}

#[test]
fn negative_platform_tokens_exclude() {
    let mut info = PackageInfo::bare(b"native".to_vec(), ver("1.0.0"));
    info.os_constraints = vec![b"!linux".to_vec()];
    let required = ResolvedPackage { info, depth: 0, optional: false };
    assert!(partition_installable(vec![required], None, b"linux", b"x64").is_err());
    let mut info = PackageInfo::bare(b"native".to_vec(), ver("1.0.0"));
    info.os_constraints = vec![b"!win32".to_vec()];
    let required = ResolvedPackage { info, depth: 0, optional: false };
    assert!(partition_installable(vec![required], None, b"linux", b"x64").is_ok());
}

#[test]
fn host_tokens_are_canonicalised() {
    let mut info = PackageInfo::bare(b"mac-only".to_vec(), ver("1.0.0"));
    info.os_constraints = vec![b"darwin".to_vec()];
    let required = ResolvedPackage { info, depth: 0, optional: false };
    assert!(partition_installable(vec![required], None, b"macos", b"x86_64").is_ok());
}

#[test]
fn best_version_is_highest_matching() {
    let keys: Vec<Vec<u8>> = vec![
        b"1.0.0".to_vec(),
        b"2.0.0".to_vec(),
        b"1.5.0".to_vec(),
        b"not-a-version".to_vec(),
    ];
    let (idx, v) = find_best_version(&keys, &req("^1.0.0")).expect("a match");
    assert_eq!(idx, 2);
    assert_eq!((v.major, v.minor, v.patch), (1, 5, 0));
    assert!(find_best_version(&keys, &req("^3.0.0")).is_none());
}

fn left_pad_package() -> ResolvedPackage {
    let mut info = PackageInfo::bare(b"left-pad".to_vec(), ver("1.3.0"));
    info.tarball_url = b"https://registry.npmjs.org/left-pad/-/left-pad-1.3.0.tgz".to_vec();
    info.shasum = b"5b8a3a7765dfe001026baefc6f7f85246cb1e25c".to_vec().into();
    info.dependencies = vec![dep("ansi-styles", "^2.0.0")];
    ResolvedPackage { info, depth: 1, optional: false }
}

fn root_meta() -> RootMeta {
    RootMeta {
        name: b"demo".to_vec(),
        version: b"1.0.0".to_vec(),
        dependencies: vec![(b"left-pad".to_vec(), b"^1.3.0".to_vec())],
        workspace_paths: Vec::new(),
    }
}

#[test]
fn lockfile_write_read_write_is_byte_stable() {
    let packages = vec![left_pad_package()];
    let doc = lockfile_doc(&root_meta(), &packages);
    let first = print_json(&doc);
    let data = read_lockfile_doc(&doc).expect("written lockfile reads back");
    assert_eq!(data.packages.len(), 1);
    assert_eq!(data.packages[0].info.name, b"left-pad".to_vec());
    assert_eq!(data.packages[0].depth, 1);
    assert_eq!(
        data.root_dependencies,
        vec![(b"left-pad".to_vec(), b"^1.3.0".to_vec())]
    );
    let doc2 = lockfile_doc(&root_meta(), &data.packages);
    let second = print_json(&doc2);
    assert_eq!(first, second);
}

#[test]
fn lockfile_reproduces_installed_version() {
    let packages = vec![left_pad_package()];
    let doc = lockfile_doc(&root_meta(), &packages);
    let data = read_lockfile_doc(&doc).expect("lockfile reads");
    let v = &data.packages[0].info.version;
    assert_eq!(rnp::version::render_version(v), b"1.3.0".to_vec());
    assert_eq!(
        data.packages[0].info.tarball_url,
        b"https://registry.npmjs.org/left-pad/-/left-pad-1.3.0.tgz".to_vec()
    );
}

#[test]
fn drift_detection_compares_maps() {
    let a = vec![(b"x".to_vec(), b"^1.0.0".to_vec())];
    let same = vec![(b"x".to_vec(), b"^1.0.0".to_vec())];
    let other = vec![(b"x".to_vec(), b"^2.0.0".to_vec())];
    let extra = vec![
        (b"x".to_vec(), b"^1.0.0".to_vec()),
        (b"y".to_vec(), b"*".to_vec()),
    ];
    assert!(dependency_maps_agree(&a, &same));
    assert!(!dependency_maps_agree(&a, &other));
    assert!(!dependency_maps_agree(&a, &extra));
    assert!(!dependency_maps_agree(&extra, &a));
}

#[test]
fn json_pretty_print_is_stable() {
    let doc = Json::Obj(vec![
        (b"name".to_vec(), Json::Str(b"demo".to_vec())),
        (b"count".to_vec(), Json::Num(b"1".to_vec())),
        (b"flags".to_vec(), Json::Arr(vec![Json::Bool(true), Json::Null])),
        (b"empty".to_vec(), Json::Obj(Vec::new())),
    ]);
    let expected = "{\n  \"name\": \"demo\",\n  \"count\": 1,\n  \"flags\": [\n    true,\n    null\n  ],\n  \"empty\": {}\n}";
    assert_eq!(String::from_utf8(print_json(&doc)).unwrap(), expected);
    assert_eq!(print_json(&doc), print_json(&doc));
}

#[test]
fn depth_bands_run_deepest_first() {
    let mk = |name: &str, depth: usize| ResolvedPackage {
        info: PackageInfo::bare(name.as_bytes().to_vec(), ver("1.0.0")),
        depth,
        optional: false,
    };
    let mut resolver_order = vec![mk("root", 0), mk("a", 1), mk("b", 1), mk("c", 2)];
    resolver_order.sort_by_key(|p| p.depth);
    let bands = rnp::layout::depth_bands(resolver_order);
    assert_eq!(bands.len(), 3);
    assert_eq!(bands[0][0].depth, 2);
    assert_eq!(bands[1].len(), 2);
    assert_eq!(bands[1][0].depth, 1);
    assert_eq!(bands[2][0].depth, 0);
}

#[test]
fn lockfile_reader_infers_depth_from_nested_keys() {
    let entry = Json::Obj(vec![(b"version".to_vec(), Json::Str(b"2.0.0".to_vec()))]);
    let doc = Json::Obj(vec![(
        b"packages".to_vec(),
        Json::Obj(vec![(b"node_modules/a/node_modules/b".to_vec(), entry)]),
    )]);
    let data = read_lockfile_doc(&doc).expect("nested keys read");
    assert_eq!(data.packages.len(), 1);
    assert_eq!(data.packages[0].info.name, b"b".to_vec());
    assert_eq!(data.packages[0].depth, 2);
}

#[test]
fn malformed_lockfile_entry_is_rejected() {
    let doc = Json::Obj(vec![(
        b"packages".to_vec(),
        Json::Obj(vec![(
            b"node_modules/a".to_vec(),
            Json::Obj(vec![(b"version".to_vec(), Json::Str(b"not-a-version".to_vec()))]),
        )]),
    )]);
    assert!(read_lockfile_doc(&doc).is_none());
}
