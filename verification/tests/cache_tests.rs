use focus_internals::cachekeys::{export_path, export_url, manifest_path, manifest_url};
use focus_internals::cachekeys::import_receipt_key;
use focus_internals::cachekeys::project_shard;
use focus_internals::digest::build_graph_digest;
use focus_internals::cachekeys::{
    check_local_endpoint_scheme, DatabaseCacheBackendError, Key, NamespacedKey, RepoIdentifier,
};

#[test]
fn test_repository_identifier_from_url() {
    assert_eq!(
        RepoIdentifier::try_from("https://github.com/twitter/focus").unwrap(),
        RepoIdentifier {
            host: String::from("github.com"),
            name: String::from("twitter/focus"),
        }
    );

    assert_eq!(
        RepoIdentifier::try_from("https://github.com/twitter/focus.git").unwrap(),
        RepoIdentifier {
            host: String::from("github.com"),
            name: String::from("twitter/focus"),
        }
    );

    assert_eq!(
        RepoIdentifier::try_from("https://github.com/twitter/focus.git").unwrap(),
        RepoIdentifier {
            host: String::from("github.com"),
            name: String::from("twitter/focus"),
        }
    );

    assert_eq!(
        RepoIdentifier::try_from("file:///home/alice/code/focus.git").unwrap(),
        RepoIdentifier {
            host: String::from("localhost"),
            name: String::from("home/alice/code/focus"),
        }
    );
}

#[test]
fn unparsable_urls_are_refused() {
    assert!(RepoIdentifier::try_from("not a url").is_err());
}

#[test]
fn identifiers_from_parts() {
    let id = RepoIdentifier::from_url_parts("ssh", None, "/x/y.git");
    assert_eq!(id.host, "unknown");
    assert_eq!(id.name, "x/y");
    let id = RepoIdentifier::from_url_parts("file", None, "repo");
    assert_eq!(id.host, "localhost");
    assert_eq!(id.name, "repo");
    assert_eq!(id.to_string(), "localhost/repo");
}

#[test]
fn key_texts_use_lower_case_hex() {
    let k = Key::CommitToBuildGraphHash { commit_id: vec![0x00, 0xab, 0x10, 0xff] };
    assert_eq!(k.to_string(), "commit-to-build-graph-hash:commit=00ab10ff");
    let k = Key::OptionalProjectPatternSet { build_graph_hash: vec![1, 2], project_name: "p".into() };
    assert_eq!(k.to_string(), "optional-project-pattern-set:build-graph-hash=0102:project=p");
    let k = Key::MandatoryProjectPatternSet { build_graph_hash: vec![] };
    assert_eq!(k.to_string(), "mandatory-project-pattern-set:build-graph-hash=");
    let k = Key::ImportReceipt { build_graph_hash: vec![0x0f] };
    assert_eq!(k.to_string(), "import-reciept:build-graph-hash=0f");
}

#[test]
fn namespaced_keys() {
    let key = NamespacedKey {
        repository: RepoIdentifier { host: "github.com".into(), name: "twitter/focus".into() },
        underlying: Key::ImportReceipt { build_graph_hash: vec![0xde, 0xad] },
        version: 1,
    };
    assert_eq!(key.to_key_string(), "github.com/twitter/focus;import-reciept:build-graph-hash=dead;V1");
}

#[test]
fn local_backends_need_file_endpoints() {
    assert!(check_local_endpoint_scheme("file").is_ok());
    assert!(check_local_endpoint_scheme("FILE").is_ok());
    assert_eq!(
        check_local_endpoint_scheme("https"),
        Err(DatabaseCacheBackendError::InappropriateScheme)
    );
    assert_eq!(
        DatabaseCacheBackendError::InappropriateScheme.to_string(),
        "Local cache backend requires a 'file' scheme in the endpoint URL"
    );
}

#[test]
fn export_paths_and_urls() {
    let hash = vec![0xab, 0x01];
    assert_eq!(manifest_path("/cache", &hash), "/cache/ab01.manifest_v1.json");
    assert_eq!(export_path("/cache", &hash, 0, 3), "/cache/ab01_1_3.export_v1.json");
    assert_eq!(
        manifest_url("https://example.com/cache", &hash).unwrap(),
        "https://example.com/cache/ab01.manifest_v1.json"
    );
    assert_eq!(
        export_url("file:///tmp/c", &hash, 2, 3).unwrap(),
        "file:///tmp/c/ab01_3_3.export_v1.json"
    );
    assert!(manifest_url("not a url", &hash).is_err());
}

#[test]
fn receipt_keys_name_the_build_graph() {
    let id = RepoIdentifier { host: "github.com".into(), name: "twitter/focus".into() };
    let key = import_receipt_key(&id, &vec![0x0f]);
    assert_eq!(key.to_key_string(), "github.com/twitter/focus;import-reciept:build-graph-hash=0f;V1");
}

#[test]
fn shards_cut_names_into_runs() {
    let names: Vec<String> = ["a", "b", "c", "d", "e", "f", "g"].iter().map(|s| s.to_string()).collect();
    // Seven names over three generators: runs of two, and a last run of one.
    assert_eq!(project_shard(&names, 0, 3), Some(vec!["a".to_string(), "b".to_string()]));
    assert_eq!(project_shard(&names, 2, 3), Some(vec!["e".to_string(), "f".to_string()]));
    assert_eq!(project_shard(&names, 3, 3), Some(vec!["g".to_string()]));
    assert_eq!(project_shard(&names, 4, 3), None);
    assert_eq!(project_shard(&names, 0, 7), Some(vec!["a".to_string()]));
}

#[test]
fn build_graph_digest_hashes_walked_build_files() {
    let entries = vec![
        (b"a".to_vec(), b"BUILD".to_vec(), vec![1u8, 2]),
        (Vec::new(), b"WORKSPACE".to_vec(), vec![3u8]),
    ];
    let h: String = build_graph_digest(&entries).iter().map(|b| format!("{:02x}", b)).collect();
    assert_eq!(h, "aea81754e3d0575d2f1592488a9af50ac2e6e42446dbdb18cb1c5d30a3369f59");
    let empty: String = build_graph_digest(&vec![]).iter().map(|b| format!("{:02x}", b)).collect();
    assert_eq!(empty, "e3b0c44298fc1c149afbf4c8996fb92427ae41e4649b934ca495991b7852b855");
}

#[test]
fn shards_together_hold_every_name_once() {
    let names: Vec<String> = (0..7).map(|i| format!("p{}", i)).collect();
    let mut all: Vec<String> = Vec::new();
    let mut index = 0;
    while let Some(shard) = project_shard(&names, index, 3) {
        all.extend(shard);
        index += 1;
    }
    assert_eq!(index, 4);
    assert_eq!(all, names);
}
