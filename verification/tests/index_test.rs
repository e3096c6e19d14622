use minver_rs::minver_core::resolve;
use minver_rs::tag_index::build_index;
use minver_rs::walker::{collect_candidates, CommitGraph};
use minver_rs::{MinverConfig, Version};

fn single_commit_graph(id: &str) -> CommitGraph {
    CommitGraph {
        entries: vec![(String::from(id), vec![])],
    }
}

#[test]
fn test_build_index_applies_prefix_filter() {
    let config = MinverConfig {
        tag_prefix: String::from("v"),
        ..MinverConfig::default()
    };
    let pairs = vec![
        (String::from("v1.2.3"), String::from("c1")),
        // lacks the prefix: not a version tag under this configuration
        (String::from("2.0.0"), String::from("c1")),
        // carries the prefix but the remainder fails the grammar
        (String::from("vnot-a-version"), String::from("c1")),
    ];
    let index = build_index(&pairs, &config);
    let graph = single_commit_graph("c1");
    let candidates = collect_candidates(&graph, &index, &String::from("c1")).unwrap();
    let version = resolve(&candidates, &config).unwrap();
    assert_eq!("1.2.3", version.render());
}

#[test]
fn test_build_index_without_prefix_ignores_prefixed_tags() {
    let config = MinverConfig::default();
    let pairs = vec![(String::from("v1.2.3"), String::from("c1"))];
    let index = build_index(&pairs, &config);
    let graph = single_commit_graph("c1");
    let candidates = collect_candidates(&graph, &index, &String::from("c1")).unwrap();
    // "v1.2.3" does not parse, so nothing is indexed and the default wins
    let version = resolve(&candidates, &config).unwrap();
    assert_eq!("0.0.0-alpha.0", version.render());
}

#[test]
fn test_build_index_keeps_highest_precedence_per_commit() {
    let config = MinverConfig::default();
    let pairs = vec![
        (String::from("1.0.0"), String::from("c1")),
        (String::from("1.1.0"), String::from("c1")),
        (String::from("1.0.5"), String::from("c1")),
    ];
    let index = build_index(&pairs, &config);
    let graph = single_commit_graph("c1");
    let candidates = collect_candidates(&graph, &index, &String::from("c1")).unwrap();
    let version = resolve(&candidates, &config).unwrap();
    assert_eq!("1.1.0", version.render());
}

#[test]
fn test_build_index_skips_malformed_tags_without_affecting_others() {
    let config = MinverConfig::default();
    let good_only = vec![(String::from("1.2.3"), String::from("c1"))];
    let with_bad = vec![
        (String::from("oops"), String::from("c2")),
        (String::from("1.2.3"), String::from("c1")),
        (String::from("also..bad"), String::from("c1")),
    ];
    let graph = CommitGraph {
        entries: vec![
            (String::from("c2"), vec![String::from("c1")]),
            (String::from("c1"), vec![]),
        ],
    };
    let head = String::from("c2");
    let from_good = resolve(
        &collect_candidates(&graph, &build_index(&good_only, &config), &head).unwrap(),
        &config,
    )
    .unwrap();
    let from_mixed = resolve(
        &collect_candidates(&graph, &build_index(&with_bad, &config), &head).unwrap(),
        &config,
    )
    .unwrap();
    assert_eq!(from_good, from_mixed);
    assert_eq!("1.2.4-alpha.1", from_mixed.render());
}
