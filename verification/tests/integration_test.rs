use std::path::Path;

use git2::{Commit, Oid, Repository, Signature};
use tempfile::TempDir;

use minver_rs::{get_version, MinverConfig, Version};

fn create_temp_repo(path: &Path) -> Repository {
    let repo = Repository::init(path).unwrap();

    {
        let mut index = repo.index().unwrap();
        let tree_id = index.write_tree().unwrap();
        let tree = repo.find_tree(tree_id).unwrap();

        let signature = Signature::now("testName", "test@example.com").unwrap();
        repo.commit(Some("HEAD"), &signature, &signature, "message", &tree, &[])
            .unwrap();
    }

    repo
}

fn get_head(repo: &Repository) -> Commit<'_> {
    repo.head().unwrap().peel_to_commit().unwrap()
}

fn merge_commit<'a>(repo: &'a Repository, parents: &[&Commit], message: &str) -> Commit<'a> {
    let signature = Signature::now("testName", "test@example.com").unwrap();
    let commit_id = repo
        .commit(
            Some("HEAD"),
            &signature,
            &signature,
            message,
            &parents[0].tree().unwrap(),
            parents,
        )
        .unwrap();
    repo.find_commit(commit_id).unwrap()
}

fn commit_with_parent<'a>(repo: &'a Repository, commit: &Commit, message: &str) -> Commit<'a> {
    merge_commit(repo, &[commit], message)
}

fn commit_on_head<'a>(repo: &'a Repository, message: &str) -> Commit<'a> {
    let head_commit = get_head(repo);
    commit_with_parent(repo, &head_commit, message)
}

fn tag_commit(repo: &Repository, commit: &Commit, tag: &str) -> Oid {
    let signature = Signature::now("testName", "test@example.com").unwrap();
    repo.tag(tag, commit.as_object(), &signature, "message", false)
        .unwrap()
}

fn tag_head(repo: &Repository, tag: &str) -> Oid {
    let head_commit = get_head(repo);
    tag_commit(repo, &head_commit, tag)
}

fn checkout_commit(repo: &Repository, commit: &Commit) {
    repo.set_head_detached(commit.id()).unwrap();
}

#[test]
fn test_tagged_head_returns_tag_version() {
    let dir = TempDir::new().unwrap();
    let repo = create_temp_repo(dir.path());

    commit_on_head(&repo, "m");
    tag_head(&repo, "1.2.3");

    assert_eq!(
        Version {
            major: 1,
            minor: 2,
            patch: 3,
            prerelease: None,
            build_metadata: None
        },
        get_version(&repo, &MinverConfig::default()).unwrap()
    );
}

#[test]
fn test_height_is_appended_to_version() {
    let dir = TempDir::new().unwrap();
    let repo = create_temp_repo(dir.path());

    commit_on_head(&repo, "m1");
    tag_head(&repo, "1.2.3");
    commit_on_head(&repo, "m2");

    assert_eq!(
        Version {
            major: 1,
            minor: 2,
            patch: 4,
            prerelease: Some(String::from("alpha.1")),
            build_metadata: None
        },
        get_version(&repo, &MinverConfig::default()).unwrap()
    );
}

#[test]
fn test_when_no_tags_are_present_in_ancestors_then_default_version_is_returned() {
    let dir = TempDir::new().unwrap();
    let repo = create_temp_repo(dir.path());

    commit_on_head(&repo, "m1");
    commit_on_head(&repo, "m2");

    assert_eq!(
        Version {
            major: 0,
            minor: 0,
            patch: 0,
            prerelease: Some(String::from("alpha.0")),
            build_metadata: None
        },
        get_version(&repo, &MinverConfig::default()).unwrap()
    );
}

#[test]
fn test_when_repo_access_fails_then_error_is_returned() {
    let dir = TempDir::new().unwrap();
    let repo = create_temp_repo(dir.path());

    commit_on_head(&repo, "m1");
    commit_on_head(&repo, "m2");

    dir.close().unwrap();

    let err = get_version(&repo, &MinverConfig::default()).err();
    assert!(err.is_some());
}

#[test]
fn test_when_lower_tag_is_more_recent_then_older_version_is_returned() {
    let dir = TempDir::new().unwrap();
    let repo = create_temp_repo(dir.path());

    commit_on_head(&repo, "m1");
    tag_head(&repo, "2.0.0");
    commit_on_head(&repo, "m2");
    tag_head(&repo, "1.2.3");

    assert_eq!(
        Version {
            major: 1,
            minor: 2,
            patch: 3,
            prerelease: None,
            build_metadata: None
        },
        get_version(&repo, &MinverConfig::default()).unwrap()
    );
}

#[test]
fn test_when_old_commit_is_checked_out_then_newer_tags_are_ignored() {
    let dir = TempDir::new().unwrap();
    let repo = create_temp_repo(dir.path());

    commit_on_head(&repo, "m1");
    tag_head(&repo, "1.2.3");
    let intermediate_commit = commit_on_head(&repo, "m2");
    commit_on_head(&repo, "m3");
    tag_head(&repo, "1.3.0");

    checkout_commit(&repo, &intermediate_commit);

    assert_eq!(
        Version {
            major: 1,
            minor: 2,
            patch: 4,
            prerelease: Some(String::from("alpha.1")),
            build_metadata: None
        },
        get_version(&repo, &MinverConfig::default()).unwrap()
    );
}

#[test]
fn test_when_branches_diverge_with_multiple_tags_then_higher_tag_is_used() {
    let dir = TempDir::new().unwrap();
    let repo = create_temp_repo(dir.path());

    let commit_1 = commit_on_head(&repo, "c1");

    let branch_1_commit_1 = commit_with_parent(&repo, &commit_1, "b1c1");
    tag_commit(&repo, &branch_1_commit_1, "1.3.0");
    let branch_1_commit_2 = commit_with_parent(&repo, &branch_1_commit_1, "b1c2");

    checkout_commit(&repo, &commit_1);
    let branch_2_commit_1 = commit_with_parent(&repo, &commit_1, "b2c1");
    tag_commit(&repo, &branch_2_commit_1, "1.2.3");

    merge_commit(&repo, &[&branch_2_commit_1, &branch_1_commit_2], "m");

    assert_eq!(
        Version {
            major: 1,
            minor: 3,
            patch: 1,
            prerelease: Some(String::from("alpha.2")),
            build_metadata: None
        },
        get_version(&repo, &MinverConfig::default()).unwrap()
    );
}

#[test]
fn test_when_branches_merge_with_same_tagged_parent_then_lower_height_is_used() {
    let dir = TempDir::new().unwrap();
    let repo = create_temp_repo(dir.path());

    let commit_1 = commit_on_head(&repo, "c1");
    tag_commit(&repo, &commit_1, "1.2.3");

    let branch_1_commit_1 = commit_with_parent(&repo, &commit_1, "b1c1");
    let branch_1_commit_2 = commit_with_parent(&repo, &branch_1_commit_1, "b1c2");

    checkout_commit(&repo, &commit_1);
    let branch_2_commit_1 = commit_with_parent(&repo, &commit_1, "b2c1");

    checkout_commit(&repo, &branch_1_commit_2);
    merge_commit(&repo, &[&branch_1_commit_2, &branch_2_commit_1], "m");

    assert_eq!(
        Version {
            major: 1,
            minor: 2,
            patch: 4,
            prerelease: Some(String::from("alpha.2")),
            build_metadata: None
        },
        get_version(&repo, &MinverConfig::default()).unwrap()
    );
}

#[test]
fn test_when_merged_branch_has_lower_version_tag_then_main_branch_version_is_returned() {
    let dir = TempDir::new().unwrap();
    let repo = create_temp_repo(dir.path());

    let commit_1 = commit_on_head(&repo, "c1");
    tag_commit(&repo, &commit_1, "1.3.0");

    let branch_1_commit_1 = commit_with_parent(&repo, &commit_1, "b1c1");
    let branch_1_commit_2 = commit_with_parent(&repo, &branch_1_commit_1, "b1c2");

    checkout_commit(&repo, &commit_1);
    let branch_2_commit_1 = commit_with_parent(&repo, &commit_1, "b2c1");
    tag_commit(&repo, &commit_1, "1.2.3");

    checkout_commit(&repo, &branch_1_commit_2);
    merge_commit(&repo, &[&branch_1_commit_2, &branch_2_commit_1], "m");

    assert_eq!(
        Version {
            major: 1,
            minor: 3,
            patch: 1,
            prerelease: Some(String::from("alpha.2")),
            build_metadata: None
        },
        get_version(&repo, &MinverConfig::default()).unwrap()
    );
}

#[test]
fn test_when_build_metadata_is_present_in_tagged_head_then_metadata_is_included_in_version() {
    let dir = TempDir::new().unwrap();
    let repo = create_temp_repo(dir.path());

    commit_on_head(&repo, "m");
    tag_head(&repo, "1.2.3+a1b2c3");

    assert_eq!(
        Version {
            major: 1,
            minor: 2,
            patch: 3,
            prerelease: None,
            build_metadata: Some(String::from("a1b2c3"))
        },
        get_version(&repo, &MinverConfig::default()).unwrap()
    );
}

#[test]
fn test_when_build_metadata_is_present_in_old_tag_then_metadata_is_ignored() {
    let dir = TempDir::new().unwrap();
    let repo = create_temp_repo(dir.path());

    commit_on_head(&repo, "m1");
    tag_head(&repo, "1.2.3+a1b2c3");
    commit_on_head(&repo, "m2");

    assert_eq!(
        Version {
            major: 1,
            minor: 2,
            patch: 4,
            prerelease: Some(String::from("alpha.1")),
            build_metadata: None
        },
        get_version(&repo, &MinverConfig::default()).unwrap()
    );
}

#[test]
fn test_tag_prefix_filters_tags() {
    let dir = TempDir::new().unwrap();
    let repo = create_temp_repo(dir.path());

    commit_on_head(&repo, "m");
    tag_head(&repo, "v1.2.3");
    tag_head(&repo, "2.0.0");

    let config = MinverConfig {
        tag_prefix: String::from("v"),
        ..MinverConfig::default()
    };

    // under the "v" prefix, only "v1.2.3" counts; the bare "2.0.0" is ignored
    assert_eq!(
        Version {
            major: 1,
            minor: 2,
            patch: 3,
            prerelease: None,
            build_metadata: None
        },
        get_version(&repo, &config).unwrap()
    );
}

#[test]
fn test_configured_build_metadata_is_appended() {
    let dir = TempDir::new().unwrap();
    let repo = create_temp_repo(dir.path());

    commit_on_head(&repo, "m");
    tag_head(&repo, "1.2.3+a1b2c3");

    let config = MinverConfig {
        build_metadata: Some(String::from("d4e5f6")),
        ..MinverConfig::default()
    };

    let version = get_version(&repo, &config).unwrap();
    assert_eq!("1.2.3+a1b2c3.d4e5f6", version.render());
}

#[test]
fn test_highest_precedence_tag_on_one_commit_wins() {
    let dir = TempDir::new().unwrap();
    let repo = create_temp_repo(dir.path());

    commit_on_head(&repo, "m");
    tag_head(&repo, "1.0.0");
    tag_head(&repo, "1.1.0");
    tag_head(&repo, "1.0.5");

    assert_eq!(
        Version {
            major: 1,
            minor: 1,
            patch: 0,
            prerelease: None,
            build_metadata: None
        },
        get_version(&repo, &MinverConfig::default()).unwrap()
    );
}
