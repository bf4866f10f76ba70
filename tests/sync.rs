use git_remote_base::repo::Repository;
use git_remote_base::sync::{
    find_objects_to_push, walk_objects, FilesToPush, LooseObject, LooseObjectList, ObjectSet,
    Outcome, Traversal,
};
use std::collections::HashSet;

fn remote(objects: &[&str], packs: &[&str]) -> ObjectSet {
    ObjectSet {
        objects: objects.iter().map(|s| s.to_string()).collect(),
        packs: packs.iter().map(|s| s.to_string()).collect(),
    }
}

fn loose(hash: &str, references: &[&str]) -> LooseObject {
    LooseObject {
        hash: hash.to_string(),
        references: references.iter().map(|s| s.to_string()).collect(),
    }
}

/// A commit whose tree holds a blob and a second tree, and the second tree
/// points back at the first: a cycle.
fn cyclic_store() -> LooseObjectList {
    LooseObjectList {
        objects: vec![
            loose("c1", &["t1", "c0"]),
            loose("c0", &["t1"]),
            loose("t1", &["b1", "t2"]),
            loose("t2", &["t1", "b1"]),
            loose("b1", &[]),
        ],
    }
}

#[test]
fn walk_visits_each_hash_once_through_a_cycle() {
    let visits = walk_objects(&cyclic_store(), "c1", &remote(&[], &[]));
    let hashes: Vec<&str> = visits.iter().map(|v| v.hash.as_str()).collect();
    assert_eq!(hashes.len(), 5);
    let unique: HashSet<&str> = hashes.iter().cloned().collect();
    assert_eq!(unique.len(), 5);
    assert_eq!(hashes[0], "c1");
    assert!(visits.iter().all(|v| v.outcome == Outcome::Copied));
    // The stack is last in, first out: the last reference is looked at first.
    assert_eq!(hashes, vec!["c1", "c0", "t1", "t2", "b1"]);
}

#[test]
fn walk_stops_at_objects_the_remote_holds() {
    let visits = walk_objects(&cyclic_store(), "c1", &remote(&["c0", "t1"], &[]));
    let seen: Vec<(&str, Outcome)> = visits.iter().map(|v| (v.hash.as_str(), v.outcome)).collect();
    assert_eq!(
        seen,
        vec![("c1", Outcome::Copied), ("c0", Outcome::AlreadyPresent), ("t1", Outcome::AlreadyPresent)]
    );
}

#[test]
fn walk_marks_objects_in_packs() {
    let objects = LooseObjectList { objects: vec![loose("c1", &["t1", "p0"]), loose("t1", &[])] };
    let visits = walk_objects(&objects, "c1", &remote(&[], &[]));
    let seen: Vec<(&str, Outcome)> = visits.iter().map(|v| (v.hash.as_str(), v.outcome)).collect();
    assert_eq!(
        seen,
        vec![("c1", Outcome::Copied), ("p0", Outcome::NotLoose), ("t1", Outcome::Copied)]
    );
}

#[test]
fn walk_of_a_start_the_remote_holds() {
    let visits = walk_objects(&cyclic_store(), "c1", &remote(&["c1"], &[]));
    assert_eq!(visits.len(), 1);
    assert_eq!(visits[0].outcome, Outcome::AlreadyPresent);
    let source = Repository::new("src".to_string());
    let packs = vec!["pack-a.pack".to_string()];
    let files = find_objects_to_push(&source, &cyclic_store(), &packs, "c1", &remote(&["c1"], &[]));
    assert!(files.is_empty());
}

#[test]
fn find_objects_to_push_lists_loose_files_then_packs() {
    let source = Repository::new("src".to_string());
    let objects =
        LooseObjectList { objects: vec![loose("c1aa", &["t1aa", "p0aa"]), loose("t1aa", &[])] };
    let packs = vec!["pack-a.pack".to_string(), "pack-b.pack".to_string()];
    let files = find_objects_to_push(&source, &objects, &packs, "c1aa", &remote(&[], &["pack-a.pack"]));
    assert_eq!(files.len(), 3);
    match &files[0] {
        FilesToPush::LooseObject { hash, path } => {
            assert_eq!(hash, "c1aa");
            assert_eq!(path, "src/objects/c1/aa");
        }
        _ => panic!("expected a loose object"),
    }
    match &files[1] {
        FilesToPush::LooseObject { hash, path } => {
            assert_eq!(hash, "t1aa");
            assert_eq!(path, "src/objects/t1/aa");
        }
        _ => panic!("expected a loose object"),
    }
    match &files[2] {
        FilesToPush::PackFile { path } => assert_eq!(path, "src/objects/pack/pack-b.pack"),
        _ => panic!("expected a pack file"),
    }
}

#[test]
fn find_objects_to_push_without_packs() {
    let source = Repository::new("src".to_string());
    let packs = vec!["pack-a.pack".to_string()];
    let files = find_objects_to_push(&source, &cyclic_store(), &packs, "c1", &remote(&["b1"], &[]));
    let hashes: Vec<String> = files
        .iter()
        .map(|f| match f {
            FilesToPush::LooseObject { hash, .. } => hash.clone(),
            FilesToPush::PackFile { .. } => panic!("no pack is needed"),
        })
        .collect();
    assert_eq!(hashes, vec!["c1", "c0", "t1", "t2"]);
}

#[test]
fn traversal_steps() {
    let mut walk = Traversal::new("a");
    assert_eq!(walk.next_hash(), Some("a".to_string()));
    walk.visit("a".to_string(), false, Some(vec!["b".to_string(), "a".to_string(), "c".to_string()]));
    assert_eq!(walk.next_hash(), Some("c".to_string()));
    // At the destination: the references handed in are not followed.
    walk.visit("c".to_string(), true, Some(vec!["d".to_string()]));
    // "a" was visited already, so it is skipped.
    assert_eq!(walk.next_hash(), Some("b".to_string()));
    walk.visit("b".to_string(), false, None);
    assert!(walk.needs_packs());
    assert_eq!(walk.next_hash(), None);
    // A second visit of the same hash changes nothing.
    walk.visit("b".to_string(), false, Some(vec!["e".to_string()]));
    assert_eq!(walk.next_hash(), None);
    let visits = walk.into_visits();
    let seen: Vec<(&str, Outcome)> = visits.iter().map(|v| (v.hash.as_str(), v.outcome)).collect();
    assert_eq!(
        seen,
        vec![("a", Outcome::Copied), ("c", Outcome::AlreadyPresent), ("b", Outcome::NotLoose)]
    );
}

#[test]
fn short_hash_still_has_a_loose_path() {
    let repo = Repository::new("r".to_string());
    assert_eq!(repo.loose_object_path("a"), "r/objects/a/");
    assert_eq!(repo.loose_object_path(""), "r/objects//");
}
