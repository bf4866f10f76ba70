use git_remote_base::file::FileBackedCommandHandler;
use git_remote_base::repo::{reference_value, ReferenceError, Repository};

#[test]
fn loose_object_path_splits_the_hash() {
    let repo = Repository::new("/srv/repo/.git".to_string());
    assert_eq!(
        repo.loose_object_path("e86ea53b653d62bfb5332a04877c563237ea69aa"),
        "/srv/repo/.git/objects/e8/6ea53b653d62bfb5332a04877c563237ea69aa"
    );
    assert_eq!(repo.loose_object_path("ab"), "/srv/repo/.git/objects/ab/");
}

#[test]
fn pack_paths() {
    let repo = Repository::new("root".to_string());
    assert_eq!(repo.pack_directory(), "root/objects/pack");
    assert_eq!(repo.pack_file_path("pack-1.idx"), "root/objects/pack/pack-1.idx");
    assert_eq!(repo.path(), "root");
}

#[test]
fn reference_names_must_be_under_refs() {
    let repo = Repository::new("root".to_string());
    assert_eq!(repo.reference_path("not-a-ref").err(), Some(ReferenceError::InvalidName));
    assert_eq!(repo.reference_path("refs").err(), Some(ReferenceError::InvalidName));
    assert_eq!(repo.reference_path("HEAD").err(), Some(ReferenceError::InvalidName));
    assert_eq!(repo.reference_path("refs/heads/x").unwrap(), "root/refs/heads/x");
}

#[test]
fn reference_value_is_the_trimmed_first_line() {
    let hash = "69c3f5e740fd83a1e5d08f05055b3c4c1c98040d";
    assert_eq!(reference_value(hash), hash);
    assert_eq!(reference_value(&format!("{}\n", hash)), hash);
    assert_eq!(reference_value(&format!("{}\r\n", hash)), hash);
    assert_eq!(reference_value(&format!("{} \t\nsecond line\n", hash)), hash);
    assert_eq!(reference_value("ref: refs/heads/main\n"), "ref: refs/heads/main");
    assert_eq!(reference_value(""), "");
    assert_eq!(reference_value("\nlater"), "");
    assert_eq!(reference_value("  x\u{3000}"), "  x");
}

#[test]
fn head_reference_only_when_cloning() {
    let mut handler = FileBackedCommandHandler::new("remote".to_string(), "local".to_string());
    assert!(handler.head_reference("origin").is_none());
    handler.set_option("cloning", "false");
    assert!(handler.head_reference("origin").is_none());
    handler.set_option("cloning", "true");
    let (name, target) = handler.head_reference("origin").unwrap();
    assert_eq!(name, "refs/remotes/origin/HEAD");
    assert_eq!(target, "ref: refs/remotes/origin/master");
}

#[test]
fn file_handler_paths() {
    let handler = FileBackedCommandHandler::new("remote/.git".to_string(), "local/.git".to_string());
    assert_eq!(
        handler.remote_loose_object_path("45115f4b2a86b84dc323cbba9e53017f57dc8dc1"),
        "remote/.git/objects/45/115f4b2a86b84dc323cbba9e53017f57dc8dc1"
    );
    assert_eq!(handler.local().pack_directory(), "local/.git/objects/pack");
    assert_eq!(handler.remote().path(), "remote/.git");
}
