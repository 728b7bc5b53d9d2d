use grit_state::error::StateError;
use grit_state::files::{FileOwner, FilePtr, FileRegistry};

fn owner(name: &str, abs: &str) -> FileOwner {
    FileOwner { name: name.to_string(), absolute_path: abs.to_string() }
}

#[test]
fn push_new_file_assigns_sequential_indices() {
    let mut reg = FileRegistry::new_from_paths(Vec::new());
    let a = reg.push_new_file(owner("a.js", "/src/a.js"));
    let b = reg.push_new_file(owner("b.js", "/src/b.js"));
    let c = reg.push_new_file(owner("c.js", "/src/c.js"));
    assert_eq!(a, FilePtr::new(0, 0));
    assert_eq!(b, FilePtr::new(1, 0));
    assert_eq!(c, FilePtr::new(2, 0));
}

#[test]
fn latest_revision_of_unloaded_file_is_identity() {
    let reg = FileRegistry::new_from_paths(vec!["a.js".to_string()]);
    let ptr = FilePtr::new(0, 0);
    assert_eq!(reg.latest_revision(&ptr), ptr);
    assert!(!reg.is_loaded(&ptr));
}

#[test]
fn latest_revision_after_two_revisions_is_version_one() {
    let mut reg = FileRegistry::new_from_paths(vec!["a.js".to_string()]);
    let ptr = FilePtr::new(0, 0);
    reg.push_revision(&ptr, owner("a.js", "/src/a.js"));
    reg.push_revision(&ptr, owner("a.js", "/src/a.js"));
    assert_eq!(reg.latest_revision(&ptr), FilePtr::new(0, 1));
    assert!(reg.is_loaded(&ptr));
}

#[test]
fn get_file_name_falls_back_to_registered_path() {
    let mut reg = FileRegistry::new_from_paths(vec!["orig.js".to_string()]);
    let ptr = FilePtr::new(0, 0);
    assert_eq!(reg.get_file_name(ptr), "orig.js");
    reg.load_file(&ptr, owner("loaded.js", "/src/loaded.js"));
    assert_eq!(reg.get_file_name(ptr), "loaded.js");
}

#[test]
fn get_absolute_path_before_load_is_an_error() {
    let mut reg = FileRegistry::new_from_paths(vec!["a.js".to_string()]);
    let ptr = FilePtr::new(0, 0);
    let err = reg.get_absolute_path(ptr).unwrap_err();
    assert_eq!(err, StateError::AbsolutePathBeforeLoad);
    assert_eq!(err.message(), "Absolute file path accessed before file was loaded.");
    reg.load_file(&ptr, owner("a.js", "/abs/a.js"));
    assert_eq!(reg.get_absolute_path(ptr).unwrap(), "/abs/a.js");
}

#[test]
fn get_file_owner_returns_the_exact_version() {
    let mut reg = FileRegistry::new_from_paths(Vec::new());
    let ptr = reg.push_new_file(owner("a.js", "/v0/a.js"));
    reg.push_revision(&ptr, owner("a.js", "/v1/a.js"));
    assert_eq!(reg.get_file_owner(FilePtr::new(0, 0)).absolute_path, "/v0/a.js");
    assert_eq!(reg.get_file_owner(FilePtr::new(0, 1)).absolute_path, "/v1/a.js");
    assert_eq!(reg.files().len(), 1);
    assert_eq!(reg.files()[0].len(), 2);
}
