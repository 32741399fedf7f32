use slackbase::script::{script_sha, ScriptManager};
use slackbase::types::Error;

#[test]
fn script_sha_is_the_hex_sha1_of_the_source() {
    assert_eq!(script_sha("return 1"), "e0e1f9fabfc9d4800c877a703b823ac0578ff8db");
    assert_eq!(script_sha(""), "da39a3ee5e6b4b0d3255bfef95601890afd80709");
}

#[test]
fn register_files_a_script_under_its_sha() {
    let mut scripts = ScriptManager::new();
    let sha = scripts.eval_register("return 1", Some("one"), Some("gives one")).unwrap();
    assert_eq!(sha, "e0e1f9fabfc9d4800c877a703b823ac0578ff8db");
    let meta = scripts.eval_sha(&sha).unwrap();
    assert_eq!(meta.name, "one");
    assert_eq!(meta.sha1, sha);
    assert_eq!(meta.desc, Some("gives one".to_string()));
}

#[test]
fn register_without_name_uses_the_sha_as_name() {
    let mut scripts = ScriptManager::new();
    let sha = scripts.eval_register("", None, None).unwrap();
    let meta = scripts.eval_sha(&sha).unwrap();
    assert_eq!(meta.name, sha);
    assert_eq!(meta.desc, None);
}

#[test]
fn resolve_by_sha_or_by_name() {
    let mut scripts = ScriptManager::new();
    let sha = scripts.eval_register("return 1", Some("one"), None).unwrap();
    assert_eq!(scripts.eval_by_name_or_sha(&sha), Ok(sha.clone()));
    assert_eq!(scripts.eval_by_name_or_sha("one"), Ok(sha));
    assert_eq!(scripts.eval_by_name_or_sha("two"), Err(Error::NotFound));
    assert!(matches!(scripts.eval_sha("two"), Err(Error::NotFound)));
}

#[test]
fn register_again_replaces_what_is_known() {
    let mut scripts = ScriptManager::new();
    scripts.eval_register("return 1", Some("one"), None).unwrap();
    let sha = scripts.eval_register("return 1", Some("uno"), Some("again")).unwrap();
    assert_eq!(scripts.list_scripts().len(), 1);
    assert_eq!(scripts.eval_sha(&sha).unwrap().name, "uno");
    assert_eq!(scripts.eval_by_name_or_sha("one"), Ok(sha.clone()));
    assert_eq!(scripts.eval_by_name_or_sha("uno"), Ok(sha));
}

#[test]
fn list_scripts_in_order_of_registration() {
    let mut scripts = ScriptManager::new();
    scripts.eval_register("return 1", Some("one"), None).unwrap();
    scripts.eval_register("return 2", Some("two"), None).unwrap();
    let names: Vec<String> = scripts.list_scripts().into_iter().map(|m| m.name).collect();
    assert_eq!(names, vec!["one".to_string(), "two".to_string()]);
}

#[test]
fn rename_moves_the_name() {
    let mut scripts = ScriptManager::new();
    let sha = scripts.eval_register("return 1", Some("one"), None).unwrap();
    assert_eq!(scripts.rename_script("one", "uno"), Ok(()));
    assert_eq!(scripts.eval_by_name_or_sha("one"), Err(Error::NotFound));
    assert_eq!(scripts.eval_by_name_or_sha("uno"), Ok(sha.clone()));
    assert_eq!(scripts.eval_sha(&sha).unwrap().name, "uno");
    assert_eq!(scripts.rename_script("one", "eins"), Err(Error::NotFound));
}

#[test]
fn remove_by_name_or_by_sha() {
    let mut scripts = ScriptManager::new();
    let one = scripts.eval_register("return 1", Some("one"), None).unwrap();
    let two = scripts.eval_register("return 2", Some("two"), None).unwrap();
    assert_eq!(scripts.remove_script("one"), Ok(()));
    assert!(matches!(scripts.eval_sha(&one), Err(Error::NotFound)));
    assert_eq!(scripts.eval_by_name_or_sha("one"), Err(Error::NotFound));
    assert_eq!(scripts.remove_script(&two), Ok(()));
    assert!(scripts.list_scripts().is_empty());
    assert_eq!(scripts.eval_by_name_or_sha("two"), Ok(two));
    assert_eq!(scripts.remove_script("three"), Err(Error::NotFound));
}
