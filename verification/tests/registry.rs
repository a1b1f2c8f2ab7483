use workspace::record::Commands;
use workspace::record::Workspace;
use workspace::registry::Lookup;
use workspace::registry::OpError;
use workspace::registry::RegEntry;
use workspace::registry::Registry;
use workspace::{encode, Error};

fn record(path: &str) -> Workspace {
    Workspace {
        path: path.to_string(),
        tabs: Vec::new(),
        commands: Commands { local: Vec::new(), external: Vec::new(), background: Vec::new() },
    }
}

fn record_file(stem: &str, content: &str) -> RegEntry {
    RegEntry {
        stem: Some(stem.to_string()),
        ext: Some("toml".to_string()),
        is_file: true,
        content: Some(content.to_string()),
    }
}

#[test]
fn registry_isolation_one_bad_file_hides_nothing() {
    let mut reg = Registry::new();
    assert!(reg.push_entry(record_file("a", &encode(&record("/a")))));
    assert!(reg.push_entry(record_file("b", "this is no record at all!!")));
    let rows = Workspace::all(&reg);
    assert_eq!(rows.len(), 2);
    assert_eq!(rows[0].name.as_deref(), Some("a"));
    assert!(rows[0].loaded.is_ok());
    assert_eq!(rows[1].name.as_deref(), Some("b"));
    assert!(rows[1].loaded.is_err());
}

#[test]
fn extension_filtering_skips_foreign_entries() {
    let mut reg = Registry::new();
    assert!(reg.push_entry(RegEntry {
        stem: Some("notes".to_string()),
        ext: Some("txt".to_string()),
        is_file: true,
        content: Some("whatever".to_string()),
    }));
    assert!(reg.push_entry(RegEntry {
        stem: Some("subdir".to_string()),
        ext: Some("toml".to_string()),
        is_file: false,
        content: None,
    }));
    assert!(reg.push_entry(RegEntry {
        stem: Some("bare".to_string()),
        ext: None,
        is_file: true,
        content: Some("x".to_string()),
    }));
    assert!(Workspace::all(&reg).is_empty());
    assert!(reg.push_entry(record_file("real", &encode(&record("/r")))));
    let rows = Workspace::all(&reg);
    assert_eq!(rows.len(), 1);
    assert_eq!(rows[0].name.as_deref(), Some("real"));
}

#[test]
fn name_uniqueness_create_refuses_and_changes_nothing() {
    let mut reg = Registry::new();
    assert!(reg.create("a", &record("/first")).is_ok());
    let before = match Workspace::get(&reg, "a") {
        Lookup::Found(w) => w,
        _ => panic!("the first record must be found"),
    };
    assert_eq!(reg.create("a", &record("/second")).unwrap_err(), OpError::AlreadyExists);
    match Workspace::get(&reg, "a") {
        Lookup::Found(w) => {
            assert_eq!(w.path, before.path);
            assert_eq!(w.path, "/first");
        },
        _ => panic!("the pre-existing record must be untouched"),
    }
}

#[test]
fn create_then_exists_and_get() {
    let mut reg = Registry::new();
    assert!(!Workspace::exists_entry(&reg, "a"));
    assert!(reg.create("a", &record("/a")).is_ok());
    assert!(Workspace::exists_entry(&reg, "a"));
    match Workspace::get(&reg, "a") {
        Lookup::Found(w) => assert_eq!(w.path, "/a"),
        _ => panic!("created record must be found"),
    }
}

#[test]
fn rename_moves_the_name_and_keeps_the_record() {
    let mut reg = Registry::new();
    assert!(reg.create("a", &record("/kept")).is_ok());
    let before = match Workspace::get(&reg, "a") {
        Lookup::Found(w) => w,
        _ => panic!("must be found before the rename"),
    };
    assert!(reg.rename("a", "b").is_ok());
    assert!(!Workspace::exists_entry(&reg, "a"));
    assert!(Workspace::exists_entry(&reg, "b"));
    match Workspace::get(&reg, "b") {
        Lookup::Found(w) => assert_eq!(w.path, before.path),
        _ => panic!("the renamed record must be found under the new name"),
    }
    assert!(matches!(Workspace::get(&reg, "a"), Lookup::NotFound));
}

#[test]
fn rename_refusals() {
    let mut reg = Registry::new();
    assert!(reg.create("a", &record("/a")).is_ok());
    assert!(reg.create("b", &record("/b")).is_ok());
    assert_eq!(reg.rename("missing", "c").unwrap_err(), OpError::NotFound);
    assert_eq!(reg.rename("a", "b").unwrap_err(), OpError::AlreadyExists);
    assert_eq!(reg.rename("a", "a").unwrap_err(), OpError::AlreadyExists);
    assert!(Workspace::exists_entry(&reg, "a"));
    assert!(Workspace::exists_entry(&reg, "b"));
}

#[test]
fn delete_removes_and_refuses_the_absent() {
    let mut reg = Registry::new();
    assert!(reg.create("a", &record("/a")).is_ok());
    assert!(reg.delete("a").is_ok());
    assert!(!Workspace::exists_entry(&reg, "a"));
    assert_eq!(reg.delete("a").unwrap_err(), OpError::NotFound);
}

#[test]
fn get_keeps_absent_and_damaged_apart() {
    let mut reg = Registry::new();
    assert!(reg.push_entry(record_file("broken", "][")));
    assert!(reg.push_entry(RegEntry {
        stem: Some("unreadable".to_string()),
        ext: Some("toml".to_string()),
        is_file: true,
        content: None,
    }));
    assert!(matches!(Workspace::get(&reg, "absent"), Lookup::NotFound));
    assert!(matches!(Workspace::get(&reg, "broken"), Lookup::Invalid(Error::Parse(_))));
    assert!(matches!(Workspace::get(&reg, "unreadable"), Lookup::Invalid(Error::Read)));
}

#[test]
fn unreadable_file_is_a_degraded_row() {
    let mut reg = Registry::new();
    assert!(reg.push_entry(RegEntry {
        stem: Some("u".to_string()),
        ext: Some("toml".to_string()),
        is_file: true,
        content: None,
    }));
    let rows = Workspace::all(&reg);
    assert_eq!(rows.len(), 1);
    assert!(matches!(rows[0].loaded, Err(Error::Read)));
}

#[test]
fn nameless_entry_is_listed_without_a_name() {
    let mut reg = Registry::new();
    assert!(reg.push_entry(RegEntry {
        stem: None,
        ext: Some("toml".to_string()),
        is_file: true,
        content: Some("path = \"/x\"\n".to_string()),
    }));
    let rows = Workspace::all(&reg);
    assert_eq!(rows.len(), 1);
    assert!(rows[0].name.is_none());
    assert!(rows[0].loaded.is_ok());
}

#[test]
fn duplicate_snapshot_entry_is_refused() {
    let mut reg = Registry::new();
    assert!(reg.push_entry(record_file("a", "x")));
    assert!(!reg.push_entry(record_file("a", "y")));
}

#[test]
fn file_path_is_root_slash_name_dot_toml() {
    assert_eq!(Workspace::file_path("/root/cfg/workspace", "proj"), "/root/cfg/workspace/proj.toml");
    assert_eq!(Workspace::file_path("", "a"), "/a.toml");
}
