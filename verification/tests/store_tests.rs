use nem::entry::Entry;
use nem::store::NemFile;

fn entry(cmd: &str, code: &str, desc: &str) -> Entry {
    Entry::new(cmd.to_string(), code.to_string(), desc.to_string())
}

fn store(entries: Vec<Entry>) -> NemFile {
    NemFile::new("0.0".to_string(), entries, "/tmp/work/.nem.toml".to_string())
}

#[test]
fn sort_orders_by_command() {
    let mut f = store(vec![
        entry("zz top", "z", ""),
        entry("aa first", "a", ""),
        entry("mm mid", "m", ""),
    ]);
    f.sort();
    let cmds: Vec<&str> = f.entries.iter().map(|e| e.cmd.as_str()).collect();
    assert_eq!(cmds, vec!["aa first", "mm mid", "zz top"]);
}

#[test]
fn sort_is_idempotent() {
    let mut f = store(vec![
        entry("cargo build", "cb", ""),
        entry("apt update", "au", ""),
        entry("cargo build", "cb2", "again"),
    ]);
    f.sort();
    let once: Vec<Entry> = f.entries.clone();
    f.sort();
    assert_eq!(once, f.entries);
}

#[test]
fn sort_is_stable_for_equal_commands() {
    let mut f = store(vec![
        entry("echo", "first", ""),
        entry("echo", "second", ""),
    ]);
    f.sort();
    assert_eq!(f.entries[0].code, "first");
    assert_eq!(f.entries[1].code, "second");
}

#[test]
fn codes_come_in_entry_order() {
    let f = store(vec![entry("b", "x", ""), entry("a", "y", "")]);
    assert_eq!(f.codes(), vec!["x".to_string(), "y".to_string()]);
}

#[test]
fn add_entry_appends_unconditionally() {
    let mut f = store(vec![entry("a", "dup", "")]);
    f.add_entry(entry("b", "dup", ""));
    assert_eq!(f.entries.len(), 2);
    assert_eq!(f.entries[1].cmd, "b");
}

#[test]
fn rm_entry_removes_first_match() {
    let mut f = store(vec![
        entry("a", "x", ""),
        entry("b", "dup", "one"),
        entry("c", "dup", "two"),
    ]);
    let removed = f.rm_entry(&"dup".to_string()).expect("present");
    assert_eq!(removed.cmd, "b");
    assert_eq!(f.entries.len(), 2);
    assert_eq!(f.entries[1].desc, "two");
}

#[test]
fn rm_entry_missing_is_none() {
    let mut f = store(vec![entry("a", "x", "")]);
    assert!(f.rm_entry(&"nope".to_string()).is_none());
    assert_eq!(f.entries.len(), 1);
}

#[test]
fn find_entry_by_code_returns_first_match() {
    let f = store(vec![entry("a", "dup", "one"), entry("b", "dup", "two")]);
    let e = f.find_entry_by_code(&"dup".to_string()).expect("present");
    assert_eq!(e.desc, "one");
}

#[test]
fn find_entry_by_code_missing_is_none() {
    let f = store(vec![entry("a", "x", "")]);
    assert!(f.find_entry_by_code(&"y".to_string()).is_none());
}

#[test]
fn find_entry_by_code_mut_edits_in_place() {
    let mut f = store(vec![entry("a", "x", "")]);
    {
        let e = f.find_entry_by_code_mut(&"x".to_string()).expect("present");
        e.desc = "written".to_string();
    }
    assert_eq!(f.entries[0].desc, "written");
}

#[test]
fn edit_code_relabels_and_keeps_command() {
    let mut f = store(vec![entry("cargo build", "cb", "d")]);
    let changed = f
        .edit_code(&"cb".to_string(), &"b".to_string())
        .expect("present");
    assert_eq!(changed.cmd, "cargo build");
    assert_eq!(changed.code, "b");
    assert_eq!(changed.desc, "d");
    assert_eq!(f.entries[0].code, "b");
}

#[test]
fn edit_code_missing_is_none() {
    let mut f = store(vec![entry("a", "x", "")]);
    assert!(f.edit_code(&"zz".to_string(), &"y".to_string()).is_none());
    assert_eq!(f.entries[0].code, "x");
}
