// The configuration-file boundary: entries written out as a structured
// document and read back. The document handling here mirrors what the
// program's file boundary does, against the real encoder and decoder.

use nem::entry::Entry;
use nem::store::NemFile;
use toml::{Table, Value};

fn to_document(f: &NemFile) -> String {
    let mut cmds: Vec<Value> = Vec::new();
    for e in &f.entries {
        let mut t = Table::new();
        t.insert("cmd".to_string(), Value::String(e.cmd.clone()));
        t.insert("code".to_string(), Value::String(e.code.clone()));
        t.insert("desc".to_string(), Value::String(e.desc.clone()));
        cmds.push(Value::Table(t));
    }
    let mut root = Table::new();
    root.insert("version".to_string(), Value::String(f.version.clone()));
    root.insert("cmds".to_string(), Value::Array(cmds));
    toml::to_string(&Value::Table(root)).expect("encodes")
}

fn from_document(doc: &str, file_name: &str) -> NemFile {
    let root: Value = toml::from_str(doc).expect("decodes");
    let version = root
        .get("version")
        .and_then(Value::as_str)
        .expect("version field")
        .to_string();
    let mut entries = Vec::new();
    if let Some(arr) = root.get("cmds").and_then(Value::as_array) {
        for v in arr {
            let cmd = v
                .get("cmd")
                .and_then(Value::as_str)
                .expect("cmd field")
                .to_string();
            let code = v
                .get("code")
                .and_then(Value::as_str)
                .expect("code field")
                .to_string();
            let desc = v
                .get("desc")
                .and_then(Value::as_str)
                .unwrap_or("")
                .to_string();
            entries.push(Entry::new(cmd, code, desc));
        }
    }
    NemFile::new(version, entries, file_name.to_string())
}

fn entry_set(f: &NemFile) -> Vec<(String, String, String)> {
    let mut v: Vec<(String, String, String)> = f
        .entries
        .iter()
        .map(|e| (e.cmd.clone(), e.code.clone(), e.desc.clone()))
        .collect();
    v.sort();
    v
}

static DOC: &str = r#"
version = "0.0"

[[cmds]]
cmd = "zz top"
code = "z"
desc = ""

[[cmds]]
cmd = "cargo build --release"
code = "cbr"
desc = "release build"
"#;

#[test]
fn round_trip_preserves_the_entry_set() {
    let original = from_document(DOC, "/work/.nem.toml");
    let mut persisted = from_document(DOC, "/work/.nem.toml");
    persisted.sort();
    let reloaded = from_document(&to_document(&persisted), "/work/.nem.toml");
    assert_eq!(entry_set(&original), entry_set(&reloaded));
    assert_eq!(original.version, reloaded.version);
}

#[test]
fn decoding_reads_commands_codes_and_descriptions() {
    let f = from_document(DOC, "/work/.nem.toml");
    assert_eq!(f.version, "0.0");
    assert_eq!(f.entries.len(), 2);
    assert_eq!(f.entries[1].cmd, "cargo build --release");
    assert_eq!(f.entries[1].code, "cbr");
    assert_eq!(f.entries[1].desc, "release build");
}
