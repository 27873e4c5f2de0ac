use nem::dir::Dir;

#[test]
fn dir_records_created_files() {
    let mut d = Dir::new("/tmp/scratch".to_string());
    d.create("a.toml", "hello");
    assert_eq!(d.files.len(), 1);
    assert_eq!(d.files[0].path, "/tmp/scratch/a.toml");
    assert_eq!(d.files[0].bytes, b"hello".to_vec());
}

#[test]
fn dir_try_create_always_succeeds() {
    let mut d = Dir::new("/tmp/scratch".to_string());
    assert!(d.try_create("b.toml", "x").is_ok());
    assert_eq!(d.files.len(), 1);
    assert_eq!(d.files[0].path, "/tmp/scratch/b.toml");
}

#[test]
fn dir_records_raw_bytes() {
    let mut d = Dir::new("/tmp/scratch".to_string());
    d.create_bytes("raw.bin", &[0u8, 255u8]);
    assert_eq!(d.files[0].bytes, vec![0u8, 255u8]);
}

#[test]
fn dir_path_is_the_root() {
    let d = Dir::new("/tmp/scratch".to_string());
    assert_eq!(d.path(), "/tmp/scratch");
}

#[test]
fn dir_records_links() {
    let mut d = Dir::new("/tmp/scratch".to_string());
    d.link_file("a.toml", "b.toml");
    assert_eq!(d.links.len(), 1);
    assert_eq!(d.links[0].src, "/tmp/scratch/a.toml");
    assert_eq!(d.links[0].target, "/tmp/scratch/b.toml");
}
