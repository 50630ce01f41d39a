use std::io::Write;

use tetron_vfs::error::FsError;
use tetron_vfs::store::SimpleFs;
use tetron_vfs::zip_fs::ZipFs;

/// Builds a zip archive in memory from (name, contents) pairs; a name
/// ending in `/` becomes a directory record.
fn make_zip(entries: &[(&str, &[u8])]) -> Vec<u8> {
    let cursor = std::io::Cursor::new(Vec::new());
    let mut writer = zip::ZipWriter::new(cursor);
    let options = zip::write::SimpleFileOptions::default();
    for (name, contents) in entries {
        if name.ends_with('/') {
            writer.add_directory(name.trim_end_matches('/'), options).unwrap();
        } else {
            writer.start_file(*name, options).unwrap();
            writer.write_all(contents).unwrap();
        }
    }
    writer.finish().unwrap().into_inner()
}

#[test]
fn root_prefix_is_stripped() {
    let buf = make_zip(&[
        ("root/foo", b"hello"),
        ("root/sub/bar.txt", b"inner"),
    ]);
    let fs = ZipFs::new(buf).unwrap();
    assert!(fs.exists_path("foo"));
    assert!(fs.exists_path("sub/bar.txt"));
    assert!(!fs.exists_path("root/foo"));
    assert!(!fs.exists_path("root"));
    let md = fs.metadata("foo").unwrap();
    assert!(!md.is_dir);
    assert_eq!(md.len, 5);
    assert_eq!(fs.read_dir("").unwrap(), vec!["foo".to_string(), "sub".to_string()]);
}

#[test]
fn no_prefix_stripped_when_not_shared() {
    let buf = make_zip(&[("a.txt", b"x"), ("b/c.txt", b"y")]);
    let fs = ZipFs::new(buf).unwrap();
    assert!(fs.exists_path("a.txt"));
    assert!(fs.exists_path("b/c.txt"));
    assert_eq!(fs.open_file("b/c.txt").unwrap(), b"y".to_vec());
}

#[test]
fn ancestors_are_synthesized() {
    let buf = make_zip(&[("a/b/c.txt", b"deep"), ("top.txt", b"t")]);
    let fs = ZipFs::new(buf).unwrap();
    assert!(fs.exists_path("a"));
    assert!(fs.exists_path("a/b"));
    let md_a = fs.metadata("a").unwrap();
    assert!(md_a.is_dir);
    assert_eq!(md_a.len, 0);
    let md_ab = fs.metadata("a/b").unwrap();
    assert!(md_ab.is_dir);
    assert_eq!(fs.read_dir("a").unwrap(), vec!["a/b".to_string()]);
    assert_eq!(fs.read_dir("a/b").unwrap(), vec!["a/b/c.txt".to_string()]);
    assert_eq!(fs.read_dir("").unwrap(), vec!["a".to_string(), "top.txt".to_string()]);
}

#[test]
fn open_file_returns_contents() {
    let buf = make_zip(&[("data/blob.bin", &[0u8, 1, 2, 250, 251]), ("keep.txt", b"k")]);
    let fs = ZipFs::new(buf).unwrap();
    assert_eq!(fs.open_file("data/blob.bin").unwrap(), vec![0u8, 1, 2, 250, 251]);
    // Paths are normalized before lookup.
    assert_eq!(fs.open_file("/data//blob.bin").unwrap(), vec![0u8, 1, 2, 250, 251]);
}

#[test]
fn open_file_fails_on_directories_and_missing_paths() {
    let buf = make_zip(&[("a/b.txt", b"x"), ("c.txt", b"c")]);
    let fs = ZipFs::new(buf).unwrap();
    assert!(matches!(fs.open_file("a"), Err(FsError::NotFound)));
    assert!(matches!(fs.open_file("nope"), Err(FsError::NotFound)));
    assert!(matches!(fs.metadata("nope"), Err(FsError::NotFound)));
    assert!(matches!(fs.read_dir("a/b.txt"), Err(FsError::NotFound)));
    assert!(!fs.exists_path("nope"));
}

#[test]
fn explicit_directory_records_are_kept() {
    let buf = make_zip(&[("d/", b""), ("d/x", b"x"), ("e.txt", b"e")]);
    let fs = ZipFs::new(buf).unwrap();
    let md = fs.metadata("d").unwrap();
    assert!(md.is_dir);
    assert!(fs.exists_path("d/x"));
}

#[test]
fn sorted_listing_of_many_children() {
    let buf = make_zip(&[
        ("dir/zebra", b"1"),
        ("dir/apple", b"2"),
        ("dir/mango", b"3"),
        ("dir/apple2", b"4"),
        ("other.txt", b"5"),
    ]);
    let fs = ZipFs::new(buf).unwrap();
    assert_eq!(
        fs.read_dir("dir").unwrap(),
        vec![
            "dir/apple".to_string(),
            "dir/apple2".to_string(),
            "dir/mango".to_string(),
            "dir/zebra".to_string(),
        ]
    );
}

#[test]
fn read_text_file_decodes_utf8() {
    let buf = make_zip(&[("msg.txt", "grüße".as_bytes())]);
    let fs = ZipFs::new(buf).unwrap();
    assert_eq!(fs.read_text_file("msg.txt").unwrap(), "grüße");
}

#[test]
fn read_text_file_rejects_invalid_utf8() {
    let buf = make_zip(&[("bad.bin", &[0xff, 0xfe, 0x01])]);
    let fs = ZipFs::new(buf).unwrap();
    assert!(matches!(fs.read_text_file("bad.bin"), Err(FsError::ReadError(_))));
}

#[test]
fn garbage_bytes_are_rejected() {
    let garbage = vec![1u8, 2, 3, 4, 5, 6, 7, 8];
    assert!(matches!(ZipFs::new(garbage), Err(FsError::Io(_))));
}

#[test]
fn empty_archive_has_nothing() {
    let buf = make_zip(&[]);
    let fs = ZipFs::new(buf).unwrap();
    assert!(!fs.exists_path("anything"));
    assert!(matches!(fs.read_dir(""), Err(FsError::NotFound)));
}

#[test]
fn error_messages_name_the_failure() {
    let msg = FsError::NotFound.message();
    assert!(msg.contains("not found"));
    let msg = FsError::ReadError("x".to_string()).message();
    assert!(msg.contains("reading"));
}
