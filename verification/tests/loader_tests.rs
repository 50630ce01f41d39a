use std::io::Write;

use tetron_vfs::error::FsError;
use tetron_vfs::loader::{module_candidates, FnOpts, SimpleFsSourceLoader};
use tetron_vfs::zip_fs::ZipFs;

fn make_zip(entries: &[(&str, &[u8])]) -> Vec<u8> {
    let cursor = std::io::Cursor::new(Vec::new());
    let mut writer = zip::ZipWriter::new(cursor);
    let options = zip::write::SimpleFileOptions::default();
    for (name, contents) in entries {
        writer.start_file(*name, options).unwrap();
        writer.write_all(contents).unwrap();
    }
    writer.finish().unwrap().into_inner()
}

#[test]
fn candidates_are_module_file_and_named_file() {
    let (c1, c2) = module_candidates("scripts/util");
    assert_eq!(c1, "scripts/util/mod.rn");
    assert_eq!(c2, "scripts/util.rn");
}

#[test]
fn module_directory_form_wins() {
    let buf = make_zip(&[
        ("scripts/util/mod.rn", b"module body"),
        ("scripts/util.rn", b"file body"),
        ("game.json", b"{}"),
    ]);
    let loader = SimpleFsSourceLoader::new(ZipFs::new(buf).unwrap());
    let (path, src) = loader.load("scripts/util").unwrap();
    assert_eq!(path, "scripts/util/mod.rn");
    assert_eq!(src, "module body");
}

#[test]
fn named_file_form_is_the_fallback() {
    let buf = make_zip(&[("scripts/util.rn", b"file body"), ("game.json", b"{}")]);
    let loader = SimpleFsSourceLoader::new(ZipFs::new(buf).unwrap());
    let (path, src) = loader.load("scripts/util").unwrap();
    assert_eq!(path, "scripts/util.rn");
    assert_eq!(src, "file body");
}

#[test]
fn missing_module_is_not_found() {
    let buf = make_zip(&[("scripts/other.rn", b"x"), ("game.json", b"{}")]);
    let loader = SimpleFsSourceLoader::new(ZipFs::new(buf).unwrap());
    assert!(matches!(loader.load("scripts/util"), Err(FsError::NotFound)));
}

#[test]
fn fn_opts_flags_flip() {
    let mut opts = FnOpts::new();
    assert!(opts.pure_fn);
    assert!(!opts.volatile);
    assert!(!opts.global);
    opts.global();
    assert!(opts.global);
    opts.volatile();
    assert!(opts.volatile);
    opts.impure();
    assert!(!opts.pure_fn);
    assert!(opts.volatile && opts.global);
}
