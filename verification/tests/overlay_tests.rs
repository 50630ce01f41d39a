use std::io::Write;

use tetron_vfs::error::FsError;
use tetron_vfs::noop_fs::NoOpFs;
use tetron_vfs::overlay_fs::OverlayFs;
use tetron_vfs::store::SimpleFs;
use tetron_vfs::zip_fs::ZipFs;

fn make_zip(entries: &[(&str, &[u8])]) -> Vec<u8> {
    let cursor = std::io::Cursor::new(Vec::new());
    let mut writer = zip::ZipWriter::new(cursor);
    let options = zip::write::SimpleFileOptions::default();
    for (name, contents) in entries {
        writer.start_file(*name, options).unwrap();
        writer.write_all(contents).unwrap();
    }
    writer.finish().unwrap().into_inner()
}

fn zip_store(entries: &[(&str, &[u8])]) -> ZipFs {
    ZipFs::new(make_zip(entries)).unwrap()
}

#[test]
fn mods_add_files_and_base_falls_through() {
    let base = zip_store(&[("config.json", b"{}"), ("assets/a.png", b"AAA")]);
    let modded = zip_store(&[("assets/b.png", b"BBB"), ("modinfo.txt", b"m")]);
    let overlay = OverlayFs::from_layers(vec![base, modded]);
    assert_eq!(overlay.open_file("assets/a.png").unwrap(), b"AAA".to_vec());
    assert_eq!(overlay.open_file("assets/b.png").unwrap(), b"BBB".to_vec());
    assert_eq!(
        overlay.read_dir("assets").unwrap(),
        vec!["assets/a.png".to_string(), "assets/b.png".to_string()]
    );
}

#[test]
fn later_layers_shadow_earlier_ones() {
    let base = zip_store(&[("config.json", b"X")]);
    let modded = zip_store(&[("config.json", b"Y")]);
    let overlay = OverlayFs::from_layers(vec![base, modded]);
    assert_eq!(overlay.open_file("config.json").unwrap(), b"Y".to_vec());
    assert_eq!(overlay.read_text_file("config.json").unwrap(), "Y");
    let md = overlay.metadata("config.json").unwrap();
    assert_eq!(md.len, 1);
}

#[test]
fn exists_is_true_when_any_layer_has_the_path() {
    let base = zip_store(&[("only/base.txt", b"b"), ("b.txt", b"1")]);
    let modded = zip_store(&[("only/mod.txt", b"m"), ("m.txt", b"2")]);
    let overlay = OverlayFs::from_layers(vec![base, modded]);
    assert!(overlay.exists_path("only/base.txt"));
    assert!(overlay.exists_path("only/mod.txt"));
    assert!(overlay.exists_path("only"));
    assert!(!overlay.exists_path("missing"));
    assert!(!overlay.exists_path("only/neither.txt"));
}

#[test]
fn listing_is_a_sorted_union_across_layers() {
    let base = zip_store(&[("d/c.txt", b"1"), ("d/a.txt", b"2"), ("x.txt", b"4")]);
    let modded = zip_store(&[("d/b.txt", b"3"), ("d/a.txt", b"override"), ("y.txt", b"5")]);
    let overlay = OverlayFs::from_layers(vec![base, modded]);
    assert_eq!(
        overlay.read_dir("d").unwrap(),
        vec!["d/a.txt".to_string(), "d/b.txt".to_string(), "d/c.txt".to_string()]
    );
    // The duplicated name is served from the later (topmost) layer.
    assert_eq!(overlay.open_file("d/a.txt").unwrap(), b"override".to_vec());
}

#[test]
fn metadata_is_first_match_and_open_falls_past_directories() {
    // In the base layer `x` is a file; in the higher layer it is a
    // directory.  Metadata takes the first match (the directory), while
    // opening skips the layer that cannot open and serves the file below.
    let base = zip_store(&[("x", b"abc"), ("k.txt", b"k")]);
    let modded = zip_store(&[("x/y", b"1"), ("z.txt", b"z")]);
    let overlay = OverlayFs::from_layers(vec![base, modded]);
    let md = overlay.metadata("x").unwrap();
    assert!(md.is_dir);
    assert_eq!(md.len, 0);
    assert_eq!(overlay.open_file("x").unwrap(), b"abc".to_vec());
}

#[test]
fn missing_directory_is_not_found() {
    let base = zip_store(&[("a/x.txt", b"x"), ("b.txt", b"b")]);
    let overlay = OverlayFs::from_layers(vec![base]);
    assert!(matches!(overlay.read_dir("nope"), Err(FsError::NotFound)));
    assert!(matches!(overlay.open_file("nope"), Err(FsError::NotFound)));
    assert!(matches!(overlay.metadata("nope"), Err(FsError::NotFound)));
}

#[test]
fn empty_overlay_serves_nothing() {
    let overlay: OverlayFs<ZipFs> = OverlayFs::from_layers(Vec::new());
    assert!(!overlay.exists_path("anything"));
    assert!(matches!(overlay.open_file("anything"), Err(FsError::NotFound)));
    assert!(matches!(overlay.read_dir(""), Err(FsError::NotFound)));
}

#[test]
fn round_trip_through_a_single_layer_overlay() {
    let buf = make_zip(&[
        ("g/game.json", b"{\"name\":\"demo\"}"),
        ("g/scripts/main.rn", b"pub fn main() {}"),
    ]);
    let fs = ZipFs::new(buf).unwrap();
    let overlay = OverlayFs::from_layers(vec![fs]);
    assert_eq!(overlay.read_text_file("game.json").unwrap(), "{\"name\":\"demo\"}");
    assert_eq!(overlay.read_dir("scripts").unwrap(), vec!["scripts/main.rn".to_string()]);
}

#[test]
fn noop_store_always_fails() {
    let fs = NoOpFs::new();
    assert!(!fs.exists_path("x"));
    assert!(matches!(fs.open_file("x"), Err(FsError::NotFound)));
    assert!(matches!(fs.metadata("x"), Err(FsError::NotFound)));
    assert!(matches!(fs.read_dir(""), Err(FsError::NotFound)));
    assert!(matches!(fs.read_text_file("x"), Err(FsError::NotFound)));
}

#[test]
fn noop_layers_change_nothing() {
    let overlay = OverlayFs::from_layers(vec![NoOpFs::new(), NoOpFs::new()]);
    assert!(!overlay.exists_path("x"));
    assert!(matches!(overlay.read_dir(""), Err(FsError::NotFound)));
}

#[test]
fn layer_count_reflects_the_stack() {
    let base = zip_store(&[("a", b"1")]);
    let modded = zip_store(&[("b", b"2")]);
    let overlay = OverlayFs::from_layers(vec![base, modded]);
    assert_eq!(overlay.layer_count(), 2);
}

#[test]
fn overlays_nest() {
    let base = zip_store(&[("f.txt", b"base")]);
    let inner = OverlayFs::from_layers(vec![base]);
    let top = zip_store(&[("g.txt", b"top")]);
    let top_overlay = OverlayFs::from_layers(vec![top]);
    let outer = OverlayFs::from_layers(vec![inner, top_overlay]);
    assert_eq!(outer.open_file("f.txt").unwrap(), b"base".to_vec());
    assert_eq!(outer.open_file("g.txt").unwrap(), b"top".to_vec());
}
