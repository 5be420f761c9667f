use polaris::collection::{
    Collection, CollectionFile, DirEntryInfo, FileKind, FsTree, FsTreeEntry, MountDirConfig, Song,
};
use polaris::error::PError;
use polaris::vfs::{RealPath, VirtualPath};

fn strings(parts: &[&str]) -> Vec<String> {
    parts.iter().map(|p| p.to_string()).collect()
}

fn rp(parts: &[&str]) -> RealPath {
    RealPath { segments: strings(parts) }
}

fn vp(parts: &[&str]) -> VirtualPath {
    VirtualPath { segments: strings(parts) }
}

fn collection_with(name: &str, root: &[&str]) -> Collection {
    let mut c = Collection::new();
    let n = name.to_string();
    assert!(c.mount(&n, rp(root), true, true).is_ok());
    c
}

fn entry(name: &str, kind: FileKind) -> DirEntryInfo {
    DirEntryInfo { name: name.to_string(), kind }
}

fn file(name: &str) -> FsTreeEntry {
    FsTreeEntry { name: name.to_string(), tree: FsTree::File }
}

fn dir(name: &str, children: Vec<FsTreeEntry>) -> FsTreeEntry {
    FsTreeEntry { name: name.to_string(), tree: FsTree::Directory(children) }
}

fn song_paths(songs: &[Song]) -> Vec<String> {
    songs.iter().map(|s| s.path.clone()).collect()
}

#[test]
fn browse_classifies_files_and_directories() {
    let c = collection_with("music", &["srv", "media"]);
    let listing = vec![
        entry("a.mp3", FileKind::File),
        entry("sub", FileKind::Directory),
        entry("weird.socket", FileKind::Other),
    ];
    let out = c.browse(&vp(&["music"]), &listing).unwrap();
    assert_eq!(out.len(), 2);
    match &out[0] {
        CollectionFile::Song(s) => {
            assert_eq!(s.path, "music/a.mp3");
            assert_eq!(s.display_name, "a");
        }
        CollectionFile::Directory(_) => panic!("first entry should be a song"),
    }
    match &out[1] {
        CollectionFile::Directory(d) => {
            assert_eq!(d.path, "music/sub");
            assert_eq!(d.display_name, "sub");
        }
        CollectionFile::Song(_) => panic!("second entry should be a directory"),
    }
}

#[test]
fn browse_root_lists_mount_names_as_directories() {
    let mut c = Collection::new();
    let a = "albums".to_string();
    let b = "singles".to_string();
    c.mount(&a, rp(&["srv", "albums"]), true, true).unwrap();
    c.mount(&b, rp(&["srv", "singles"]), true, true).unwrap();
    let out = c.browse(&vp(&[]), &vec![]).unwrap();
    assert_eq!(out.len(), 2);
    match &out[0] {
        CollectionFile::Directory(d) => {
            assert_eq!(d.path, "albums");
            assert_eq!(d.display_name, "albums");
        }
        CollectionFile::Song(_) => panic!("mounts list as directories"),
    }
    match &out[1] {
        CollectionFile::Directory(d) => assert_eq!(d.path, "singles"),
        CollectionFile::Song(_) => panic!("mounts list as directories"),
    }
}

#[test]
fn browse_of_unknown_mount_fails() {
    let c = collection_with("music", &["srv", "media"]);
    let r = c.browse(&vp(&["videos"]), &vec![]);
    assert_eq!(r.err(), Some(PError::MountNotFound));
}

#[test]
fn browse_of_escaping_path_fails() {
    let c = collection_with("music", &["srv", "media"]);
    let r = c.browse(&vp(&["music", "..", ".."]), &vec![]);
    assert_eq!(r.err(), Some(PError::PathEscapesMount));
}

#[test]
fn flatten_collects_every_file_depth_first() {
    // Depth 3, width 2 at each level.
    let c = collection_with("music", &["srv", "media"]);
    let tree = FsTree::Directory(vec![
        file("a.mp3"),
        dir(
            "d1",
            vec![
                file("b.mp3"),
                dir("d2", vec![file("c.mp3"), file("d.mp3")]),
            ],
        ),
        dir(
            "d3",
            vec![
                dir("d4", vec![file("e.mp3"), file("f.mp3")]),
                file("g.mp3"),
            ],
        ),
    ]);
    let out = c.flatten(&vp(&["music"]), &tree).unwrap();
    assert_eq!(
        song_paths(&out),
        vec![
            "music/a.mp3".to_string(),
            "music/d1/b.mp3".to_string(),
            "music/d1/d2/c.mp3".to_string(),
            "music/d1/d2/d.mp3".to_string(),
            "music/d3/d4/e.mp3".to_string(),
            "music/d3/d4/f.mp3".to_string(),
            "music/d3/g.mp3".to_string(),
        ]
    );
    // No duplicates and no omissions: seven distinct reachable files.
    let mut paths = song_paths(&out);
    paths.sort();
    paths.dedup();
    assert_eq!(paths.len(), 7);
}

#[test]
fn flatten_keeps_display_names_as_file_stems() {
    let c = collection_with("music", &["srv", "media"]);
    let tree = FsTree::Directory(vec![file("01. Intro.mp3")]);
    let out = c.flatten(&vp(&["music"]), &tree).unwrap();
    assert_eq!(out[0].display_name, "01. Intro");
}

#[test]
fn flatten_of_a_plain_file_is_an_io_error() {
    let c = collection_with("music", &["srv", "media"]);
    let r = c.flatten(&vp(&["music"]), &FsTree::File);
    assert_eq!(r.err(), Some(PError::IOError));
}

#[test]
fn flatten_aborts_on_an_unreadable_child() {
    let c = collection_with("music", &["srv", "media"]);
    let tree = FsTree::Directory(vec![
        file("a.mp3"),
        FsTreeEntry { name: "dev".to_string(), tree: FsTree::Other },
    ]);
    let r = c.flatten(&vp(&["music"]), &tree);
    assert_eq!(r.err(), Some(PError::IOError));
}

#[test]
fn flatten_of_escaping_path_fails_hard() {
    let c = collection_with("music", &["srv", "media"]);
    let r = c.flatten(&vp(&["music", ".."]), &FsTree::Directory(vec![]));
    assert_eq!(r.err(), Some(PError::PathEscapesMount));
}

#[test]
fn locate_translates_through_the_vfs() {
    let c = collection_with("music", &["srv", "media"]);
    let out = c.locate(&vp(&["music", "rock", "a.mp3"])).unwrap();
    assert_eq!(out.segments, strings(&["srv", "media", "rock", "a.mp3"]));
}

fn good_entry(name: &str, source: &[&str]) -> MountDirConfig {
    MountDirConfig {
        name: Some(name.to_string()),
        source: Some(rp(source)),
        source_exists: true,
        source_is_dir: true,
    }
}

#[test]
fn load_config_mounts_every_entry() {
    let mut c = Collection::new();
    let entries = vec![good_entry("albums", &["srv", "albums"]), good_entry("live", &["srv", "live"])];
    assert_eq!(c.load_config_mount_points(&entries), Ok(()));
    let out = c.locate(&vp(&["live", "x.mp3"])).unwrap();
    assert_eq!(out.segments, strings(&["srv", "live", "x.mp3"]));
}

#[test]
fn load_config_later_duplicate_overwrites() {
    let mut c = Collection::new();
    let entries = vec![
        good_entry("m", &["srv", "first"]),
        good_entry("other", &["srv", "other"]),
        good_entry("m", &["srv", "second"]),
    ];
    assert_eq!(c.load_config_mount_points(&entries), Ok(()));
    let out = c.locate(&vp(&["m", "x.mp3"])).unwrap();
    assert_eq!(out.segments, strings(&["srv", "second", "x.mp3"]));
    let other = c.locate(&vp(&["other"])).unwrap();
    assert_eq!(other.segments, strings(&["srv", "other"]));
}

#[test]
fn load_config_keeps_entries_before_the_first_bad_one() {
    let mut c = Collection::new();
    let mut bad = good_entry("broken", &["srv", "broken"]);
    bad.source_exists = false;
    let entries = vec![good_entry("albums", &["srv", "albums"]), bad];
    assert_eq!(c.load_config_mount_points(&entries), Err(PError::MountNotFound));
    let out = c.locate(&vp(&["albums", "a.mp3"])).unwrap();
    assert_eq!(out.segments, strings(&["srv", "albums", "a.mp3"]));
    assert_eq!(c.locate(&vp(&["broken"])).err(), Some(PError::MountNotFound));
}

#[test]
fn flatten_survives_a_very_deep_tree() {
    let c = collection_with("music", &["srv", "media"]);
    let mut tree = FsTree::Directory(vec![file("leaf.mp3")]);
    let mut expected = String::from("music");
    let depth = 2000;
    for level in (0..depth).rev() {
        let name = format!("d{}", level);
        tree = FsTree::Directory(vec![FsTreeEntry { name, tree }]);
    }
    for level in 0..depth {
        expected.push('/');
        expected.push_str(&format!("d{}", level));
    }
    expected.push_str("/leaf.mp3");
    let out = c.flatten(&vp(&["music"]), &tree).unwrap();
    assert_eq!(out.len(), 1);
    assert_eq!(out[0].path, expected);
    assert_eq!(out[0].display_name, "leaf");
}

#[test]
fn load_config_rejects_a_nameless_entry() {
    let mut c = Collection::new();
    let mut bad = good_entry("albums", &["srv", "albums"]);
    bad.name = None;
    let r = c.load_config_mount_points(&vec![bad]);
    assert_eq!(r, Err(PError::ConfigMountDirsParseError));
}

#[test]
fn load_config_rejects_a_sourceless_entry() {
    let mut c = Collection::new();
    let mut bad = good_entry("albums", &["srv", "albums"]);
    bad.source = None;
    let r = c.load_config_mount_points(&vec![bad]);
    assert_eq!(r, Err(PError::ConfigMountDirsParseError));
}

#[test]
fn load_config_surfaces_mount_errors() {
    let mut c = Collection::new();
    let mut missing = good_entry("albums", &["srv", "albums"]);
    missing.source_exists = false;
    assert_eq!(c.load_config_mount_points(&vec![missing]), Err(PError::MountNotFound));

    let mut not_dir = good_entry("albums", &["srv", "albums"]);
    not_dir.source_is_dir = false;
    assert_eq!(c.load_config_mount_points(&vec![not_dir]), Err(PError::MountNotADirectory));
}

#[test]
fn song_read_builds_path_and_stem() {
    let c = collection_with("music", &["srv", "media"]);
    let song = Song::read(&c, &rp(&["srv", "media", "rock", "Best Of.flac"])).unwrap();
    assert_eq!(song.path, "music/rock/Best Of.flac");
    assert_eq!(song.display_name, "Best Of");
}

#[test]
fn song_read_outside_mounts_fails() {
    let c = collection_with("music", &["srv", "media"]);
    let r = Song::read(&c, &rp(&["etc", "passwd"]));
    assert_eq!(r.err(), Some(PError::PathNotMounted));
}
