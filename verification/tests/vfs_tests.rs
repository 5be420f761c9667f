use polaris::error::PError;
use polaris::vfs::{RealPath, Vfs, VirtualPath};

fn strings(parts: &[&str]) -> Vec<String> {
    parts.iter().map(|p| p.to_string()).collect()
}

fn rp(parts: &[&str]) -> RealPath {
    RealPath { segments: strings(parts) }
}

fn vp(parts: &[&str]) -> VirtualPath {
    VirtualPath { segments: strings(parts) }
}

fn mounted(name: &str, root: &[&str]) -> Vfs {
    let mut vfs = Vfs::new();
    let n = name.to_string();
    assert!(vfs.mount(&n, rp(root), true, true).is_ok());
    vfs
}

#[test]
fn mount_missing_directory_fails() {
    let mut vfs = Vfs::new();
    let name = "music".to_string();
    let r = vfs.mount(&name, rp(&["srv", "music"]), false, false);
    assert_eq!(r, Err(PError::MountNotFound));
}

#[test]
fn mount_non_directory_fails() {
    let mut vfs = Vfs::new();
    let name = "music".to_string();
    let r = vfs.mount(&name, rp(&["srv", "music.txt"]), true, false);
    assert_eq!(r, Err(PError::MountNotADirectory));
}

#[test]
fn virtual_to_real_joins_suffix_onto_root() {
    let vfs = mounted("music", &["srv", "media"]);
    let out = vfs.virtual_to_real(&vp(&["music", "rock", "song.mp3"])).unwrap();
    assert_eq!(out.segments, strings(&["srv", "media", "rock", "song.mp3"]));
}

#[test]
fn virtual_to_real_of_bare_mount_is_the_root() {
    let vfs = mounted("music", &["srv", "media"]);
    let out = vfs.virtual_to_real(&vp(&["music"])).unwrap();
    assert_eq!(out.segments, strings(&["srv", "media"]));
}

#[test]
fn virtual_to_real_unknown_mount_fails() {
    let vfs = mounted("music", &["srv", "media"]);
    let r = vfs.virtual_to_real(&vp(&["videos", "a.mp4"]));
    assert_eq!(r.err(), Some(PError::MountNotFound));
}

#[test]
fn virtual_to_real_empty_path_fails() {
    let vfs = mounted("music", &["srv", "media"]);
    let r = vfs.virtual_to_real(&vp(&[]));
    assert_eq!(r.err(), Some(PError::MountNotFound));
}

#[test]
fn dot_and_dotdot_resolve_inside_the_mount() {
    let vfs = mounted("music", &["srv", "media"]);
    let out = vfs.virtual_to_real(&vp(&["music", "a", ".", "..", "b", "c.mp3"])).unwrap();
    assert_eq!(out.segments, strings(&["srv", "media", "b", "c.mp3"]));
}

#[test]
fn escape_at_mount_boundary_is_rejected() {
    let vfs = mounted("music", &["srv", "media"]);
    let r = vfs.virtual_to_real(&vp(&["music", "..", "etc", "passwd"]));
    assert_eq!(r.err(), Some(PError::PathEscapesMount));
}

#[test]
fn deep_escape_is_rejected() {
    let vfs = mounted("music", &["srv", "media", "deep", "tree"]);
    let r = vfs.virtual_to_real(&vp(&["music", "a", "b", "..", "..", "..", "x"]));
    assert_eq!(r.err(), Some(PError::PathEscapesMount));
}

#[test]
fn escape_stays_an_escape_even_if_it_comes_back() {
    let vfs = mounted("music", &["srv", "media"]);
    let r = vfs.virtual_to_real(&vp(&["music", "..", "media", "x.mp3"]));
    assert_eq!(r.err(), Some(PError::PathEscapesMount));
}

#[test]
fn real_to_virtual_reconstructs_the_virtual_path() {
    let vfs = mounted("music", &["srv", "media"]);
    let out = vfs.real_to_virtual(&rp(&["srv", "media", "rock", "song.mp3"])).unwrap();
    assert_eq!(out.segments, strings(&["music", "rock", "song.mp3"]));
}

#[test]
fn round_trip_through_a_mount() {
    let vfs = mounted("music", &["srv", "media"]);
    let virt = vp(&["music", "rock", "song.mp3"]);
    let real = vfs.virtual_to_real(&virt).unwrap();
    let back = vfs.real_to_virtual(&real).unwrap();
    assert_eq!(back.segments, virt.segments);
}

#[test]
fn real_to_virtual_outside_all_mounts_fails() {
    let vfs = mounted("music", &["srv", "media"]);
    let r = vfs.real_to_virtual(&rp(&["etc", "passwd"]));
    assert_eq!(r.err(), Some(PError::PathNotMounted));
}

#[test]
fn real_to_virtual_prefers_the_longest_root() {
    let mut vfs = Vfs::new();
    let outer = "all".to_string();
    let inner = "rock".to_string();
    vfs.mount(&outer, rp(&["srv", "media"]), true, true).unwrap();
    vfs.mount(&inner, rp(&["srv", "media", "rock"]), true, true).unwrap();
    let out = vfs.real_to_virtual(&rp(&["srv", "media", "rock", "song.mp3"])).unwrap();
    assert_eq!(out.segments, strings(&["rock", "song.mp3"]));
}

#[test]
fn remounting_a_name_replaces_its_root() {
    let mut vfs = mounted("music", &["old", "root"]);
    let name = "music".to_string();
    vfs.mount(&name, rp(&["new", "root"]), true, true).unwrap();
    let out = vfs.virtual_to_real(&vp(&["music", "a.mp3"])).unwrap();
    assert_eq!(out.segments, strings(&["new", "root", "a.mp3"]));
}
