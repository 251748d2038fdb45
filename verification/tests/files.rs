//! Tests of the files of a server: paths, copies, archives and listings.
use std::io::{Cursor, Read, Write};
use std::path::Path;
use voltpanel::archive::{entry_kind, EntryKind, Limits};
use voltpanel::models::{Config, Mirror, Paths, Server};
use voltpanel::services::files::{
    base64_upload, chmod, content_kind, copy, copy_action, delete, delete_action, download_file,
    extension, extract_tar_gz_bounded, extract_tar_gz_into, is_dot_entry, list_dir, move_into,
    open_dir_create, parent_rel, parse_patterns, pattern_excludes, probe_paths, read_file, rename,
    requested_path, resolve, safe_join, server_root, tar_gz_dir, tar_gz_dir_excluding, unzip_into,
    unzip_into_bounded, walk_parts, walk_step, zip_dir, ArchiveEntry, Canonical, CopyAction,
    DeleteAction, FileError, IgnoreList, Modified, NodeKind, Opened, OpenedAs, PackAction,
    PackWalk, RawEntry, SeenEntry, Unpack, UnpackStep, WalkAction,
};

fn config() -> Config {
    Config {
        paths: Paths {
            servers_dir: "/t/servers".into(),
            backups_dir: "/t/backups".into(),
            blueprints_dir: "/t/blueprints".into(),
            logs_dir: "/t/logs".into(),
            datalab_dir: "/t/datalab".into(),
        },
        mirror: Mirror { enabled: false, path: None, keep: 0 },
    }
}

fn server(uuid: &str) -> Server {
    Server {
        id: 1,
        uuid: uuid.into(),
        name: "test".into(),
        blueprint_id: 0,
        startup: String::new(),
        port: None,
        memory_mb: 1024,
        disk_mb: 1024,
        cpu_percent: 100,
    }
}

/// Joins an entry where links stand at the given paths.
fn joined(dest: &str, name: &str, links: &[&str]) -> Result<String, FileError> {
    let found = probe_paths(dest, name).iter().map(|p| links.contains(&p.as_str())).collect();
    safe_join(dest, name, &found)
}

#[test]
fn safe_join_normalizes_and_blocks_escape() {
    assert_eq!(joined("/srv", "a/b.txt", &[]).unwrap(), "/srv/a/b.txt");
    assert_eq!(joined("/srv", "a/./b.txt", &[]).unwrap(), "/srv/a/b.txt");
    assert_eq!(joined("/srv", "a/../b.txt", &[]).unwrap(), "/srv/b.txt");
    assert!(joined("/srv", "../evil.txt", &[]).is_err());
    assert!(joined("/srv", "/abs.txt", &[]).is_err());
    assert!(joined("/srv", "a/../../evil.txt", &[]).is_err());
}

#[test]
fn safe_join_rejects_existing_symlink_parent() {
    assert!(joined("/dest", "escape/passwd", &["/dest/escape"]).is_err());
}

/// Resolves a request where the directory stands and some names are links.
fn resolved(rel: &str, links: &[(&str, &str)]) -> Result<String, FileError> {
    let cfg = config();
    let srv = server("s1");
    let root = server_root(&cfg, &srv);
    let path = match requested_path(&cfg, &srv, rel) {
        Ok(p) => p,
        Err(e) => return Err(e),
    };
    let target = |p: &str| {
        if root.starts_with(p) {
            return Some(p.to_string());
        }
        links.iter().find(|(l, _)| format!("{root}/{l}") == p).map(|(_, t)| t.to_string())
    };
    let known = Path::new(&path).ancestors().map(|p| target(p.to_str().unwrap())).collect();
    let seen = Canonical { known };
    resolve(&cfg, &srv, rel, &seen, &Some(root))
}

#[test]
fn resolve_always_contains_even_when_flag_enabled() {
    let links = [("link", "/t/secret.txt")];
    assert!(resolved("link", &links).is_err());
    assert!(resolved("../secret.txt", &links).is_err());
    assert!(resolved("a/../../x", &links).is_err());
    assert_eq!(resolved("sub/file.txt", &links).unwrap(), "/t/servers/s1/sub/file.txt");
}

#[test]
fn pull_dest_containment_rejects_traversal_and_symlink_escape() {
    let links = [("link", "/t/secret.txt"), ("dirlink", "/t/external")];
    assert!(resolved("../secret.txt", &links).is_err());
    assert!(resolved("a/../../x", &links).is_err());
    assert!(resolved("link/evil.txt", &links).is_err());
    assert!(resolved("dirlink", &links).is_err());
    assert!(resolved("dirlink/pwn.txt", &links).is_err());
    assert!(resolved("dirlink/not/yet/there.txt", &links).is_err());
    let abs = resolved("sub/deep/file.txt", &links).unwrap();
    assert!(abs.starts_with("/t/servers/s1"));
}

#[test]
fn copy_never_dereferences_symlinks() {
    assert_eq!(copy_action(NodeKind::Symlink, 0o777), CopyAction::Relink);
    assert_eq!(copy_action(NodeKind::Directory, 0o755), CopyAction::Descend);
    assert_eq!(copy_action(NodeKind::File, 0o644), CopyAction::CopyBytes { mode: 0o644 });
    assert!(resolved("link", &[("link", "/t/secret.txt")]).is_err());
}

#[test]
fn copy_dir_into_itself_is_rejected() {
    assert_eq!(
        copy("d", "d/inner", "/t/servers/s1/d", "/t/servers/s1/d/inner").err(),
        Some(FileError::CopyIntoItself)
    );
    let t = copy("d", "d2/e", "/t/servers/s1/d", "/t/servers/s1/d2/e").unwrap();
    assert_eq!((t.from_name.as_str(), t.to_dir.as_str(), t.to_name.as_str()), ("d", "d2", "e"));
}

#[test]
fn delete_removes_trees_and_never_follows_symlinks() {
    assert_eq!(delete_action(NodeKind::Directory), DeleteAction::Descend);
    assert_eq!(delete_action(NodeKind::Symlink), DeleteAction::Unlink);
    assert_eq!(delete_action(NodeKind::File), DeleteAction::Unlink);
    let place = delete("d/sub/x.txt").unwrap();
    assert_eq!((place.dir.as_str(), place.name.as_str()), ("d/sub", "x.txt"));
    assert!(delete("/").is_err());
    assert!(delete(".").is_err());
}

fn seen(name: &str, inode: u64, kind: NodeKind, len: u64) -> SeenEntry {
    SeenEntry {
        name: name.into(),
        opened: OpenedAs::Node { device: 1, inode, kind, len, mode: 0o640, mtime: Some(7) },
    }
}

fn link(name: &str) -> SeenEntry {
    SeenEntry { name: name.into(), opened: OpenedAs::Link }
}

fn packed(walk: &mut PackWalk, entries: &[SeenEntry]) -> Vec<String> {
    let mut names = Vec::new();
    for e in entries {
        match walk.entry(e) {
            PackAction::File { rel, .. } => names.push(rel),
            PackAction::Directory { rel, .. } => {
                names.push(rel);
                walk.leave();
            }
            PackAction::Skip => {}
            PackAction::Fail => panic!("{}", e.name),
        }
    }
    names
}

#[test]
fn zip_archive_skips_symlinks_and_output_file() {
    let found = [seen("a.txt", 10, NodeKind::File, 2), link("link.txt"), seen("out.zip", 99, NodeKind::File, 0)];
    let mut walk = zip_dir(1, 99);
    let names = packed(&mut walk, &found);
    assert_eq!(names, vec!["a.txt"]);
    // What was packed comes out again.
    let mut w = zip::ZipWriter::new(Cursor::new(Vec::new()));
    w.start_file("a.txt", stored()).unwrap();
    w.write_all(b"hi").unwrap();
    let bytes = w.finish().unwrap().into_inner();
    let out = unzip(&bytes, Limits::standard()).unwrap();
    assert_eq!(out, vec![("a.txt".to_string(), b"hi".to_vec())]);
}

fn stored() -> zip::write::FileOptions {
    zip::write::FileOptions::default().compression_method(zip::CompressionMethod::Stored)
}

fn limits(entries: usize, file: u64, total: u64) -> Limits {
    Limits { max_entries: entries, max_file: file, max_total: total }
}

/// Unpacks one entry, as far as the library lets it.
fn unpack_one(
    u: &mut Unpack,
    entry: &ArchiveEntry,
    data: &[u8],
    out: &mut Vec<(String, Vec<u8>)>,
) -> Result<(), FileError> {
    let links = vec![false; probe_paths(&u.dest, &entry.name).len()];
    match u.entry(entry, &links)? {
        UnpackStep::Directory { .. } => Ok(()),
        UnpackStep::File { dir, name, cap } => {
            let n = data.len().min(cap as usize);
            u.written(n as u64, None)?;
            let path = if dir.is_empty() { name } else { format!("{dir}/{name}") };
            out.push((path, data[..n].to_vec()));
            Ok(())
        }
    }
}

fn unzip(bytes: &[u8], l: Limits) -> Result<Vec<(String, Vec<u8>)>, FileError> {
    let mut z = zip::ZipArchive::new(Cursor::new(bytes.to_vec())).unwrap();
    let mut u = unzip_into_bounded("/t/servers/s1/x", z.len(), l)?;
    let mut out = Vec::new();
    for i in 0..z.len() {
        let mut f = z.by_index(i).unwrap();
        let entry = ArchiveEntry { name: f.name().into(), kind: EntryKind::File, declared: f.size() };
        let mut data = Vec::new();
        f.read_to_end(&mut data).unwrap();
        unpack_one(&mut u, &entry, &data, &mut out)?;
    }
    Ok(out)
}

fn untar(bytes: &[u8], l: Limits) -> Result<Vec<(String, Vec<u8>)>, FileError> {
    let mut a = tar::Archive::new(flate2::read::GzDecoder::new(bytes));
    let mut u = extract_tar_gz_bounded("/t/servers/s1/t", l);
    let mut out = Vec::new();
    for e in a.entries().unwrap() {
        let mut e = e.unwrap();
        let t = e.header().entry_type();
        let kind = entry_kind(t.as_byte());
        let name = String::from_utf8(e.path_bytes().into_owned()).unwrap();
        let mut data = Vec::new();
        e.read_to_end(&mut data).unwrap();
        let entry = ArchiveEntry { name, kind, declared: data.len() as u64 };
        unpack_one(&mut u, &entry, &data, &mut out)?;
    }
    Ok(out)
}

#[test]
fn unzip_rejects_traversal_entries() {
    let mut z = zip::ZipWriter::new(Cursor::new(Vec::new()));
    z.start_file("../evil.txt", stored()).unwrap();
    z.write_all(b"pwn").unwrap();
    z.start_file("/abs.txt", stored()).unwrap();
    z.write_all(b"pwn").unwrap();
    let bytes = z.finish().unwrap().into_inner();
    assert!(unzip(&bytes, Limits::standard()).is_err());
}

#[test]
fn unzip_bounds_entry_count_and_sizes() {
    let mut z = zip::ZipWriter::new(Cursor::new(Vec::new()));
    for name in ["f0", "f1", "f2"] {
        z.start_file(name, stored()).unwrap();
        z.write_all(name.as_bytes()).unwrap();
    }
    let bytes = z.finish().unwrap().into_inner();
    assert!(unzip(&bytes, limits(2, 1 << 20, 1 << 20)).is_err());
    assert!(unzip(&bytes, limits(10, 1, 1 << 20)).is_err());
    assert!(unzip(&bytes, limits(10, 1 << 20, 4)).is_err());
    let out = unzip(&bytes, limits(10, 1 << 20, 1 << 20)).unwrap();
    assert_eq!(out[2], ("f2".to_string(), b"f2".to_vec()));
}

#[test]
fn tar_archive_skips_symlinks_and_output() {
    let found = [seen("b.txt", 10, NodeKind::File, 2), link("link2.txt"), seen("out.tar.gz", 99, NodeKind::File, 0)];
    let mut walk = tar_gz_dir(1, 99);
    assert_eq!(packed(&mut walk, &found), vec!["b.txt"]);
    let out = untar(&tar_gz(&["b.txt"], b"hi"), Limits::standard()).unwrap();
    assert_eq!(out, vec![("b.txt".to_string(), b"hi".to_vec())]);
}

fn tar_gz(names: &[&str], data: &[u8]) -> Vec<u8> {
    let enc = flate2::write::GzEncoder::new(Vec::new(), flate2::Compression::default());
    let mut tar = tar::Builder::new(enc);
    for name in names {
        let mut h = tar::Header::new_gnu();
        h.set_size(data.len() as u64);
        h.set_mode(0o644);
        h.set_path(name).unwrap();
        tar.append_data(&mut h, name, &mut Cursor::new(data)).unwrap();
    }
    tar.into_inner().unwrap().finish().unwrap()
}

/// One entry under a name that the builder itself would refuse.
fn raw_tar_archive(name: &[u8], data: &[u8]) -> Vec<u8> {
    let mut h = [0u8; 512];
    let n = name.len().min(100);
    h[..n].copy_from_slice(&name[..n]);
    let size = format!("{:011o}", data.len());
    h[124..135].copy_from_slice(size.as_bytes());
    h[156] = b'0';
    let sum: u32 = h.iter().map(|&b| b as u32).sum::<u32>() + 8 * 0x20;
    let ck = format!("{:06o}", sum);
    h[148..154].copy_from_slice(ck.as_bytes());
    h[154] = 0;
    h[155] = b' ';
    let mut out = h.to_vec();
    out.extend_from_slice(data);
    let pad = (512 - data.len() % 512) % 512;
    out.extend(vec![0u8; pad]);
    out.extend_from_slice(&[0u8; 1024]);
    out
}

#[test]
fn tar_extract_rejects_links_and_traversal_and_bounds() {
    let enc = flate2::write::GzEncoder::new(Vec::new(), flate2::Compression::default());
    let mut tar = tar::Builder::new(enc);
    let mut h = tar::Header::new_gnu();
    h.set_entry_type(tar::EntryType::Symlink);
    h.set_size(0);
    tar.append_link(&mut h, "lnk", "secret").unwrap();
    let links = tar.into_inner().unwrap().finish().unwrap();
    assert!(untar(&links, Limits::standard()).is_err());

    let mut enc = flate2::write::GzEncoder::new(Vec::new(), flate2::Compression::default());
    enc.write_all(&raw_tar_archive(b"../evil.txt", b"pwn")).unwrap();
    assert!(untar(&enc.finish().unwrap(), Limits::standard()).is_err());

    let two = tar_gz(&["a", "b"], b"x");
    assert!(untar(&two, limits(1, 1 << 20, 1 << 20)).is_err());
    assert!(untar(&two, limits(10, 0, 1 << 20)).is_err());
    assert!(untar(&two, limits(10, 1 << 20, 1)).is_err());
    let out = untar(&two, limits(10, 1 << 20, 1 << 20)).unwrap();
    assert_eq!(out[1], ("b".to_string(), b"x".to_vec()));
}

/// What a walk hands out for a tree two levels deep.
fn walked(mut walk: PackWalk) -> Vec<String> {
    let mut rels = Vec::new();
    for e in [seen("a.txt", 10, NodeKind::File, 2), seen("d", 11, NodeKind::Directory, 0), seen("..x", 12, NodeKind::File, 2)] {
        match walk.entry(&e) {
            PackAction::File { rel, .. } => rels.push(rel),
            PackAction::Directory { rel, .. } => rels.push(rel),
            _ => panic!("{}", e.name),
        }
    }
    rels
}

#[test]
fn what_is_packed_is_unpacked_under_its_own_path() {
    let rels = walked(tar_gz_dir(1, 99));
    assert_eq!(rels, vec!["a.txt", "d", "d/..x"]);
    let files = [rels[0].as_str(), rels[2].as_str()];
    let out = untar(&tar_gz(&files, b"hi"), Limits::standard()).unwrap();
    assert_eq!(out, vec![("a.txt".to_string(), b"hi".to_vec()), ("d/..x".to_string(), b"hi".to_vec())]);

    let rels = walked(zip_dir(1, 99));
    let mut z = zip::ZipWriter::new(Cursor::new(Vec::new()));
    for rel in [&rels[0], &rels[2]] {
        z.start_file(rel.as_str(), stored()).unwrap();
        z.write_all(b"hi").unwrap();
    }
    let bytes = z.finish().unwrap().into_inner();
    let out = unzip(&bytes, limits(2, 2, 4)).unwrap();
    assert_eq!(out, vec![("a.txt".to_string(), b"hi".to_vec()), ("d/..x".to_string(), b"hi".to_vec())]);
    assert!(unzip(&bytes, limits(2, 2, 3)).is_err());
}

#[test]
fn standard_limits_admit_ordinary_archives() {
    assert!(unzip_into("/d", 10).is_ok());
    assert_eq!(extract_tar_gz_into("/d").dest, "/d");
    let mut u = extract_tar_gz_into("/d");
    let step = u.entry(&ArchiveEntry { name: "a/".into(), kind: EntryKind::Directory, declared: 0 }, &vec![false; 8]);
    match step.unwrap() {
        UnpackStep::Directory { rel } => assert_eq!(rel, "a"),
        other => panic!("{other:?}"),
    }
    u.entry(&ArchiveEntry { name: "a/b".into(), kind: EntryKind::File, declared: 1 }, &vec![false; 8]).unwrap();
    assert_eq!(u.written(1, Some(0o4755)).unwrap(), Some(0o755));
}

#[test]
fn excluded_entries_are_not_packed() {
    let ignore = IgnoreList::parse("# logs\n*.log\n\ncache/").unwrap();
    assert!(!ignore.is_empty() && IgnoreList::none().is_empty());
    assert!(ignore.excludes("deep/x.log"));
    assert!(!ignore.excludes("x.txt"));
    assert!(IgnoreList::parse("[").is_err());
    assert_eq!(parse_patterns(" a \n#c\n\nb"), vec!["a", "b"]);
    assert!(pattern_excludes("*.log", false, true));
    let mut walk = tar_gz_dir_excluding(1, 99, ignore);
    let found = [seen("x.log", 10, NodeKind::File, 2), seen("y.txt", 11, NodeKind::File, 2)];
    assert_eq!(packed(&mut walk, &found), vec!["y.txt"]);
}

#[test]
fn walks_step_by_step() {
    assert_eq!(walk_parts("a//b/./c").unwrap(), vec!["a", "b", "c"]);
    assert_eq!(walk_parts("a/../b"), Err(FileError::Traversal));
    assert_eq!(walk_step(0, 2, true, Opened::NotFound), WalkAction::MakeDirectory);
    assert_eq!(walk_step(0, 2, false, Opened::NotFound), WalkAction::Fail);
    assert_eq!(walk_step(0, 2, false, Opened::Yes), WalkAction::Descend);
    assert_eq!(walk_step(1, 2, false, Opened::Yes), WalkAction::Finish);
    assert_eq!(walk_step(0, 2, true, Opened::Failed), WalkAction::Fail);
}

#[test]
fn requests_are_planned() {
    assert_eq!(parent_rel("a/b"), "a");
    let t = rename("a/b", "c/d").unwrap().unwrap();
    assert_eq!((t.from_dir.as_str(), t.from_name.as_str(), t.to_dir.as_str(), t.to_name.as_str()), ("a", "b", "c", "d"));
    assert!(rename("a", "a").unwrap().is_none());
    let t = move_into("a/b", "/x").unwrap();
    assert_eq!((t.to_dir.as_str(), t.to_name.as_str()), ("x", "b"));
    assert!(is_dot_entry(b".") && is_dot_entry(b"..") && !is_dot_entry(b".a"));
    assert_eq!(chmod(0o100644), 0o644);
    assert_eq!(read_file(true, 0, 10), Err(FileError::IsDirectory));
    assert_eq!(read_file(false, 11, 10), Err(FileError::TooLargeInline));
    assert_eq!(read_file(false, 10, 10), Ok(()));
    assert_eq!(download_file("a/b.txt", false).unwrap(), "b.txt");
    assert_eq!(download_file("a", true), Err(FileError::DirectoryDownload));
    let p = open_dir_create("a/b").unwrap().unwrap();
    assert_eq!((p.dir.as_str(), p.name.as_str()), ("a", "b"));
}

#[test]
fn listings_put_directories_first() {
    let e = |name: &str, kind| RawEntry { name: name.into(), len: 4, modified: Modified::At(0), kind, mode: 0o100644 };
    let raw = vec![e("b.txt", NodeKind::File), e("zdir", NodeKind::Directory), e("A.json", NodeKind::File)];
    let out = list_dir(&config(), &server("s1"), "/t/servers/s1", &raw);
    let names: Vec<&str> = out.iter().map(|f| f.name.as_str()).collect();
    assert_eq!(names, vec!["zdir", "A.json", "b.txt"]);
    assert_eq!(out[1].mime, "application/json");
    assert_eq!(out[2].extension, "txt");
    assert_eq!(extension("a.tar.gz"), "gz");
    assert_eq!(content_kind(&config(), &server("s1"), "x.html"), "text/html");
}

#[test]
fn uploads_are_decoded() {
    assert_eq!(base64_upload("aGk=").unwrap(), b"hi");
    assert_eq!(base64_upload("!!!!").unwrap_err(), "Invalid symbol 33, offset 0.");
}
