use wasmldr::archive::build_tree;
use wasmldr::error::Error;
use wasmldr::virtfs::Node;

fn tar_with_files(files: &[(&str, &[u8])]) -> Vec<u8> {
    let mut b = tar::Builder::new(Vec::new());
    for (path, data) in files {
        let mut h = tar::Header::new_gnu();
        h.set_size(data.len() as u64);
        h.set_entry_type(tar::EntryType::Regular);
        h.set_mode(0o644);
        h.set_cksum();
        b.append_data(&mut h, path, *data).unwrap();
    }
    b.into_inner().unwrap()
}

fn tar_dir_entry(b: &mut tar::Builder<Vec<u8>>, path: &str) {
    let mut h = tar::Header::new_gnu();
    h.set_size(0);
    h.set_entry_type(tar::EntryType::Directory);
    h.set_mode(0o755);
    h.set_cksum();
    b.append_data(&mut h, path, &[][..]).unwrap();
}

#[test]
fn tree_lookup_returns_each_entry() {
    let ar = tar_with_files(&[
        ("a.txt", b"alpha"),
        ("dir/b.txt", b"beta"),
        ("dir/sub/c.txt", b"gamma"),
    ]);
    let root = build_tree(&ar).unwrap();
    for (path, content) in [
        ("a.txt", &b"alpha"[..]),
        ("dir/b.txt", b"beta"),
        ("dir/sub/c.txt", b"gamma"),
    ] {
        let node = root.lookup(path).unwrap();
        assert_eq!(node.read_all(), content.to_vec());
    }
}

#[test]
fn tree_lookup_missing_is_not_found() {
    let ar = tar_with_files(&[("a.txt", b"alpha"), ("dir/b.txt", b"beta")]);
    let root = build_tree(&ar).unwrap();
    assert!(root.lookup("nope").is_none());
    assert!(root.lookup("dir/nope").is_none());
    assert!(root.lookup("a.txt/deeper").is_none());
}

#[test]
fn tree_lookup_empty_path_is_root() {
    let ar = tar_with_files(&[("a.txt", b"alpha")]);
    let root = build_tree(&ar).unwrap();
    let node = root.lookup("").unwrap();
    assert!(node.is_directory());
}

#[test]
fn tree_lookup_finds_intermediate_directory() {
    let ar = tar_with_files(&[("dir/sub/c.txt", b"gamma")]);
    let root = build_tree(&ar).unwrap();
    assert!(root.lookup("dir").unwrap().is_directory());
    assert!(root.lookup("dir/sub").unwrap().is_directory());
}

#[test]
fn tree_collision_file_then_nested_fails() {
    let ar = tar_with_files(&[("a", b"x"), ("a/b", b"y")]);
    match build_tree(&ar) {
        Err(Error::InstantiationFailed) => {}
        _ => panic!("collision must fail construction"),
    }
}

#[test]
fn tree_collision_nested_then_file_fails() {
    let ar = tar_with_files(&[("a/b", b"y"), ("a", b"x")]);
    match build_tree(&ar) {
        Err(Error::InstantiationFailed) => {}
        _ => panic!("collision must fail construction"),
    }
}

#[test]
fn tree_duplicate_path_last_write_wins() {
    let ar = tar_with_files(&[("a.txt", b"old"), ("a.txt", b"new")]);
    let root = build_tree(&ar).unwrap();
    assert_eq!(root.lookup("a.txt").unwrap().read_all(), b"new".to_vec());
}

#[test]
fn tree_explicit_directory_entries_tolerated() {
    let mut b = tar::Builder::new(Vec::new());
    tar_dir_entry(&mut b, "dir/");
    let mut h = tar::Header::new_gnu();
    h.set_size(4);
    h.set_entry_type(tar::EntryType::Regular);
    h.set_mode(0o644);
    h.set_cksum();
    b.append_data(&mut h, "dir/f.txt", &b"data"[..]).unwrap();
    tar_dir_entry(&mut b, "dir/");
    let ar = b.into_inner().unwrap();
    let root = build_tree(&ar).unwrap();
    assert_eq!(root.lookup("dir/f.txt").unwrap().read_all(), b"data".to_vec());
}

#[test]
fn tree_zero_length_file_reads_zero() {
    let ar = tar_with_files(&[("empty", b"")]);
    let root = build_tree(&ar).unwrap();
    let node = root.lookup("empty").unwrap();
    assert_eq!(node.read_all(), Vec::<u8>::new());
    let mut buf = vec![0u8; 8];
    assert_eq!(node.read_at(&mut buf, 0), 0);
}

#[test]
fn read_at_positional_semantics() {
    let ar = tar_with_files(&[("f", b"abcdef")]);
    let root = build_tree(&ar).unwrap();
    let node = root.lookup("f").unwrap();

    let mut buf = vec![0u8; 4];
    assert_eq!(node.read_at(&mut buf, 0), 4);
    assert_eq!(buf, b"abcd".to_vec());

    let mut buf = vec![0u8; 4];
    assert_eq!(node.read_at(&mut buf, 4), 2);
    assert_eq!(&buf[..2], b"ef");

    let mut buf = vec![0u8; 4];
    assert_eq!(node.read_at(&mut buf, 6), 0);
    assert_eq!(node.read_at(&mut buf, 100), 0);
}

#[test]
fn read_all_concatenates_positional_reads() {
    let ar = tar_with_files(&[("f", b"hello world")]);
    let root = build_tree(&ar).unwrap();
    let node = root.lookup("f").unwrap();
    let mut collected = Vec::new();
    let mut off = 0usize;
    loop {
        let mut buf = vec![0u8; 3];
        let n = node.read_at(&mut buf, off);
        if n == 0 {
            break;
        }
        collected.extend_from_slice(&buf[..n]);
        off += n;
    }
    assert_eq!(collected, b"hello world".to_vec());
    assert_eq!(collected, node.read_all());
}

#[test]
fn empty_directory_finds_nothing() {
    let root = Node::empty_directory();
    assert!(root.lookup("anything").is_none());
    assert!(root.lookup("").unwrap().is_directory());
}

#[test]
fn malformed_archive_fails() {
    let junk = vec![1u8; 700];
    match build_tree(&junk) {
        Err(Error::InstantiationFailed) => {}
        _ => panic!("junk bytes must not build a tree"),
    }
}
