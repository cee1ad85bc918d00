use wasmldr::bundle::find_archive_section;
use wasmldr::error::Error;
use wasmldr::path::split_path;

fn leb(mut v: u64) -> Vec<u8> {
    let mut out = Vec::new();
    loop {
        let byte = (v % 128) as u8;
        v /= 128;
        if v == 0 {
            out.push(byte);
            break;
        }
        out.push(byte | 0x80);
    }
    out
}

fn custom_section(name: &[u8], content: &[u8]) -> Vec<u8> {
    let mut payload = leb(name.len() as u64);
    payload.extend_from_slice(name);
    payload.extend_from_slice(content);
    let mut out = vec![0u8];
    out.extend_from_slice(&leb(payload.len() as u64));
    out.extend_from_slice(&payload);
    out
}

fn plain_section(id: u8, content: &[u8]) -> Vec<u8> {
    let mut out = vec![id];
    out.extend_from_slice(&leb(content.len() as u64));
    out.extend_from_slice(content);
    out
}

fn container(sections: &[Vec<u8>]) -> Vec<u8> {
    let mut out = vec![0x00, 0x61, 0x73, 0x6d, 0x01, 0x00, 0x00, 0x00];
    for s in sections {
        out.extend_from_slice(s);
    }
    out
}

#[test]
fn container_finds_named_archive() {
    let payload = vec![7u8; 300];
    let bytes = container(&[
        plain_section(1, &[0x60, 0x00, 0x00]),
        custom_section(b"other", b"ignored"),
        custom_section(b"bundle", &payload),
    ]);
    let (off, len) = find_archive_section(&bytes).unwrap().unwrap();
    assert_eq!(&bytes[off..off + len], &payload[..]);
}

#[test]
fn container_without_archive_is_fine() {
    let bytes = container(&[plain_section(3, b"xyz"), custom_section(b"name", b"data")]);
    assert!(find_archive_section(&bytes).unwrap().is_none());
}

#[test]
fn container_empty_section_list_is_fine() {
    let bytes = container(&[]);
    assert!(find_archive_section(&bytes).unwrap().is_none());
}

#[test]
fn container_bad_magic_fails() {
    let mut bytes = container(&[custom_section(b"bundle", b"x")]);
    bytes[0] = 0xff;
    match find_archive_section(&bytes) {
        Err(Error::InstantiationFailed) => {}
        _ => panic!("bad magic must fail"),
    }
}

#[test]
fn container_too_short_fails() {
    match find_archive_section(&vec![0x00, 0x61, 0x73]) {
        Err(Error::InstantiationFailed) => {}
        _ => panic!("truncated preamble must fail"),
    }
}

#[test]
fn container_truncated_section_fails() {
    let mut bytes = container(&[]);
    bytes.push(1u8);
    bytes.extend_from_slice(&leb(100));
    bytes.extend_from_slice(&[0u8; 10]);
    match find_archive_section(&bytes) {
        Err(Error::InstantiationFailed) => {}
        _ => panic!("a section larger than the input must fail"),
    }
}

#[test]
fn container_first_archive_section_wins() {
    let bytes = container(&[
        custom_section(b"bundle", b"first"),
        custom_section(b"bundle", b"second"),
    ]);
    let (off, len) = find_archive_section(&bytes).unwrap().unwrap();
    assert_eq!(&bytes[off..off + len], b"first");
}

#[test]
fn split_path_drops_empty_segments() {
    assert_eq!(split_path("a/b/c"), vec!["a", "b", "c"]);
    assert_eq!(split_path("/a//b/"), vec!["a", "b"]);
    assert_eq!(split_path(""), Vec::<String>::new());
    assert_eq!(split_path("///"), Vec::<String>::new());
    assert_eq!(split_path("one"), vec!["one"]);
}
