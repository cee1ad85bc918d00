use wasmldr::archive::build_tree;
use wasmldr::config::{resolve_config, Config, ReadOnly, Stdio, WriteOnly};
use wasmldr::error::Error;
use wasmldr::sandbox::{engine_failure, plan_stdio, provision, EngineStep, OutSink, StdinSource};
use wasmldr::virtfs::Node;

fn tar_with_files(files: &[(&str, &[u8])]) -> Vec<u8> {
    let mut b = tar::Builder::new(Vec::new());
    for (path, data) in files {
        let mut h = tar::Header::new_gnu();
        h.set_size(data.len() as u64);
        h.set_entry_type(tar::EntryType::Regular);
        h.set_mode(0o644);
        h.set_cksum();
        b.append_data(&mut h, path, *data).unwrap();
    }
    b.into_inner().unwrap()
}

fn leb(mut v: u64) -> Vec<u8> {
    let mut out = Vec::new();
    loop {
        let byte = (v % 128) as u8;
        v /= 128;
        if v == 0 {
            out.push(byte);
            break;
        }
        out.push(byte | 0x80);
    }
    out
}

fn bundle_with_archive(archive: &[u8]) -> Vec<u8> {
    let mut payload = leb(6);
    payload.extend_from_slice(b"bundle");
    payload.extend_from_slice(archive);
    let mut out = vec![0x00, 0x61, 0x73, 0x6d, 0x01, 0x00, 0x00, 0x00];
    out.push(0u8);
    out.extend_from_slice(&leb(payload.len() as u64));
    out.extend_from_slice(&payload);
    out
}

#[test]
fn config_default_when_resource_absent() {
    let ar = tar_with_files(&[("some.txt", b"x")]);
    let root = build_tree(&ar).unwrap();
    let cfg = resolve_config(&root).unwrap();
    assert!(matches!(cfg.stdio.stdin, ReadOnly::Null));
    assert!(matches!(cfg.stdio.stdout, WriteOnly::Null));
    assert!(matches!(cfg.stdio.stderr, WriteOnly::Null));
}

#[test]
fn config_parses_recognized_fields() {
    let yaml = b"stdio:\n  stdin: bundle:in.txt\n  stdout: file:out.log\n  stderr: inherit\n";
    let ar = tar_with_files(&[("config.yaml", yaml)]);
    let root = build_tree(&ar).unwrap();
    let cfg = resolve_config(&root).unwrap();
    match &cfg.stdio.stdin {
        ReadOnly::Bundle(p) => assert_eq!(p, "in.txt"),
        _ => panic!("stdin must be a bundle path"),
    }
    match &cfg.stdio.stdout {
        WriteOnly::File(p) => assert_eq!(p, "out.log"),
        _ => panic!("stdout must be a host file"),
    }
    assert!(matches!(cfg.stdio.stderr, WriteOnly::Inherit));
}

#[test]
fn config_null_and_missing_fields_discard() {
    let yaml = b"stdio:\n  stdin: null\n";
    let ar = tar_with_files(&[("config.yaml", yaml)]);
    let root = build_tree(&ar).unwrap();
    let cfg = resolve_config(&root).unwrap();
    assert!(matches!(cfg.stdio.stdin, ReadOnly::Null));
    assert!(matches!(cfg.stdio.stdout, WriteOnly::Null));
    assert!(matches!(cfg.stdio.stderr, WriteOnly::Null));
}

#[test]
fn config_unrecognized_scalar_fails() {
    let yaml = b"stdio:\n  stdin: socket:whatever\n";
    let ar = tar_with_files(&[("config.yaml", yaml)]);
    let root = build_tree(&ar).unwrap();
    match resolve_config(&root) {
        Err(Error::InstantiationFailed) => {}
        _ => panic!("unrecognized stdio scalar must fail"),
    }
}

#[test]
fn config_undeserializable_resource_fails() {
    let ar = tar_with_files(&[("config.yaml", b"]][[ not yaml: [")]);
    let root = build_tree(&ar).unwrap();
    match resolve_config(&root) {
        Err(Error::InstantiationFailed) => {}
        _ => panic!("bad yaml must fail"),
    }
}

#[test]
fn config_resource_as_directory_fails() {
    let ar = tar_with_files(&[("config.yaml/oops", b"x")]);
    let root = build_tree(&ar).unwrap();
    match resolve_config(&root) {
        Err(Error::InstantiationFailed) => {}
        _ => panic!("a directory at the resource path must fail"),
    }
}

#[test]
fn stdin_bundle_path_yields_file_bytes() {
    let ar = tar_with_files(&[("in.txt", b"hi")]);
    let root = build_tree(&ar).unwrap();
    let cfg = Config {
        stdio: Stdio {
            stdin: ReadOnly::Bundle("in.txt".to_owned()),
            stdout: WriteOnly::Null,
            stderr: WriteOnly::Null,
        },
    };
    let plan = plan_stdio(&cfg, &root).unwrap();
    match &plan.stdin {
        StdinSource::BundleBytes(b) => assert_eq!(b, &b"hi".to_vec()),
        _ => panic!("bundle stdin must be in-memory bytes"),
    }
}

#[test]
fn stdin_bundle_path_missing_is_configuration_error() {
    let root = Node::empty_directory();
    let cfg = Config {
        stdio: Stdio {
            stdin: ReadOnly::Bundle("absent".to_owned()),
            stdout: WriteOnly::Null,
            stderr: WriteOnly::Null,
        },
    };
    match plan_stdio(&cfg, &root) {
        Err(Error::ConfigurationError) => {}
        _ => panic!("missing bundle stdin must be a configuration error"),
    }
}

#[test]
fn stdin_bundle_path_to_directory_is_configuration_error() {
    let ar = tar_with_files(&[("dir/file", b"x")]);
    let root = build_tree(&ar).unwrap();
    let cfg = Config {
        stdio: Stdio {
            stdin: ReadOnly::Bundle("dir".to_owned()),
            stdout: WriteOnly::Null,
            stderr: WriteOnly::Null,
        },
    };
    match plan_stdio(&cfg, &root) {
        Err(Error::ConfigurationError) => {}
        _ => panic!("a directory bundle stdin must be a configuration error"),
    }
}

#[test]
fn stdio_host_and_inherit_bindings_map_through() {
    let root = Node::empty_directory();
    let cfg = Config {
        stdio: Stdio {
            stdin: ReadOnly::File("input.bin".to_owned()),
            stdout: WriteOnly::File("stdout.txt".to_owned()),
            stderr: WriteOnly::Inherit,
        },
    };
    let plan = plan_stdio(&cfg, &root).unwrap();
    match &plan.stdin {
        StdinSource::HostFile(p) => assert_eq!(p, "input.bin"),
        _ => panic!("host stdin expected"),
    }
    match &plan.stdout {
        OutSink::HostFile(p) => assert_eq!(p, "stdout.txt"),
        _ => panic!("host stdout expected"),
    }
    assert!(matches!(plan.stderr, OutSink::Inherit));
}

#[test]
fn provision_resolves_bundle_stdin_end_to_end() {
    let yaml = b"stdio:\n  stdin: bundle:in.txt\n";
    let ar = tar_with_files(&[("in.txt", b"hi"), ("config.yaml", yaml)]);
    let input = bundle_with_archive(&ar);
    let ctx = provision(&input).unwrap();
    match &ctx.stdio.stdin {
        StdinSource::BundleBytes(b) => assert_eq!(b, &b"hi".to_vec()),
        _ => panic!("bundle stdin must resolve to the file's bytes"),
    }
    let node = ctx.root.lookup("in.txt").unwrap();
    let mut buf = vec![0u8; 8];
    let n = node.read_at(&mut buf, 0);
    assert_eq!(&buf[..n], b"hi");
    assert_eq!(node.read_at(&mut buf, 2), 0);
}

#[test]
fn provision_without_archive_yields_empty_tree_and_defaults() {
    let input = vec![0x00, 0x61, 0x73, 0x6d, 0x01, 0x00, 0x00, 0x00];
    let ctx = provision(&input).unwrap();
    assert!(ctx.root.lookup("anything").is_none());
    assert!(matches!(ctx.stdio.stdin, StdinSource::Null));
    assert!(matches!(ctx.stdio.stdout, OutSink::Null));
    assert!(matches!(ctx.stdio.stderr, OutSink::Null));
}

#[test]
fn provision_malformed_container_fails() {
    match provision(&vec![9u8; 16]) {
        Err(Error::InstantiationFailed) => {}
        _ => panic!("a malformed container must fail provisioning"),
    }
}

#[test]
fn provision_unresolvable_stdin_is_configuration_error() {
    let yaml = b"stdio:\n  stdin: bundle:missing.txt\n";
    let ar = tar_with_files(&[("config.yaml", yaml)]);
    let input = bundle_with_archive(&ar);
    match provision(&input) {
        Err(Error::ConfigurationError) => {}
        _ => panic!("an unresolvable bundle stdin must be a configuration error"),
    }
}

#[test]
fn engine_stage_failures_map_to_error_kinds() {
    assert!(matches!(engine_failure(EngineStep::Compile), Error::InstantiationFailed));
    assert!(matches!(engine_failure(EngineStep::Link), Error::InstantiationFailed));
    assert!(matches!(engine_failure(EngineStep::Instantiate), Error::InstantiationFailed));
    assert!(matches!(engine_failure(EngineStep::ResolveEntry), Error::ExportNotFound));
    assert!(matches!(engine_failure(EngineStep::Invoke), Error::CallFailed));
}

#[test]
fn io_error_wraps_into_error_kind() {
    let e = std::io::Error::new(std::io::ErrorKind::NotFound, "gone");
    match Error::from(e) {
        Error::IoError(inner) => assert_eq!(inner.kind(), std::io::ErrorKind::NotFound),
        _ => panic!("io errors must map to the io error kind"),
    }
}
