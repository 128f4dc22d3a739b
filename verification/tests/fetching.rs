use std::io::Write;

use log_triage::fetcher::{archive_url, is_source, unpack_sources, FetchError};

fn archive(entries: &[(&str, &[u8])]) -> Vec<u8> {
    let mut builder = tar::Builder::new(Vec::new());
    for (path, content) in entries {
        let mut header = tar::Header::new_gnu();
        header.set_size(content.len() as u64);
        header.set_mode(0o644);
        header.set_cksum();
        builder.append_data(&mut header, path, *content).unwrap();
    }
    let tarball = builder.into_inner().unwrap();
    let mut encoder = flate2::write::GzEncoder::new(Vec::new(), flate2::Compression::default());
    encoder.write_all(&tarball).unwrap();
    encoder.finish().unwrap()
}

#[test]
fn address_of_the_archive() {
    assert_eq!(
        archive_url("https://github.com/paritytech/polkadot-sdk", "master"),
        "https://github.com/paritytech/polkadot-sdk/archive/master.tar.gz"
    );
    assert_eq!(archive_url("", ""), "/archive/.tar.gz");
}

#[test]
fn source_paths_end_in_rs() {
    assert!(is_source("src/lib.rs"));
    assert!(is_source(".rs"));
    assert!(!is_source("src/lib.rs.orig"));
    assert!(!is_source("Cargo.toml"));
    assert!(!is_source("rs"));
    assert!(!is_source(""));
}

#[test]
fn source_files_are_unpacked_in_order() {
    let body = archive(&[
        ("repo/src/b.rs", b"fn b() {}"),
        ("repo/README.md", b"# readme"),
        ("repo/picture.png", &[0xff, 0xfe, 0x00]),
        ("repo/src/a.rs", "// caf\u{e9}".as_bytes()),
    ]);
    assert_eq!(
        unpack_sources(&body),
        Ok(vec![
            ("repo/src/b.rs".to_string(), "fn b() {}".to_string()),
            ("repo/src/a.rs".to_string(), "// caf\u{e9}".to_string()),
        ])
    );
}

#[test]
fn archive_without_sources() {
    assert_eq!(unpack_sources(&archive(&[("notes.txt", b"x")])), Ok(Vec::new()));
    assert_eq!(unpack_sources(&archive(&[])), Ok(Vec::new()));
}

#[test]
fn bytes_that_are_no_archive() {
    assert_eq!(unpack_sources(b"certainly not gzip"), Err(FetchError::Archive));
}

#[test]
fn source_that_is_not_text() {
    let body = archive(&[("ok.rs", b"fn ok() {}"), ("bad.rs", &[0x66, 0xff, 0x6f]), ("late.rs", b"")]);
    assert_eq!(unpack_sources(&body), Err(FetchError::Encoding("bad.rs".to_string())));
}
