use std::io::Write;

use dirpack::decode::{decode_archive, parse_frames};
use dirpack::encode::{encode_archive, encode_frames};
use dirpack::format::{DecodeError, Entry, Mode};
use dirpack::frame::{create_file_sep, file_sep, push_decimal, tag};

fn entry(path: &str, content: &[u8]) -> Entry {
    Entry { path: path.as_bytes().to_vec(), content: content.to_vec() }
}

fn header(path: &str, content: &[u8]) -> Vec<u8> {
    format!("===={}|{}====\n", path, tag(content)).into_bytes()
}

fn pairs(v: &[Entry]) -> Vec<(Vec<u8>, Vec<u8>)> {
    v.iter().map(|e| (e.path.clone(), e.content.clone())).collect()
}

const MODES: [Mode; 4] = [Mode::Plain, Mode::Base64, Mode::CompressedText, Mode::CompressedBinary];

#[test]
fn plain_scenario_two_files() {
    let es = vec![entry("./a/b.txt", b"hi"), entry("./c.txt", b"")];
    let a = encode_archive(Mode::Plain, &es);
    let mut expected = header("./a/b.txt", b"hi");
    expected.extend_from_slice(b"hi\n");
    expected.extend_from_slice(&header("./c.txt", b""));
    expected.extend_from_slice(b"\n");
    assert_eq!(a, expected);
    let d = decode_archive(Mode::Plain, &a).unwrap();
    assert_eq!(
        pairs(&d),
        vec![(b"./a/b.txt".to_vec(), b"hi".to_vec()), (b"./c.txt".to_vec(), Vec::new())]
    );
}

#[test]
fn base64_payload_text() {
    let es = vec![entry("x", b"hi")];
    let a = encode_archive(Mode::Base64, &es);
    let mut expected = header("x", b"hi");
    expected.extend_from_slice(b"aGk=\n");
    assert_eq!(a, expected);
}

#[test]
fn round_trip_every_encoded_mode() {
    let binary: Vec<u8> = (0u8..=255).chain([10u8, 10, 0, 61, 61, 61, 61, 10]).collect();
    let es = vec![
        entry("./a/b.txt", b"hi"),
        entry("./empty", b""),
        entry("./no_newline", b"last line"),
        entry("./lines", b"one\ntwo\n====x====\n"),
        entry("./bin", &binary),
    ];
    for mode in [Mode::Base64, Mode::CompressedText, Mode::CompressedBinary] {
        let a = encode_archive(mode, &es);
        let d = decode_archive(mode, &a).unwrap();
        assert_eq!(pairs(&d), pairs(&es));
    }
}

#[test]
fn round_trip_plain() {
    let es = vec![
        entry("./one", b"abc"),
        entry("./two", b""),
        entry("./three", b"one\ntwo\n"),
        entry("./four", b"\n\nx"),
    ];
    let a = encode_archive(Mode::Plain, &es);
    let d = decode_archive(Mode::Plain, &a).unwrap();
    assert_eq!(pairs(&d), pairs(&es));
}

#[test]
fn plain_drops_only_the_separator() {
    let d = parse_frames(Mode::Plain, b"====p|1====\na\n\n====q|2====\nb\n").unwrap();
    assert_eq!(pairs(&d), vec![(b"p".to_vec(), b"a\n".to_vec()), (b"q".to_vec(), b"b".to_vec())]);
}

#[test]
fn excluded_entries_never_decoded() {
    let es = vec![
        entry("./.git/config", b"x"),
        entry("./src/lib.rs", b"fn f() {}"),
        entry("./target/debug/app", b"y"),
        entry("./node_modules/m/index.js", b"z"),
        entry("./Cargo.lock", b"w"),
        entry("./out.out", b"old archive"),
        entry("./output/src/lib.rs", b"old output"),
    ];
    for mode in MODES {
        let a = encode_archive(mode, &es);
        let d = decode_archive(mode, &a).unwrap();
        let paths: Vec<Vec<u8>> = d.iter().map(|e| e.path.clone()).collect();
        assert_eq!(paths, vec![b"./src/lib.rs".to_vec()]);
    }
}

#[test]
fn second_run_skips_first_run_output() {
    let es = vec![entry("./a.txt", b"a")];
    let first = encode_archive(Mode::Base64, &es);
    let again = vec![entry("./a.txt", b"a"), entry("./out.out", &first), entry("./output/a.txt", b"a")];
    let second = encode_archive(Mode::Base64, &again);
    assert_eq!(first, second);
}

#[test]
fn mismatched_mode_is_not_the_content() {
    let es = vec![entry("./f", b"payload")];
    let a = encode_archive(Mode::Base64, &es);
    let d = decode_archive(Mode::Plain, &a).unwrap();
    assert_ne!(d[0].content, b"payload".to_vec());
    assert_eq!(d[0].content, b"cGF5bG9hZA==".to_vec());
    let c = encode_archive(Mode::CompressedBinary, &es);
    assert_eq!(decode_archive(Mode::CompressedText, &c).err(), Some(DecodeError::BadTextLayer));
}

#[test]
fn compressed_layers_change_the_stream() {
    let es = vec![entry("./f", b"payload")];
    let frames = encode_frames(Mode::CompressedBinary, &es);
    let bin = encode_archive(Mode::CompressedBinary, &es);
    assert_ne!(bin, frames);
    assert_eq!(bin[0], 0x78);
    let text = encode_archive(Mode::CompressedText, &es);
    assert_ne!(text, bin);
    assert!(text.iter().all(|c| c.is_ascii_alphanumeric() || *c == b'+' || *c == b'/' || *c == b'='));
}

#[test]
fn lines_before_first_header_are_dropped() {
    let text = b"stray\nlines\n====p|1====\nabc\n";
    let d = parse_frames(Mode::Plain, text).unwrap();
    assert_eq!(pairs(&d), vec![(b"p".to_vec(), b"abc".to_vec())]);
}

#[test]
fn header_path_stops_at_bar() {
    let d = parse_frames(Mode::Plain, b"====a|b|c====\nx").unwrap();
    assert_eq!(pairs(&d), vec![(b"a".to_vec(), b"x".to_vec())]);
}

#[test]
fn repeated_path_gives_two_files() {
    let d = parse_frames(Mode::Base64, b"====p|1====\nYQ==\n====p|2====\nYg==\n").unwrap();
    assert_eq!(pairs(&d), vec![(b"p".to_vec(), b"a".to_vec()), (b"p".to_vec(), b"b".to_vec())]);
}

#[test]
fn empty_archive_has_no_files() {
    for mode in MODES {
        let a = encode_archive(mode, &Vec::new());
        assert!(decode_archive(mode, &a).unwrap().is_empty());
    }
    assert!(parse_frames(Mode::Plain, b"").unwrap().is_empty());
}

#[test]
fn short_header_is_malformed() {
    assert_eq!(parse_frames(Mode::Plain, b"====\n").err(), Some(DecodeError::MalformedHeader));
    assert_eq!(parse_frames(Mode::Plain, b"=======\n").err(), Some(DecodeError::MalformedHeader));
    let d = parse_frames(Mode::Plain, b"========\n").unwrap();
    assert_eq!(pairs(&d), vec![(Vec::new(), Vec::new())]);
}

#[test]
fn bad_base64_payload_fails() {
    assert_eq!(
        parse_frames(Mode::Base64, b"====p|1====\nnot base64!\n").err(),
        Some(DecodeError::BadPayload)
    );
}

#[test]
fn bad_compressed_stream_fails() {
    assert_eq!(
        decode_archive(Mode::CompressedBinary, b"not zlib").err(),
        Some(DecodeError::BadCompressedStream)
    );
    assert_eq!(
        decode_archive(Mode::CompressedText, b"bm90IHpsaWI=").err(),
        Some(DecodeError::BadCompressedStream)
    );
}

#[test]
fn file_sep_layout() {
    assert_eq!(file_sep(b"a/b.txt", b"123"), b"====a/b.txt|123====\n".to_vec());
    assert_eq!(file_sep(b"", b""), b"====|====\n".to_vec());
}

#[test]
fn create_file_sep_uses_tag() {
    let h = create_file_sep(b"./x", b"data");
    assert_eq!(h, header("./x", b"data"));
    assert_eq!(h, create_file_sep(b"./x", b"data"));
    assert_ne!(h, create_file_sep(b"./x", b"date"));
}

#[test]
fn tag_is_deterministic() {
    assert_eq!(tag(b"same bytes"), tag(b"same bytes"));
    assert_ne!(tag(b"same bytes"), tag(b"same bytez"));
    assert_eq!(tag(b""), tag(&Vec::new()));
}

#[test]
fn decimal_digits() {
    for n in [0u64, 7, 10, 1234567890, u64::MAX] {
        let mut out = b"x".to_vec();
        push_decimal(n, &mut out);
        assert_eq!(out, format!("x{}", n).into_bytes());
    }
}

#[test]
fn decompressed_stream_must_be_text() {
    let mut e = flate2::write::ZlibEncoder::new(Vec::new(), flate2::Compression::default());
    e.write_all(&[0xff, 0xfe, 10]).unwrap();
    let z = e.finish().unwrap();
    assert_eq!(decode_archive(Mode::CompressedBinary, &z).err(), Some(DecodeError::NotText));
    let mut ok = flate2::write::ZlibEncoder::new(Vec::new(), flate2::Compression::default());
    ok.write_all("====./é|1====\nYQ==\n".as_bytes()).unwrap();
    let z = ok.finish().unwrap();
    let d = decode_archive(Mode::CompressedBinary, &z).unwrap();
    assert_eq!(pairs(&d), vec![("./é".as_bytes().to_vec(), b"a".to_vec())]);
}

#[test]
fn round_trip_utf8_path_compressed() {
    let es = vec![entry("./dir/naïve.txt", b"caf\xc3\xa9")];
    for mode in [Mode::CompressedText, Mode::CompressedBinary] {
        let a = encode_archive(mode, &es);
        assert_eq!(pairs(&decode_archive(mode, &a).unwrap()), pairs(&es));
    }
}
