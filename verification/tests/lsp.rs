//! The language server's positions, URIs and message framing.

use dowel::lsp::{ascii_line, header_line, offset_of, path_of, percent_decode, unsupported};
use dowel::rpc::frame;
use std::path::Path;

#[test]
fn the_end_of_a_line_is_a_valid_position() {
    // The end of a line equals its length; it must not be refused.
    assert_eq!(offset_of("ab\ncd\n", 0, 2), Some(2));
    assert_eq!(offset_of("ab\ncd\n", 1, 2), Some(5));
    assert_eq!(offset_of("ab\ncd\n", 1, 3), None);
    assert_eq!(offset_of("ab\ncd\n", 5, 0), None);
    // A line with a character outside the BMP: `😀` takes two UTF-16 units.
    assert_eq!(offset_of("a😀b\n", 0, 3), Some("a😀".len() as u32));
}

#[test]
fn a_position_inside_a_surrogate_pair_is_refused() {
    assert_eq!(offset_of("a😀b\n", 0, 2), None);
    assert_eq!(offset_of("a😀b\n", 0, 4), Some("a😀b".len() as u32));
}

#[test]
fn the_last_line_needs_no_line_end() {
    assert_eq!(offset_of("ab\ncd", 1, 0), Some(3));
    assert_eq!(offset_of("ab\ncd", 1, 2), Some(5));
    assert_eq!(offset_of("ab\ncd", 2, 0), None);
    assert_eq!(offset_of("", 0, 0), Some(0));
}

#[test]
fn a_percent_encoded_uri_becomes_a_path() {
    // `dowel.toml` is told by its name, so the URI must be decoded.
    let path = path_of("file:///w/my%20project/dowel.toml");
    assert_eq!(Path::new(&path).file_name().unwrap(), "dowel.toml");
    assert_eq!(percent_decode("a%2Fb"), "a/b");
    // A sequence that cannot be decoded stays as it is.
    assert_eq!(percent_decode("100%"), "100%");
    assert_eq!(percent_decode("%zz"), "%zz");
}

#[test]
fn a_uri_path_keeps_its_spaces_and_drops_the_scheme() {
    assert_eq!(path_of("file:///w/my%20project/dowel.toml"), "/w/my project/dowel.toml");
    assert_eq!(path_of("untitled:notes"), "untitled:notes");
    assert_eq!(percent_decode("%41%42"), "AB");
    assert_eq!(percent_decode("%4"), "%4");
}

#[test]
fn a_content_length_header_gives_the_body_length() {
    assert_eq!(header_line("Content-Length: 52", None), Some(52));
    assert_eq!(header_line("Content-Length:7  ", None), Some(7));
    // Other headers leave what was known.
    assert_eq!(header_line("Content-Type: application/vscode-jsonrpc", Some(9)), Some(9));
    // A length that does not read is no length.
    assert_eq!(header_line("Content-Length: x", Some(9)), None);
}

#[test]
fn a_header_line_loses_its_carriage_return() {
    assert_eq!(ascii_line(b"Content-Length: 3\r"), "Content-Length: 3");
    assert_eq!(ascii_line(b"abc"), "abc");
    assert_eq!(ascii_line(b""), "");
}

#[test]
fn a_message_is_framed_by_its_length_in_bytes() {
    assert_eq!(frame("{}"), "Content-Length: 2\r\n\r\n{}");
    // The length counts bytes, not characters.
    assert_eq!(frame("é"), "Content-Length: 2\r\n\r\né");
}

#[test]
fn a_frame_header_reads_back_as_the_body_length() {
    let framed = frame("{\"é\":1}");
    let end = framed.find('\n').unwrap();
    let line = ascii_line(&framed.as_bytes()[..end]);
    assert_eq!(header_line(&line, None), Some("{\"é\":1}".len()));
}

#[test]
fn each_unpublished_code_is_listed_once_with_a_reason() {
    let list = unsupported();
    let codes: std::collections::BTreeSet<&str> = list.iter().map(|(c, _)| *c).collect();
    assert_eq!(codes.len(), list.len());
    assert!(codes.contains("lockfile-drift"));
    assert!(list.iter().all(|(_, why)| !why.is_empty()));
}
