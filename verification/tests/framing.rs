use std::time::Duration;

use serial_mock_service::framing::{
    default_true, find_subslice, read_uint, Endian, FramingConfig, FramingSpec, LengthIncludes,
    DEFAULT_MAX_BUFFER,
};

fn frames(spec: &FramingSpec, chunks: &[&[u8]]) -> Vec<Vec<u8>> {
    let mut buf = Vec::new();
    let mut out = Vec::new();
    for c in chunks {
        assert!(spec.accepts(&buf, c));
        spec.push(&mut buf, c, &mut out);
    }
    out
}

#[test]
fn default_is_newline_delimited_inclusive() {
    let spec = FramingSpec::default();
    let got = frames(&spec, &[b"AB\nCD\n"]);
    assert_eq!(got, vec![b"AB\n".to_vec(), b"CD\n".to_vec()]);
}

#[test]
fn delimiter_split_across_chunks() {
    let spec = FramingSpec::from_config(Some(&FramingConfig::Delimiter {
        delimiter: vec![0x0D, 0x0A].into(),
        include_delimiter: true,
    }));
    // The CRLF arrives split across two reads.
    let got = frames(&spec, &[b"hello\r", b"\nworld\r\n"]);
    assert_eq!(got, vec![b"hello\r\n".to_vec(), b"world\r\n".to_vec()]);
}

#[test]
fn delimiter_exclusive_strips_terminator() {
    let spec = FramingSpec::from_config(Some(&FramingConfig::Delimiter {
        delimiter: vec![b'\n'].into(),
        include_delimiter: false,
    }));
    let got = frames(&spec, &[b"AB\nCD\n"]);
    assert_eq!(got, vec![b"AB".to_vec(), b"CD".to_vec()]);
}

#[test]
fn fixed_length_frames() {
    let spec = FramingSpec::from_config(Some(&FramingConfig::Fixed { length: 3 }));
    let got = frames(&spec, &[b"AABB", b"CCDD"]);
    assert_eq!(got, vec![b"AAB".to_vec(), b"BCC".to_vec()]);
    // One byte (D) remains buffered, not emitted.
}

#[test]
fn length_prefixed_payload_big_endian() {
    // Layout: [STX][len:1][payload...][checksum:1], len counts payload.
    let spec = FramingSpec::from_config(Some(&FramingConfig::LengthPrefixed {
        header_size: 2,
        length_offset: 1,
        length_size: 1,
        length_endian: Endian::Big,
        length_includes: LengthIncludes::Payload,
        trailer_size: 1,
    }));
    // STX=0x02, len=3, payload=AAA, checksum=0x99 -> total 2+3+1 = 6
    let got = frames(&spec, &[&[0x02, 0x03, b'A', b'A'], &[b'A', 0x99]]);
    assert_eq!(got, vec![vec![0x02, 0x03, b'A', b'A', b'A', 0x99]]);
}

#[test]
fn length_prefixed_frame_includes_two_byte_le() {
    // length field counts the whole frame, 2-byte little-endian at offset 0.
    let spec = FramingSpec::from_config(Some(&FramingConfig::LengthPrefixed {
        header_size: 0,
        length_offset: 0,
        length_size: 2,
        length_endian: Endian::Little,
        length_includes: LengthIncludes::Frame,
        trailer_size: 0,
    }));
    // total = 5 (0x05 0x00), then 3 more bytes
    let got = frames(&spec, &[&[0x05, 0x00, 0x11, 0x22, 0x33], &[0xFF]]);
    assert_eq!(got, vec![vec![0x05, 0x00, 0x11, 0x22, 0x33]]);
}

#[test]
fn idle_timeout_accumulates_then_flushes() {
    let spec = FramingSpec::from_config(Some(&FramingConfig::IdleTimeout { quiet_ms: 50 }));
    assert_eq!(spec.idle_timeout(), Some(Duration::from_millis(50)));
    let mut buf = Vec::new();
    let mut out = Vec::new();
    spec.push(&mut buf, &[0x01, 0x02], &mut out);
    spec.push(&mut buf, &[0x03], &mut out);
    assert!(out.is_empty(), "no frames until idle");
    spec.on_idle(&mut buf, &mut out);
    assert_eq!(out, vec![vec![0x01, 0x02, 0x03]]);
    // Second idle with empty buffer yields nothing.
    spec.on_idle(&mut buf, &mut out);
    assert_eq!(out.len(), 1);
}

#[test]
fn oversize_buffer_force_flushes() {
    // No delimiter ever arrives; buffer should flush at the backstop.
    let spec = FramingSpec::default();
    let big = vec![b'x'; DEFAULT_MAX_BUFFER + 10];
    let mut buf = Vec::new();
    let mut out = Vec::new();
    spec.push(&mut buf, &big, &mut out);
    assert_eq!(out.len(), 1);
    assert_eq!(out[0].len(), DEFAULT_MAX_BUFFER + 10);
}

#[test]
fn a_full_buffer_is_not_yet_flushed() {
    let spec = FramingSpec::default();
    let mut buf = Vec::new();
    let mut out = Vec::new();
    spec.push(&mut buf, &vec![b'x'; DEFAULT_MAX_BUFFER], &mut out);
    assert_eq!(out.len(), 0);
    spec.push(&mut buf, b"\n", &mut out);
    assert_eq!(out.len(), 1);
    assert_eq!(out[0].len(), DEFAULT_MAX_BUFFER + 1);
    assert!(buf.is_empty());
}

#[test]
fn chunking_does_not_matter() {
    let spec = FramingSpec::default();
    let whole = frames(&spec, &[b"one\ntwo\nthree"]);
    let cut = frames(&spec, &[b"o", b"ne\nt", b"wo\nthr", b"ee"]);
    assert_eq!(whole, cut);
    assert_eq!(whole, vec![b"one\n".to_vec(), b"two\n".to_vec()]);
}

#[test]
fn frames_and_rest_make_up_the_stream() {
    let spec = FramingSpec::from_config(Some(&FramingConfig::Fixed { length: 4 }));
    let mut buf = Vec::new();
    let mut out = Vec::new();
    spec.push(&mut buf, b"abcdefghij", &mut out);
    let mut all: Vec<u8> = out.concat();
    all.extend_from_slice(&buf);
    assert_eq!(all, b"abcdefghij");
    assert_eq!(buf, b"ij");
}

fn prefixed(
    header_size: usize,
    length_offset: usize,
    length_size: usize,
    length_includes: LengthIncludes,
) -> FramingConfig {
    FramingConfig::LengthPrefixed {
        header_size,
        length_offset,
        length_size,
        length_endian: Endian::Big,
        length_includes,
        trailer_size: 0,
    }
}

#[test]
fn framing_parameters_are_checked() {
    assert_eq!(FramingConfig::Fixed { length: 1 }.validate(), Ok(()));
    assert_eq!(
        FramingConfig::Fixed { length: 0 }.validate().unwrap_err(),
        "framing fixed length must be greater than zero"
    );
    assert_eq!(FramingConfig::IdleTimeout { quiet_ms: 1 }.validate(), Ok(()));
    assert_eq!(
        FramingConfig::IdleTimeout { quiet_ms: 0 }.validate().unwrap_err(),
        "framing quiet_ms must be greater than zero"
    );
    let none: Vec<u8> = Vec::new();
    let empty = FramingConfig::Delimiter { delimiter: none.into(), include_delimiter: true };
    assert_eq!(
        empty.validate().unwrap_err(),
        "framing delimiter must be at least one byte"
    );
    assert_eq!(prefixed(2, 1, 1, LengthIncludes::Payload).validate(), Ok(()));
    assert_eq!(
        prefixed(2, 1, 3, LengthIncludes::Payload).validate().unwrap_err(),
        "framing length_size must be 1, 2, or 4 (got 3)"
    );
}

#[test]
fn lengths_beyond_all_sizes_are_not_accepted() {
    let cfg = prefixed(usize::MAX, 0, 1, LengthIncludes::Payload);
    assert_eq!(cfg.validate(), Ok(()));
    let spec = FramingSpec::from_config(Some(&cfg));
    assert!(spec.accepts(b"", b""));
    assert!(spec.accepts(b"", &[0]));
    assert!(!spec.accepts(&[1], b"x"));
    let fits = FramingSpec::from_config(Some(&prefixed(2, 0, 4, LengthIncludes::Payload)));
    assert!(fits.accepts(b"", &[0xff, 0xff, 0xff, 0xff, 1]));
}

#[test]
fn malformed_lengths_flush_everything() {
    let spec = FramingSpec::from_config(Some(&prefixed(0, 0, 2, LengthIncludes::Frame)));
    assert_eq!(frames(&spec, &[&[0, 1, 7, 8]]), vec![vec![0, 1, 7, 8]]);
}

#[test]
fn delimiters_that_overlap_themselves_are_cut_at_their_first_place() {
    let spec = FramingSpec::from_config(Some(&FramingConfig::Delimiter {
        delimiter: b"aa".to_vec().into(),
        include_delimiter: false,
    }));
    assert_eq!(frames(&spec, &[b"xaaaa"]), vec![b"x".to_vec(), b"".to_vec()]);
}

#[test]
fn silence_is_awaited_where_it_counts() {
    let delimiter =
        FramingConfig::Delimiter { delimiter: vec![b'\n'].into(), include_delimiter: true };
    let idle = FramingConfig::IdleTimeout { quiet_ms: 5 };
    for cfg in [delimiter, FramingConfig::Fixed { length: 4 }, idle] {
        let spec = FramingSpec::from_config(Some(&cfg));
        let mut buf = vec![1u8];
        let mut out = Vec::new();
        spec.on_idle(&mut buf, &mut out);
        assert_eq!(spec.idle_timeout().is_some(), !out.is_empty());
        assert_eq!(spec.clone().idle_timeout(), spec.idle_timeout());
    }
}

#[test]
fn an_incomplete_frame_stays_buffered() {
    let spec = FramingSpec::from_config(Some(&prefixed(2, 1, 1, LengthIncludes::Payload)));
    let mut buf = Vec::new();
    let mut out = Vec::new();
    spec.push(&mut buf, &[9, 1, 7, 9, 3, 7], &mut out);
    assert_eq!(out, vec![vec![9, 1, 7]]);
    assert_eq!(buf, vec![9, 3, 7]);
}

#[test]
fn numbers_are_read_in_either_order() {
    assert_eq!(read_uint(&[0x01, 0x02], Endian::Big), 0x0102);
    assert_eq!(read_uint(&[0x01, 0x02], Endian::Little), 0x0201);
    assert_eq!(read_uint(&[0xde, 0xad, 0xbe, 0xef], Endian::Big), 0xdead_beef);
    assert_eq!(read_uint(&[], Endian::Little), 0);
}

#[test]
fn subslices_are_found_at_their_first_place() {
    assert_eq!(find_subslice(b"abcabc", b"bc"), Some(1));
    assert_eq!(find_subslice(b"abc", b"cd"), None);
    assert_eq!(find_subslice(b"abc", b""), None);
    assert_eq!(find_subslice(b"a", b"ab"), None);
}

#[test]
fn framing_defaults() {
    assert!(default_true());
    assert_eq!(Endian::default(), Endian::Big);
    assert_eq!(LengthIncludes::default(), LengthIncludes::Payload);
    assert_eq!(FramingSpec::default().idle_timeout(), None);
    assert_eq!(frames(&FramingSpec::from_config(None), &[b"a\nb"]), vec![b"a\n".to_vec()]);
}
