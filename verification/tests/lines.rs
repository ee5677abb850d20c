use jsonl_peek::lines::{LineFramer, LineReader};

const BOM: [u8; 3] = [0xEF, 0xBB, 0xBF];

fn lines(input: &str) -> Vec<String> {
    let mut reader = LineReader::new(input.as_bytes());
    let mut out = Vec::new();
    while let Some(line) = reader.read_line() {
        out.push(line.as_str().unwrap().to_string());
    }
    out
}

#[test]
fn splits_on_newline() {
    assert_eq!(lines("a\nb\nc\n"), vec!["a", "b", "c"]);
}

#[test]
fn keeps_final_line_without_trailing_newline() {
    assert_eq!(lines("a\nb"), vec!["a", "b"]);
}

#[test]
fn strips_crlf() {
    assert_eq!(lines("a\r\nb\r\n"), vec!["a", "b"]);
}

#[test]
fn strips_bom_from_first_line_only() {
    let input = format!("{}a\nb\n", std::str::from_utf8(&BOM).unwrap());
    assert_eq!(lines(&input), vec!["a", "b"]);
}

#[test]
fn keeps_a_bom_on_later_lines() {
    let bom = std::str::from_utf8(&BOM).unwrap();
    let input = format!("a\n{bom}b\n");
    assert_eq!(lines(&input), vec!["a".to_string(), format!("{bom}b")]);
}

#[test]
fn preserves_empty_lines_and_numbers_them() {
    let mut reader = LineReader::new("a\n\nb\n".as_bytes());
    let l1 = reader.read_line().unwrap();
    assert_eq!((l1.number, l1.bytes), (1, b"a".as_slice()));
    let l2 = reader.read_line().unwrap();
    assert_eq!((l2.number, l2.bytes), (2, b"".as_slice()));
    assert!(l2.is_blank());
    let l3 = reader.read_line().unwrap();
    assert_eq!((l3.number, l3.bytes), (3, b"b".as_slice()));
    assert!(reader.read_line().is_none());
}

#[test]
fn whitespace_only_line_is_blank() {
    let mut reader = LineReader::new("  \t \n".as_bytes());
    let line = reader.read_line().unwrap();
    assert!(line.is_blank());
}

#[test]
fn every_ascii_whitespace_byte_is_blank_and_nothing_else() {
    for byte in 0..=255u8 {
        let input = [b' ', byte];
        let mut reader = LineReader::new(&input[..]);
        let line = reader.read_line().unwrap();
        assert_eq!(line.is_blank(), byte.is_ascii_whitespace(), "byte {byte}");
    }
}

#[test]
fn raw_len_includes_the_newline() {
    let mut reader = LineReader::new("ab\nc".as_bytes());
    let l1 = reader.read_line().unwrap();
    assert_eq!(l1.bytes.len(), 2);
    assert_eq!(l1.raw_len, 3);
    let l2 = reader.read_line().unwrap();
    assert_eq!(l2.bytes.len(), 1);
    assert_eq!(l2.raw_len, 1);
}

#[test]
fn raw_lengths_add_up_to_the_input() {
    let input = "\u{feff}a\r\n\r\nlonger line\nlast";
    let mut reader = LineReader::new(input.as_bytes());
    let mut total = 0;
    while let Some(line) = reader.read_line() {
        total += line.raw_len;
    }
    assert_eq!(total, input.len());
}

#[test]
fn reports_invalid_utf8() {
    let mut reader = LineReader::new(&[0xFF, 0xFE, b'\n'][..]);
    let line = reader.read_line().unwrap();
    assert!(line.as_str().is_err());
}

#[test]
fn invalid_utf8_is_placed_like_the_standard_decoder_places_it() {
    let inputs: [&[u8]; 8] = [
        b"ab\xFFcd",
        b"\xC3\xA9\xC3",
        b"\xE2\x82",
        b"\xED\xA0\x80",
        b"a\xF0\x9F\x98\x80\xF0\x9F\x98",
        b"\xC0\xAF",
        b"\xF4\x90\x80\x80",
        b"ok \xE2\x28\xA1",
    ];
    for input in inputs {
        let mut reader = LineReader::new(input);
        let line = reader.read_line().unwrap();
        let want = std::str::from_utf8(input).unwrap_err().valid_up_to();
        assert_eq!(line.as_str().unwrap_err().valid_up_to, want);
    }
}

#[test]
fn decoding_keeps_every_character() {
    assert_eq!(lines("é€😀\n"), vec!["é€😀"]);
}

#[test]
fn empty_input_yields_no_lines() {
    let mut reader = LineReader::new(&b""[..]);
    assert!(reader.read_line().is_none());
}

#[test]
fn a_lone_carriage_return_stays() {
    assert_eq!(lines("a\rb\n\r\n"), vec!["a\rb", ""]);
}

#[test]
fn framing_one_line_at_a_time_gives_the_same_lines() {
    let mut framer = LineFramer::new();
    let first = framer.frame(b"\xEF\xBB\xBF{}\r\n");
    assert_eq!((first.number, first.bytes, first.raw_len), (1, &b"{}"[..], 7));
    let second = framer.frame(b"\xEF\xBB\xBFx");
    assert_eq!((second.number, second.bytes, second.raw_len), (2, &b"\xEF\xBB\xBFx"[..], 4));
}

#[test]
fn no_content_holds_a_newline() {
    let input = b"a\n\n\r\n\xEF\xBB\xBF\nlast\r";
    let mut reader = LineReader::new(&input[..]);
    let mut contents = Vec::new();
    while let Some(line) = reader.read_line() {
        assert!(!line.bytes.contains(&b'\n'));
        contents.push(line.bytes.to_vec());
    }
    let want: [&[u8]; 5] = [b"a", b"", b"", b"\xEF\xBB\xBF", b"last\r"];
    assert_eq!(contents, want);
}

#[test]
fn reads_crlf_and_a_last_line_without_an_ending() {
    let mut reader = LineReader::new("{\"a\":1}\r\n{\"b\":2}".as_bytes());
    let first = reader.read_line().unwrap();
    assert_eq!(first.bytes, b"{\"a\":1}");
    let second = reader.read_line().unwrap();
    assert_eq!(second.bytes, b"{\"b\":2}");
    assert!(reader.read_line().is_none());
}
