use scgi::headers::PairFn;
use scgi::{next_header, parse, str_map, string_map, FrameDecoder, ScgiError};

fn visit_all(block: &[u8]) -> (Result<(), ScgiError>, Vec<(String, String)>) {
    let mut pairs: Vec<(String, String)> = Vec::new();
    let r = parse(block, &mut PairFn::new(|n: &str, v: &str| pairs.push((n.to_string(), v.to_string()))));
    (r, pairs)
}

/// Feeds `input` to a decoder the way a connection reader does: no more
/// bytes than the decoder wants at a time. Returns the outcome and how many
/// bytes of `input` were taken.
fn decode(input: &[u8]) -> (Result<Vec<u8>, ScgiError>, usize) {
    let mut decoder = FrameDecoder::new();
    let mut pos = 0usize;
    loop {
        if pos == input.len() {
            return (Err(decoder.closed()), pos);
        }
        let n = decoder.wanted().min(input.len() - pos);
        let chunk = &input[pos..pos + n];
        pos += n;
        match decoder.feed(chunk) {
            Ok(None) => {}
            Ok(Some(block)) => return (Ok(block), pos),
            Err(e) => return (Err(e), pos),
        }
    }
}

fn frame(block: &[u8]) -> Vec<u8> {
    let mut out = format!("{}:", block.len()).into_bytes();
    out.extend_from_slice(block);
    out.push(b',');
    out
}

#[test]
fn test_scgi() {
    let mut input = b"70:CONTENT_LENGTH\x0056\x00SCGI\x001\x00REQUEST_METHOD\x00POST\x00REQUEST_URI\x00/deepthought\x00,".to_vec();
    let body = b"What is the answer to life, the Universe and everything?";
    input.extend_from_slice(body);
    let (raw_headers, used) = decode(&input);
    let raw_headers = raw_headers.unwrap();
    assert_eq!(&input[used..], &body[..]);
    assert_eq!(str_map(&raw_headers).unwrap()["REQUEST_URI"], "/deepthought");
    assert_eq!(&(string_map(&raw_headers).unwrap()["REQUEST_URI"])[..], "/deepthought");
}

#[test]
fn frame_leaves_cursor_at_body() {
    let input = b"19:REQUEST_METHOD\0GET\0,body bytes";
    let (block, used) = decode(input);
    let block = block.unwrap();
    assert_eq!(used, 23);
    assert_eq!(&input[used..], b"body bytes");
    let map = string_map(&block).unwrap();
    assert_eq!(map.len(), 1);
    assert_eq!(map["REQUEST_METHOD"], "GET");
}

#[test]
fn pairs_survive_framing_and_splitting() {
    let pairs = [("CONTENT_LENGTH", "0"), ("SCGI", "1"), ("PATH_INFO", "/ü/€"), ("EMPTY", "")];
    let mut block = Vec::new();
    for (n, v) in pairs.iter() {
        block.extend_from_slice(n.as_bytes());
        block.push(0);
        block.extend_from_slice(v.as_bytes());
        block.push(0);
    }
    let mut input = frame(&block);
    input.extend_from_slice(b"tail");
    let (decoded, used) = decode(&input);
    let decoded = decoded.unwrap();
    assert_eq!(decoded, block);
    assert_eq!(&input[used..], b"tail");
    let (r, seen) = visit_all(&decoded);
    r.unwrap();
    let expected: Vec<(String, String)> =
        pairs.iter().map(|(n, v)| (n.to_string(), v.to_string())).collect();
    assert_eq!(seen, expected);
    let map = string_map(&decoded).unwrap();
    assert_eq!(map.len(), pairs.len());
    for (n, v) in pairs.iter() {
        assert_eq!(map[*n], *v);
        assert_eq!(str_map(&decoded).unwrap()[n], *v);
    }
}

#[test]
fn reparsing_gives_the_same_result() {
    let block = b"A\x001\x00B\x002\x00A\x003\x00";
    assert_eq!(string_map(block).unwrap(), string_map(block).unwrap());
    assert_eq!(str_map(block).unwrap(), str_map(block).unwrap());
    let bad = b"A\x001\x00B";
    assert!(matches!(string_map(bad), Err(ScgiError::WrongHeaders)));
    assert!(matches!(string_map(bad), Err(ScgiError::WrongHeaders)));
}

#[test]
fn empty_block_has_no_pairs() {
    let (block, used) = decode(b"0:,");
    let block = block.unwrap();
    assert!(block.is_empty());
    assert_eq!(used, 3);
    assert!(string_map(&block).unwrap().is_empty());
    assert!(str_map(&block).unwrap().is_empty());
    let (r, seen) = visit_all(&block);
    r.unwrap();
    assert!(seen.is_empty());
}

#[test]
fn eleven_digits_are_bad_length() {
    let (r, used) = decode(b"00000000003:abc,");
    assert!(matches!(r, Err(ScgiError::BadLength)));
    assert_eq!(used, 11);
    let (r, _) = decode(b"12345678901:");
    assert!(matches!(r, Err(ScgiError::BadLength)));
}

#[test]
fn ten_digits_are_accepted() {
    let (r, used) = decode(b"0000000003:abc,rest");
    assert_eq!(r.unwrap(), b"abc".to_vec());
    assert_eq!(used, 15);
}

#[test]
fn colon_without_digits_is_bad_length() {
    let (r, used) = decode(b":abc,");
    assert!(matches!(r, Err(ScgiError::BadLength)));
    assert_eq!(used, 1);
}

#[test]
fn wrong_terminator_is_wrong_length() {
    let (r, used) = decode(b"3:abcX");
    match r {
        Err(ScgiError::WrongLength(digits)) => assert_eq!(digits, "3"),
        other => panic!("unexpected {:?}", other),
    }
    assert_eq!(used, 6);
}

#[test]
fn non_digit_in_length_is_wrong_length() {
    let (r, used) = decode(b"12x:");
    match r {
        Err(ScgiError::WrongLength(digits)) => assert_eq!(digits, "12"),
        other => panic!("unexpected {:?}", other),
    }
    assert_eq!(used, 3);
}

#[test]
fn truncated_block_is_eof() {
    let mut input = b"70:".to_vec();
    input.extend_from_slice(b"CONTENT_LE");
    let (r, used) = decode(&input);
    assert!(matches!(r, Err(ScgiError::EOF)));
    assert_eq!(used, 13);
}

#[test]
fn closed_during_length_is_eof() {
    let (r, _) = decode(b"12");
    assert!(matches!(r, Err(ScgiError::EOF)));
    let (r, _) = decode(b"");
    assert!(matches!(r, Err(ScgiError::EOF)));
}

#[test]
fn closed_before_terminator_is_wrong_length() {
    let (r, _) = decode(b"3:abc");
    match r {
        Err(ScgiError::WrongLength(digits)) => assert_eq!(digits, "3"),
        other => panic!("unexpected {:?}", other),
    }
}

#[test]
fn decoder_wants_what_the_frame_lacks() {
    let mut d = FrameDecoder::new();
    assert_eq!(d.wanted(), 1);
    assert!(matches!(d.feed(b"5"), Ok(None)));
    assert_eq!(d.wanted(), 1);
    assert!(matches!(d.feed(b":"), Ok(None)));
    assert_eq!(d.wanted(), 5);
    assert!(matches!(d.feed(b"ab"), Ok(None)));
    assert_eq!(d.wanted(), 3);
    assert!(matches!(d.feed(b"cde"), Ok(None)));
    assert_eq!(d.wanted(), 1);
    match d.feed(b",") {
        Ok(Some(block)) => assert_eq!(block, b"abcde".to_vec()),
        other => panic!("unexpected {:?}", other),
    }
}

#[test]
fn invalid_utf8_value_is_utf8_error() {
    let block = b"NAME\x00\x80\x00";
    assert!(matches!(string_map(block), Err(ScgiError::Utf8(_))));
    assert!(matches!(str_map(block), Err(ScgiError::Utf8(_))));
    let (r, seen) = visit_all(block);
    assert!(matches!(r, Err(ScgiError::Utf8(_))));
    assert!(seen.is_empty());
}

#[test]
fn invalid_utf8_name_is_utf8_error() {
    let block = b"\xff\x00value";
    assert!(matches!(string_map(block), Err(ScgiError::Utf8(_))));
}

#[test]
fn unterminated_runs_are_wrong_headers() {
    let cases: [(&[u8], usize); 4] =
        [(b"NAME", 0), (b"NAME\x00", 0), (b"NAME\x00VALUE", 0), (b"A\x00B\x00C", 1)];
    for (block, pairs_before) in cases {
        assert!(matches!(string_map(block), Err(ScgiError::WrongHeaders)));
        assert!(matches!(str_map(block), Err(ScgiError::WrongHeaders)));
        let (r, seen) = visit_all(block);
        assert!(matches!(r, Err(ScgiError::WrongHeaders)));
        assert_eq!(seen.len(), pairs_before);
    }
}

#[test]
fn unterminated_value_wins_over_bad_text_after_it() {
    let block = b"NAME\x00\x80";
    assert!(matches!(string_map(block), Err(ScgiError::WrongHeaders)));
}

#[test]
fn duplicate_names_keep_the_last_value() {
    let block = b"A\x001\x00B\x002\x00A\x003\x00";
    let map = string_map(block).unwrap();
    assert_eq!(map.len(), 2);
    assert_eq!(map["A"], "3");
    assert_eq!(map["B"], "2");
    let map = str_map(block).unwrap();
    assert_eq!(map["A"], "3");
}

#[test]
fn empty_names_and_values_are_pairs() {
    let block = b"\x00\x00X\x00\x00";
    let map = string_map(block).unwrap();
    assert_eq!(map.len(), 2);
    assert_eq!(map[""], "");
    assert_eq!(map["X"], "");
}

#[test]
fn next_header_walks_the_block() {
    let block = b"A\x00bc\x00D\x00\x00";
    let (n, v, next) = next_header(block, 0).unwrap();
    assert_eq!((n, v, next), ("A", "bc", 5));
    let (n, v, next) = next_header(block, next).unwrap();
    assert_eq!((n, v, next), ("D", "", 8));
    assert_eq!(next, block.len());
    assert!(matches!(next_header(b"A\x00B", 0), Err(ScgiError::WrongHeaders)));
}

#[test]
fn errors_convert_from_their_causes() {
    let io = std::io::Error::new(std::io::ErrorKind::Other, "down");
    let e: ScgiError = io.into();
    assert!(matches!(e, ScgiError::IO(_)));
    assert_eq!(e.kind_name(), "IO");
    let bytes = vec![0xffu8];
    let utf8 = std::str::from_utf8(&bytes).unwrap_err();
    let e: ScgiError = utf8.into();
    assert!(matches!(e, ScgiError::Utf8(_)));
    assert_eq!(e.kind_name(), "Utf8");
    assert_eq!(ScgiError::BadLength.kind_name(), "BadLength");
    assert_eq!(ScgiError::WrongLength("1".to_string()).kind_name(), "WrongLength");
    assert_eq!(ScgiError::WrongHeaders.kind_name(), "WrongHeaders");
    assert_eq!(ScgiError::EOF.kind_name(), "EOF");
}

#[test]
fn visitor_gets_the_pairs_before_a_fault() {
    let (r, seen) = visit_all(b"A\x00B\x00abc");
    assert!(matches!(r, Err(ScgiError::WrongHeaders)));
    assert_eq!(seen, vec![("A".to_string(), "B".to_string())]);
    let (r, seen) = visit_all(b"A\x00B\x00C\x00\xc3\x00");
    assert!(matches!(r, Err(ScgiError::Utf8(_))));
    assert_eq!(seen, vec![("A".to_string(), "B".to_string())]);
}

#[test]
fn visiting_twice_gives_the_same_calls() {
    let block = b"A\x001\x00B\x002\x00A\x003\x00";
    let (r1, first) = visit_all(block);
    let (r2, second) = visit_all(block);
    assert!(r1.is_ok() && r2.is_ok());
    assert_eq!(first, second);
    assert_eq!(first.len(), 3);
    assert_eq!(first[2], ("A".to_string(), "3".to_string()));
}
