use musicdb::get::{
    con_get_decode_line, con_get_encode_string, cover_bytes_request, custom_file_request, len_header,
    parse_get_request, parse_len_response, path_stays_inside, song_file_request, GetRequest,
};

#[test]
fn escaping_round_trip() {
    for s in ["", "plain", "two\nlines", "back\\slash", "cr\r\nlf", "\\n literal", "é\n\\"] {
        let e = con_get_encode_string(s);
        assert!(!e.contains('\n'));
        assert_eq!(con_get_decode_line(&e), s);
    }
    assert_eq!(con_get_encode_string("a\nb\\c\rd"), "a\\nb\\\\c\\rd");
}

#[test]
fn trailing_backslash_is_dropped() {
    assert_eq!(con_get_decode_line("ab\\"), "ab");
    assert_eq!(con_get_decode_line("a\\xb"), "axb");
}

#[test]
fn cover_request_line() {
    let line = cover_bytes_request(5);
    assert_eq!(line, con_get_encode_string("cover-bytes\n5"));
    assert_eq!(line, "cover-bytes\\n5");
    match parse_get_request(&line) {
        GetRequest::CoverBytes(id) => assert_eq!(id, Some(5)),
        _ => panic!(),
    }
    assert_eq!(len_header(17), "len: 17\n");
    assert_eq!(len_header(0), "len: 0\n");
}

#[test]
fn other_requests_parse() {
    assert!(matches!(parse_get_request(&song_file_request(12345678901234)), GetRequest::SongFile(Some(12345678901234))));
    assert!(matches!(parse_get_request(&custom_file_request("img/a.png")), GetRequest::CustomFile(Some(p)) if p == "img/a.png"));
    assert!(matches!(parse_get_request("cover-bytes\\nxyz"), GetRequest::CoverBytes(None)));
    assert!(matches!(parse_get_request("cover-bytes"), GetRequest::CoverBytes(None)));
    assert!(matches!(parse_get_request("cover-bytes\\r\\n+7\\r"), GetRequest::CoverBytes(Some(7))));
    assert!(matches!(parse_get_request("hello\\n1"), GetRequest::Unknown));
    assert!(matches!(parse_get_request(""), GetRequest::Unknown));
}

#[test]
fn len_response_parsing() {
    assert_eq!(parse_len_response("len: 5\n"), Ok(5));
    assert_eq!(parse_len_response("len:  42 \n"), Ok(42));
    assert_eq!(parse_len_response("no data\n"), Err("no data\n".to_string()));
    assert_eq!(parse_len_response("len: x\n"), Err("len: x\n".to_string()));
    assert_eq!(parse_len_response("no cover"), Err("no cover".to_string()));
}

#[test]
fn custom_paths_stay_inside() {
    assert!(path_stays_inside("a/b.png"));
    assert!(path_stays_inside("a/..b/c"));
    assert!(!path_stays_inside("../secret"));
    assert!(!path_stays_inside("a/../../b"));
    assert!(!path_stays_inside("a/.."));
    assert!(!path_stays_inside("/etc/passwd"));
}
