use gopher_crawler::codec::{decode_text, DecodeError};
use gopher_crawler::io::{Request, ResponseBuilder};
use gopher_crawler::types::{Item, Referer};

fn referer() -> Referer {
    Referer::new("example.test", 70, "/")
}

fn menu_response(text: &str) -> ResponseBuilder {
    ResponseBuilder { raw: text.as_bytes().to_vec(), referer: referer() }
}

#[test]
fn decode_menu_all_shapes_in_order() {
    let text = "iWelcome\t/\texample.test\t70\r\n\
                3Oops\t/err\texample.test\t70\r\n\
                0File\t/file.txt\texample.test\t70\r\n\
                1Dir\t/dir\texample.test\t70\r\n\
                7Search\t/search\texample.test\t70\r\n\
                9Bin\t/bin.dat\texample.test\t70\r\n\
                .\r\n";
    let items = menu_response(text).as_items().expect("well-formed menu");
    assert_eq!(items.len(), 6);
    match &items[0] {
        Item::INFO { tag, message, domain, port, .. } => {
            assert_eq!(*tag, 'i');
            assert_eq!(message, "Welcome");
            assert_eq!(domain, "example.test");
            assert_eq!(*port, 70);
        }
        _ => panic!("first entry should be an annotation"),
    }
    match &items[1] {
        Item::INFO { tag, message, .. } => {
            assert_eq!(*tag, '3');
            assert_eq!(message, "Oops");
        }
        _ => panic!("second entry should be an annotation"),
    }
    let expected = [
        ('0', "File", "/file.txt"),
        ('1', "Dir", "/dir"),
        ('7', "Search", "/search"),
        ('9', "Bin", "/bin.dat"),
    ];
    for (k, (want_tag, want_caption, want_location)) in expected.iter().enumerate() {
        match &items[2 + k] {
            Item::DATA { tag, size, caption, location, domain, port, referer } => {
                assert_eq!(tag, want_tag);
                assert_eq!(*size, 0);
                assert_eq!(caption, want_caption);
                assert_eq!(location, want_location);
                assert_eq!(domain, "example.test");
                assert_eq!(*port, 70);
                assert_eq!(&referer.path, "/");
            }
            _ => panic!("entry {} should be fetchable", k),
        }
    }
}

#[test]
fn decode_menu_bad_schema_is_unknown_in_place() {
    let text = "0File\t/file.txt\texample.test\t70\r\n\
                1only-two-fields\t/x\r\n\
                .\r\n";
    let items = menu_response(text).as_items().expect("menu with a bad line still decodes");
    assert_eq!(items.len(), 2);
    assert!(matches!(items[0], Item::DATA { .. }));
    match &items[1] {
        Item::UNKNOWN { unparsed, .. } => assert_eq!(unparsed, "1only-two-fields\t/x"),
        _ => panic!("schema-violating line should be unknown"),
    }
}

#[test]
fn decode_menu_empty_line_is_unknown() {
    let text = "\r\n.\r\n";
    let items = menu_response(text).as_items().expect("menu decodes");
    assert_eq!(items.len(), 1);
    assert!(matches!(&items[0], Item::UNKNOWN { unparsed, .. } if unparsed.is_empty()));
}

#[test]
fn decode_menu_unrecognized_tag_is_unknown() {
    let text = "zWeird\t/z\texample.test\t70\r\n.\r\n";
    let items = menu_response(text).as_items().expect("menu decodes");
    assert_eq!(items.len(), 1);
    assert!(matches!(&items[0], Item::UNKNOWN { unparsed, .. } if unparsed == "zWeird\t/z\texample.test\t70"));
}

#[test]
fn empty_menu_decodes_to_no_entries() {
    let items = menu_response(".\r\n").as_items().expect("a bare terminator is a complete menu");
    assert_eq!(items.len(), 0);
}

#[test]
fn missing_terminator_is_incomplete() {
    let text = "0File\t/file.txt\texample.test\t70\r\n";
    assert_eq!(menu_response(text).as_items().unwrap_err(), DecodeError::Incomplete);
}

#[test]
fn no_crlf_at_all_is_incomplete() {
    assert_eq!(menu_response("just bytes").as_items().unwrap_err(), DecodeError::Incomplete);
}

#[test]
fn terminator_succeeds_despite_trailing_content() {
    let text = "0File\t/file.txt\texample.test\t70\r\n.\r\ntrailing garbage after the end";
    let items = menu_response(text).as_items().expect("trailing content is ignored");
    assert_eq!(items.len(), 1);
}

#[test]
fn port_too_large_aborts_whole_decode() {
    let text = "0Fine\t/a\texample.test\t70\r\n\
                1Bad\t/b\texample.test\t99999\r\n\
                .\r\n";
    assert_eq!(menu_response(text).as_items().unwrap_err(), DecodeError::MalformedPort);
}

#[test]
fn empty_port_field_aborts_whole_decode() {
    let text = "1Bad\t/b\texample.test\t\r\n.\r\n";
    assert_eq!(menu_response(text).as_items().unwrap_err(), DecodeError::MalformedPort);
}

#[test]
fn port_with_letter_fails_schema_softly() {
    let text = "1Odd\t/b\texample.test\t7a\r\n.\r\n";
    let items = menu_response(text).as_items().expect("soft classification");
    assert!(matches!(items[0], Item::UNKNOWN { .. }));
}

#[test]
fn domain_with_slash_fails_schema_softly() {
    let text = "1Odd\t/b\texample.test/evil\t70\r\n.\r\n";
    let items = menu_response(text).as_items().expect("soft classification");
    assert!(matches!(items[0], Item::UNKNOWN { .. }));
}

#[test]
fn non_utf8_bytes_are_not_text() {
    let resp = ResponseBuilder { raw: vec![0xff, 0xfe, 0x2e, 0x0d, 0x0a], referer: referer() };
    assert_eq!(resp.as_items().unwrap_err(), DecodeError::NotText);
    assert_eq!(resp.as_utf8_str().unwrap_err(), DecodeError::NotText);
}

#[test]
fn as_utf8_str_reads_the_bytes() {
    let resp = menu_response("hello\r\n");
    assert_eq!(resp.as_utf8_str().unwrap(), "hello\r\n");
}

#[test]
fn request_line_is_path_and_crlf() {
    let req = Request::new("example.test", 70);
    assert_eq!(req.request_line(), "/\r\n");
    let mut req = Request::new("example.test", 70);
    req.update_path("/menuA");
    assert_eq!(req.request_line(), "/menuA\r\n");
}

#[test]
fn decode_text_strips_terminator() {
    let raw = b"file body\r\n.\r\n".to_vec();
    assert_eq!(decode_text(&raw), b"file body\r\n".to_vec());
}

#[test]
fn decode_text_leaves_unterminated_bytes_alone() {
    let raw = b"no terminator here".to_vec();
    assert_eq!(decode_text(&raw), raw);
    let crlf_only = b"ends with crlf\r\n".to_vec();
    assert_eq!(decode_text(&crlf_only), crlf_only);
}

#[test]
fn update_path_cleans_and_normalizes() {
    let mut req = Request::new("example.test", 70);
    req.update_path("/menuA/../menuB//file.txt");
    assert_eq!(req.path, "/menuB/file.txt");
    req.update_path("a\\b");
    assert_eq!(req.path, "a/b");
    req.update_path("");
    assert_eq!(req.path, ".");
}

#[test]
fn from_item_takes_only_fetchable_entries() {
    let from = referer();
    let item = Item::DATA {
        tag: '0',
        size: 0,
        caption: "File".to_string(),
        referer: from.clone(),
        location: "/menuA//file.txt".to_string(),
        domain: "example.test".to_string(),
        port: 7070,
    };
    let req = Request::from_item(&item).expect("fetchable entry");
    assert_eq!(req.domain, "example.test");
    assert_eq!(req.port, 7070);
    assert_eq!(req.path, "/menuA/file.txt");

    let info = Item::INFO {
        tag: 'i',
        from: from.clone(),
        message: "hi".to_string(),
        domain: "example.test".to_string(),
        port: 70,
    };
    assert!(Request::from_item(&info).is_err());
}
