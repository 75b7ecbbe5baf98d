use gopher_crawler::client::Client;
use gopher_crawler::config::parse_host;
use gopher_crawler::download::{binary_items, max_by_size, min_by_size, text_items, Downloader};
use gopher_crawler::io::{Request, ResponseBuilder};
use gopher_crawler::logbuf::{wipe_log, LogBuffer};
use gopher_crawler::types::{Item, Referer};

fn respond(domain: &str, port: u16, path: &str, text: &str) -> ResponseBuilder {
    ResponseBuilder {
        raw: text.as_bytes().to_vec(),
        referer: Referer::new(domain, port, path),
    }
}

fn data_item(tag: char, caption: &str, location: &str, domain: &str, port: u16) -> Item {
    Item::DATA {
        tag,
        size: 0,
        caption: caption.to_string(),
        referer: Referer::new(domain, port, "/"),
        location: location.to_string(),
        domain: domain.to_string(),
        port,
    }
}

#[test]
fn dedup_keeps_one_entry_per_identity() {
    let mut client = Client::new("example.test");
    // The same (domain, port, location) under two different captions, from
    // two different menus: at most one entry survives.
    let first = respond(
        "example.test",
        70,
        "/",
        "1Menu A\t/menuA\texample.test\t70\r\n.\r\n",
    );
    let second = respond(
        "example.test",
        70,
        "/other",
        "1Renamed\t/menuA\texample.test\t70\r\n.\r\n",
    );
    client.scan_re(&first, true);
    client.scan_re(&second, true);
    assert_eq!(client.items.len(), 1);
    match &client.items[0] {
        Item::DATA { caption, .. } => assert_eq!(caption, "Menu A"),
        _ => panic!("the surviving entry should be the first"),
    }
}

#[test]
fn dedup_applies_within_one_response() {
    let mut client = Client::new("example.test");
    let resp = respond(
        "example.test",
        70,
        "/",
        "0Twice\t/f\texample.test\t70\r\n0Again\t/f\texample.test\t70\r\n.\r\n",
    );
    client.scan_re(&resp, true);
    assert_eq!(client.items.len(), 1);
}

#[test]
fn boundary_internal_only_never_queues_foreign_directories() {
    let mut client = Client::new("example.test");
    let resp = respond(
        "example.test",
        70,
        "/",
        "1Elsewhere\t/menu\tother.test\t70\r\n1Here\t/local\texample.test\t70\r\n.\r\n",
    );
    client.scan_re(&resp, true);
    assert_eq!(client.items.len(), 2, "excluded entries are still discovered");
    assert_eq!(client.pending.len(), 1, "only the root-homed directory is queued");
    assert_eq!(client.pending[0].domain, "example.test");
    assert_eq!(client.pending[0].path, "/local");
}

#[test]
fn boundary_trace_external_queues_foreign_directories() {
    let mut client = Client::new("example.test");
    let resp = respond(
        "example.test",
        70,
        "/",
        "1Elsewhere\t/menu\tother.test\t70\r\n.\r\n",
    );
    client.scan_re(&resp, false);
    assert_eq!(client.pending.len(), 1);
    assert_eq!(client.pending[0].domain, "other.test");
    assert_eq!(client.pending[0].port, 70);
    assert_eq!(client.pending[0].path, "/menu");
}

#[test]
fn decode_failure_records_referer_and_nothing_else() {
    let mut client = Client::new("example.test");
    let resp = respond("example.test", 70, "/broken", "no terminator");
    client.scan_re(&resp, true);
    assert_eq!(client.items.len(), 0);
    assert_eq!(client.pending.len(), 0);
    assert_eq!(client.referers.len(), 1);
    assert_eq!(client.referers[0].path, "/broken");
}

#[test]
fn end_to_end_crawl_and_download_paths() {
    let mut client = Client::new("example.test");
    client.update_port(70);
    client.start_scan();

    let mut fetched: Vec<String> = Vec::new();
    while let Some(req) = client.next_request() {
        fetched.push(req.path.clone());
        let text = match req.path.as_str() {
            "/" => "1Menu A\t/menuA\texample.test\t70\r\n.\r\n",
            "/menuA" => "0File\t/menuA/file.txt\texample.test\t70\r\n.\r\n",
            other => panic!("unexpected fetch of {}", other),
        };
        let resp = respond(&req.domain, req.port, &req.path, text);
        client.scan_re(&resp, true);
    }

    assert_eq!(fetched, vec!["/".to_string(), "/menuA".to_string()]);
    assert_eq!(client.referers.len(), 2);
    assert_eq!(client.referers[0].path, "/");
    assert_eq!(client.referers[1].path, "/menuA");

    assert_eq!(client.items.len(), 2);
    assert!(matches!(&client.items[0], Item::DATA { tag: '1', location, .. } if location == "/menuA"));
    assert!(matches!(&client.items[1], Item::DATA { tag: '0', location, .. } if location == "/menuA/file.txt"));

    // The download phase for the one text entry.
    let mut texts = text_items(&client.items);
    assert_eq!(texts.len(), 1);
    let bins = binary_items(&client.items);
    assert_eq!(bins.len(), 0);

    let req = Request::from_item(&texts[0]).expect("text entry is fetchable");
    let body = "line one\r\nline two\r\n.\r\n";
    let resp = respond(&req.domain, req.port, &req.path, body);
    let target = resp.target_path("root");
    assert_eq!(target, "root/menuA/file.txt");

    let payload = gopher_crawler::codec::decode_text(&resp.raw);
    assert_eq!(payload, b"line one\r\nline two\r\n".to_vec());

    let mut downloader = Downloader::new("root");
    downloader.record_placed(&mut texts[0], payload.len() as u64);
    assert_eq!(texts[0].get_size(), Some(20));
    assert_eq!(
        downloader.landed_path(&texts[0]).expect("fetchable entry lands somewhere"),
        "root/menuA/file.txt"
    );
}

#[test]
fn size_extremes_pick_largest_and_smallest() {
    let mut a = data_item('0', "five", "/a", "example.test", 70);
    let mut b = data_item('0', "zero", "/b", "example.test", 70);
    let mut c = data_item('0', "hundred", "/c", "example.test", 70);
    a.update_size(5);
    b.update_size(0);
    c.update_size(100);
    let items = vec![a, b, c];
    let min = min_by_size(&items).expect("non-empty run");
    let max = max_by_size(&items).expect("non-empty run");
    assert_eq!(min, 1, "the zero-sized entry is smallest");
    assert_eq!(max, 2, "the hundred-sized entry is largest");
    assert_eq!(items[min].get_size(), Some(0));
    assert_eq!(items[max].get_size(), Some(100));

    let empty: Vec<Item> = Vec::new();
    assert!(min_by_size(&empty).is_none());
    assert!(max_by_size(&empty).is_none());
}

#[test]
fn size_ties_pick_first_minimum_and_last_maximum() {
    let mut a = data_item('0', "a", "/a", "example.test", 70);
    let mut b = data_item('0', "b", "/b", "example.test", 70);
    let mut c = data_item('0', "c", "/c", "example.test", 70);
    a.update_size(3);
    b.update_size(3);
    c.update_size(3);
    let items = vec![a, b, c];
    assert_eq!(min_by_size(&items), Some(0));
    assert_eq!(max_by_size(&items), Some(2));
}

#[test]
fn quarantine_numbers_follow_relocation_order() {
    let mut downloader = Downloader::new("root");
    assert_eq!(downloader.quarantine_path(), "root/corrupted/0.corrupted");

    let mut first = data_item('0', "one", "/bad\u{0}path", "example.test", 70);
    downloader.record_quarantined(&mut first, 11);
    assert_eq!(first.get_size(), Some(11));
    assert_eq!(downloader.quarantine_path(), "root/corrupted/1.corrupted");

    let mut second = data_item('0', "two", "/also bad", "example.test", 70);
    downloader.record_quarantined(&mut second, 7);
    assert_eq!(second.get_size(), Some(7));
    assert_eq!(downloader.quarantine_path(), "root/corrupted/2.corrupted");

    // A relocated entry is re-read from its quarantine file.
    assert_eq!(downloader.landed_path(&first).unwrap(), "root/corrupted/0.corrupted");
    assert_eq!(downloader.landed_path(&second).unwrap(), "root/corrupted/1.corrupted");
}

#[test]
fn partition_splits_text_structural_binary() {
    let items = vec![
        data_item('0', "text", "/t", "example.test", 70),
        data_item('1', "dir", "/d", "example.test", 70),
        data_item('7', "search", "/s", "example.test", 70),
        data_item('9', "bin", "/b", "example.test", 70),
        data_item('g', "gif", "/g", "example.test", 70),
    ];
    let texts = text_items(&items);
    let bins = binary_items(&items);
    assert_eq!(texts.len(), 1);
    assert!(matches!(&texts[0], Item::DATA { tag: '0', .. }));
    assert_eq!(bins.len(), 2);
    assert!(matches!(&bins[0], Item::DATA { tag: '9', .. }));
    assert!(matches!(&bins[1], Item::DATA { tag: 'g', .. }));
}

#[test]
fn report_filters_pick_directories_and_externals() {
    let mut client = Client::new("example.test");
    let resp = respond(
        "example.test",
        70,
        "/",
        "1Dir\t/d\texample.test\t70\r\n0Text\t/t\texample.test\t70\r\n5Far\t/f\tother.test\t70\r\n.\r\n",
    );
    client.scan_re(&resp, false);
    let dirs = client.directory_items();
    assert_eq!(dirs.len(), 1);
    assert!(matches!(&dirs[0], Item::DATA { tag: '1', .. }));
    assert_eq!(client.error_items().len(), 0);
    let ext = client.external_items();
    assert_eq!(ext.len(), 1);
    assert!(matches!(&ext[0], Item::DATA { domain, .. } if domain == "other.test"));
}

#[test]
fn info_messages_join_per_menu() {
    let mut client = Client::new("example.test");
    let resp = respond(
        "example.test",
        70,
        "/",
        "iFirst line\t/\texample.test\t70\r\n0File\t/f\texample.test\t70\r\niSecond line\t/\texample.test\t70\r\n.\r\n",
    );
    client.scan_re(&resp, true);
    let at = Referer::new("example.test", 70, "/");
    assert_eq!(client.get_info_at(at), "First line\nSecond line");
    let elsewhere = Referer::new("example.test", 70, "/other");
    assert_eq!(client.get_info_at(elsewhere), "");
}

#[test]
fn ping_names_the_root_path() {
    let mut client = Client::new("example.test");
    client.update_port(7070);
    let probe = client.ping();
    assert_eq!(probe.domain, "example.test");
    assert_eq!(probe.port, 7070);
    assert_eq!(probe.path, "/");
}

#[test]
fn parse_host_splits_domain_and_port() {
    assert_eq!(parse_host("example.test:70"), ("example.test".to_string(), 70));
    assert_eq!(parse_host("example.test"), ("example.test".to_string(), 70));
    assert_eq!(parse_host("example.test:99999"), ("example.test".to_string(), 70));
    assert_eq!(parse_host("host:7070"), ("host".to_string(), 7070));
}

#[test]
fn log_buffer_accumulates_and_wipes() {
    let mut log = LogBuffer::new();
    log.add("first");
    log.add("second");
    assert_eq!(log.text(), "\nfirst\nsecond");
    wipe_log(&mut log);
    assert_eq!(log.text(), "");
}

#[test]
fn descriptions_render_every_field() {
    let entry = data_item('1', "Menu A", "/menuA", "example.test", 70);
    assert_eq!(
        entry.describe(),
        "==DATA: type 1==\nCaption: Menu A\nLocation: /menuA\nSize: 0\nDomain: example.test\nPort: 70\n"
    );
    let from = Referer::new("example.test", 70, "/");
    assert_eq!(from.describe(), "example.test:70/");
    let info = Item::INFO {
        tag: 'i',
        from: from.clone(),
        message: "hello".to_string(),
        domain: "example.test".to_string(),
        port: 70,
    };
    assert_eq!(
        info.describe(),
        "==INFO: type i==\nFrom: example.test:70/\nMessage: hello\nDomain: example.test\nPort: 70\n"
    );
    let unknown = Item::UNKNOWN { from, unparsed: "???".to_string() };
    assert_eq!(
        unknown.describe(),
        "==Unknown==\nFrom: example.test:70/\nUnparsed content:\n???\n"
    );
}

#[test]
fn ranking_compares_by_size_and_puts_data_above_the_rest() {
    let mut small = data_item('0', "small", "/s", "example.test", 70);
    let mut large = data_item('0', "large", "/l", "example.test", 70);
    small.update_size(1);
    large.update_size(2);
    assert_eq!(small.partial_cmp(&large), Some(std::cmp::Ordering::Less));
    assert_eq!(small.cmp(&large), std::cmp::Ordering::Less);
    assert_eq!(large.cmp(&small), std::cmp::Ordering::Greater);
    let note = Item::INFO {
        tag: 'i',
        from: Referer::new("example.test", 70, "/"),
        message: "note".to_string(),
        domain: "example.test".to_string(),
        port: 70,
    };
    assert_eq!(small.partial_cmp(&note), None);
    assert_eq!(small.cmp(&note), std::cmp::Ordering::Greater);
    assert_eq!(note.cmp(&small), std::cmp::Ordering::Less);
}

#[test]
fn identity_equality_ignores_caption_referer_and_size() {
    let mut a = data_item('0', "one name", "/same", "example.test", 70);
    let b = Item::DATA {
        tag: '0',
        size: 0,
        caption: "another name".to_string(),
        referer: Referer::new("example.test", 70, "/elsewhere"),
        location: "/same".to_string(),
        domain: "example.test".to_string(),
        port: 70,
    };
    a.update_size(999);
    assert!(a == b);
    let c = data_item('0', "one name", "/different", "example.test", 70);
    assert!(a != c);
}

#[test]
fn sizes_render_in_full_decimal() {
    let mut entry = data_item('9', "big", "/big", "example.test", 70);
    entry.update_size(18446744073709551615);
    assert_eq!(
        entry.describe(),
        "==DATA: type 9==\nCaption: big\nLocation: /big\nSize: 18446744073709551615\nDomain: example.test\nPort: 70\n"
    );
}

#[test]
fn parse_host_mostly_digits() {
    // A bare digit run is read as a port with an empty domain.
    assert_eq!(parse_host("7070"), ("".to_string(), 7070));
    assert_eq!(parse_host(""), ("".to_string(), 70));
}
