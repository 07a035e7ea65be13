use axum::http::HeaderValue;
use bytes::Bytes;
use p2p_autos::disposition::{disposition, pct};
use p2p_autos::download::{
    delivered, download, gone, next_req_id, serve, Header, Order, Payload, Polled, Relay, Reply,
    ReqIds,
};
use p2p_autos::range::{parse_range, parse_range_text};
use p2p_autos::share::{insert_share, App, Share};
use p2p_autos::uploader::Cmd;

fn hv(s: &str) -> HeaderValue {
    HeaderValue::from_str(s).unwrap()
}

#[test]
fn download_ranges() {
    assert_eq!(parse_range(None, 100), Ok(None));
    assert_eq!(parse_range(Some(&hv("bytes=0-9")), 100), Ok(Some((0, 10))));
    assert_eq!(parse_range(Some(&hv("bytes=10-")), 100), Ok(Some((10, 100))));
    assert_eq!(parse_range(Some(&hv("bytes=-10")), 100), Ok(Some((90, 100))));
    // clamped to size, not an error
    assert_eq!(parse_range(Some(&hv("bytes=0-999")), 100), Ok(Some((0, 100))));
    assert_eq!(parse_range(Some(&hv("bytes=-999")), 100), Ok(Some((0, 100))));
    // unsatisfiable
    assert_eq!(parse_range(Some(&hv("bytes=100-")), 100), Err(()));
    assert_eq!(parse_range(Some(&hv("bytes=9-2")), 100), Err(()));
    assert_eq!(parse_range(Some(&hv("bytes=0-")), 0), Err(()));
    assert_eq!(parse_range(Some(&hv("bytes=x-y")), 100), Err(()));
    // ignorable
    assert_eq!(parse_range(Some(&hv("bytes=0-1,5-6")), 100), Ok(None));
    assert_eq!(parse_range(Some(&hv("items=0-1")), 100), Ok(None));
}

#[test]
fn main_ranges() {
    assert_eq!(parse_range(None, 100), Ok(None));
    assert_eq!(parse_range(Some(&hv("bytes=0-9")), 100), Ok(Some((0, 10))));
    assert_eq!(parse_range(Some(&hv("bytes=10-")), 100), Ok(Some((10, 100))));
    assert_eq!(parse_range(Some(&hv("bytes=-10")), 100), Ok(Some((90, 100))));
    // clamped to size, not an error
    assert_eq!(parse_range(Some(&hv("bytes=0-999")), 100), Ok(Some((0, 100))));
    assert_eq!(parse_range(Some(&hv("bytes=-999")), 100), Ok(Some((0, 100))));
    // unsatisfiable
    assert_eq!(parse_range(Some(&hv("bytes=100-")), 100), Err(()));
    assert_eq!(parse_range(Some(&hv("bytes=9-2")), 100), Err(()));
    assert_eq!(parse_range(Some(&hv("bytes=0-")), 0), Err(()));
    assert_eq!(parse_range(Some(&hv("bytes=x-y")), 100), Err(()));
    // ignorable
    assert_eq!(parse_range(Some(&hv("bytes=0-1,5-6")), 100), Ok(None));
    assert_eq!(parse_range(Some(&hv("items=0-1")), 100), Ok(None));
}

#[test]
fn download_dispositions_never_break_the_header() {
    let d = disposition("a\"b\\c é.bin");
    assert!(!d.contains('\\') || d.contains("%5C"));
    assert_eq!(d.matches('"').count(), 2);
    assert!(d.contains("filename*=UTF-8''a%22b%5Cc%20%C3%A9.bin"));
}

#[test]
fn main_dispositions_never_break_the_header() {
    let d = disposition("a\"b\\c é.bin");
    assert!(!d.contains('\\') || d.contains("%5C"));
    assert_eq!(d.matches('"').count(), 2);
    assert!(d.contains("filename*=UTF-8''a%22b%5Cc%20%C3%A9.bin"));
}

#[test]
fn ranges_at_the_edges() {
    let max = u64::MAX;
    assert_eq!(parse_range_text(" bytes= 1 - 2 ", 10), Ok(Some((1, 3))));
    assert_eq!(parse_range_text("bytes=-", 10), Err(()));
    // Without a dash it is no range, and ignored.
    assert_eq!(parse_range_text("bytes=", 10), Ok(None));
    assert_eq!(parse_range_text("bytes=5", 10), Ok(None));
    assert_eq!(parse_range(Some(&hv("bytes=5")), 100), Ok(None));
    assert_eq!(parse_range_text("bytes=-0", 10), Err(()));
    assert_eq!(parse_range_text("bytes=-5", 0), Err(()));
    assert_eq!(parse_range_text("bytes=0-1-2", 10), Err(()));
    assert_eq!(parse_range_text("bytes=--1", 10), Err(()));
    assert_eq!(parse_range_text("bytes=+1-+2", 10), Ok(Some((1, 3))));
    assert_eq!(parse_range_text("bytes=x-", 10), Err(()));
    assert_eq!(parse_range_text("bytes=-x", 10), Err(()));
    assert_eq!(parse_range_text("bytes=1-x", 10), Err(()));
    assert_eq!(parse_range_text("Bytes=0-1", 10), Ok(None));
    assert_eq!(parse_range_text("", 10), Ok(None));
    assert_eq!(
        parse_range_text("bytes=0-18446744073709551615", max),
        Ok(Some((0, max)))
    );
    assert_eq!(
        parse_range_text("bytes=0-18446744073709551616", max),
        Err(())
    );
    assert_eq!(
        parse_range_text("bytes=18446744073709551614-", max),
        Ok(Some((max - 1, max)))
    );
    assert_eq!(parse_range_text("bytes=9-9", 10), Ok(Some((9, 10))));
}

#[test]
fn a_header_that_is_no_text_is_ignored() {
    let h = HeaderValue::from_bytes(b"bytes=0-1\xff").unwrap();
    assert_eq!(parse_range(Some(&h), 100), Ok(None));
    let tabbed = HeaderValue::from_bytes(b"\tbytes=0-1").unwrap();
    assert_eq!(parse_range(Some(&tabbed), 100), Ok(Some((0, 2))));
}

#[test]
fn the_three_forms_of_a_range() {
    for (n, m, size) in [(0u64, 0u64, 1u64), (3, 7, 10), (7, 3, 10), (9, 20, 10), (10, 10, 10)] {
        let both = parse_range_text(&format!("bytes={n}-{m}"), size);
        let from = parse_range_text(&format!("bytes={n}-"), size);
        let last = parse_range_text(&format!("bytes=-{n}"), size);
        if n <= m && n < size {
            assert_eq!(both, Ok(Some((n, (m + 1).min(size)))));
        } else {
            assert_eq!(both, Err(()));
        }
        assert_eq!(from, if n < size { Ok(Some((n, size))) } else { Err(()) });
        assert_eq!(
            last,
            if n > 0 {
                Ok(Some((size.saturating_sub(n), size)))
            } else {
                Err(())
            }
        );
    }
}

#[test]
fn percent_encoding() {
    assert_eq!(pct(""), "");
    assert_eq!(pct("AZaz09-._~"), "AZaz09-._~");
    assert_eq!(pct(" /\u{0}\u{7f}"), "%20%2F%00%7F");
    assert_eq!(pct("é€😀"), "%C3%A9%E2%82%AC%F0%9F%98%80");
}

#[test]
fn encoded_names_can_be_read_back() {
    for name in ["plain.txt", "a b%c", "名前", "\u{1}\"\\"] {
        let s = pct(name);
        let mut bytes = Vec::new();
        let mut rest = s.as_str();
        while let Some(c) = rest.chars().next() {
            if c == '%' {
                bytes.push(u8::from_str_radix(&rest[1..3], 16).unwrap());
                rest = &rest[3..];
            } else {
                bytes.push(c as u8);
                rest = &rest[1..];
            }
        }
        assert_eq!(String::from_utf8(bytes).unwrap(), name);
    }
}

#[test]
fn dispositions_are_exact() {
    assert_eq!(
        disposition("a\"b\\c é.bin"),
        "attachment; filename=\"a_b_c _.bin\"; filename*=UTF-8''a%22b%5Cc%20%C3%A9.bin"
    );
    assert_eq!(
        disposition(""),
        "attachment; filename=\"\"; filename*=UTF-8''"
    );
    assert!(HeaderValue::from_str(&disposition("\u{7f}\r\n😀")).is_ok());
}

#[test]
fn request_ids_count_up() {
    let mut ids = ReqIds::new();
    assert_eq!(next_req_id(&mut ids), 1);
    assert_eq!(next_req_id(&mut ids), 2);
    let mut last = ReqIds { next: u32::MAX };
    assert_eq!(next_req_id(&mut last), u32::MAX);
    assert_eq!(next_req_id(&mut last), 0);
}

#[test]
fn a_relay_reports_starved_reads_once() {
    let mut relay = Relay::new(7);
    assert!(matches!(
        relay.on_poll(Polled::Chunk),
        Some(Cmd::Credit(7, false))
    ));
    assert!(relay.on_poll(Polled::Waiting).is_none());
    assert!(relay.on_poll(Polled::Waiting).is_none());
    assert!(matches!(
        relay.on_poll(Polled::Chunk),
        Some(Cmd::Credit(7, true))
    ));
    assert!(matches!(
        relay.on_poll(Polled::Chunk),
        Some(Cmd::Credit(7, false))
    ));
    assert!(relay.on_poll(Polled::End).is_none());
    assert!(matches!(relay.on_drop(), Cmd::Close(7)));
}

fn share(size: u64) -> Share {
    Share {
        name: "a b.txt".to_string(),
        mime: "text/plain".to_string(),
        size,
        conn: 5,
    }
}

fn lines(reply: &Reply) -> Vec<(Header, &str)> {
    reply
        .headers
        .iter()
        .map(|(h, v)| (*h, v.as_str()))
        .collect()
}

fn whole(size: &str) -> Vec<(Header, &str)> {
    vec![
        (Header::ContentType, "text/plain"),
        (Header::ContentLength, size),
        (Header::AcceptRanges, "bytes"),
        (Header::CacheControl, "no-store"),
        (
            Header::ContentDisposition,
            "attachment; filename=\"a b.txt\"; filename*=UTF-8''a%20b.txt",
        ),
    ]
}

#[test]
fn a_whole_file_is_served() {
    let mut app = App::new(256);
    let mut ids = ReqIds::new();
    let id = insert_share(&mut app, share(10)).unwrap();
    let reply = download(&app, &mut ids, &id, false, None);
    assert_eq!(reply.status, 200);
    assert_eq!(lines(&reply), whole("10"));
    match reply.payload {
        Payload::Stream {
            conn,
            file,
            start,
            end,
            mut chunks,
            relay,
        } => {
            assert_eq!((conn, start, end), (5, 0, 10));
            assert_eq!(file, id);
            assert_eq!(relay.req, 1);
            let sink = match reply.order {
                Some(Order {
                    conn: 5,
                    open:
                        Cmd::Open {
                            req: 1,
                            file,
                            start: 0,
                            end: 10,
                            sink,
                        },
                }) if file == id => sink,
                _ => panic!("no order"),
            };
            assert!(!relay.starved);
            // The sink feeds the body, and holds as many chunks as can be in flight.
            assert_eq!(sink.max_capacity(), 4);
            sink.try_send(Bytes::from_static(b"x")).unwrap();
            assert_eq!(chunks.try_recv().unwrap(), Bytes::from_static(b"x"));
        }
        _ => panic!("no stream"),
    }
    assert_eq!(ids.next, 2);
}

#[test]
fn a_part_is_served() {
    let mut app = App::new(256);
    let mut ids = ReqIds::new();
    let id = insert_share(&mut app, share(10)).unwrap();
    let reply = download(&app, &mut ids, &id, false, Some(&hv("bytes=2-4")));
    assert_eq!(reply.status, 206);
    let mut expected = whole("3");
    expected.push((Header::ContentRange, "bytes 2-4/10"));
    assert_eq!(lines(&reply), expected);
    assert!(matches!(
        reply.payload,
        Payload::Stream {
            start: 2,
            end: 5,
            ..
        }
    ));
    assert!(matches!(
        reply.order,
        Some(Order {
            open: Cmd::Open {
                start: 2,
                end: 5,
                ..
            },
            ..
        })
    ));
}

#[test]
fn an_order_that_cannot_be_delivered_is_answered_as_gone() {
    let mut app = App::new(256);
    let mut ids = ReqIds::new();
    let id = insert_share(&mut app, share(10)).unwrap();
    for (sent, status) in [(true, 206), (false, 404)] {
        let mut reply = download(&app, &mut ids, &id, false, Some(&hv("bytes=2-4")));
        assert!(reply.order.take().is_some());
        let reply = delivered(reply, sent);
        assert_eq!(reply.status, status);
        assert_eq!(matches!(reply.payload, Payload::Stream { .. }), sent);
        if !sent {
            assert!(reply.headers.is_empty());
            assert!(matches!(
                reply.payload,
                Payload::Text(text) if text == "410 gone: the sender closed the tab\n"
            ));
        }
    }
    // Nothing is to be delivered where no bytes are needed.
    assert!(download(&app, &mut ids, &id, true, None).order.is_none());
    assert!(download(&app, &mut ids, &id, false, Some(&hv("bytes=10-"))).order.is_none());
    assert!(download(&app, &mut ids, "abcdefgh", false, None).order.is_none());
}

#[test]
fn a_range_outside_the_file_is_refused() {
    let mut app = App::new(256);
    let mut ids = ReqIds::new();
    let id = insert_share(&mut app, share(10)).unwrap();
    let reply = download(&app, &mut ids, &id, false, Some(&hv("bytes=10-")));
    assert_eq!(reply.status, 416);
    assert_eq!(lines(&reply), vec![(Header::ContentRange, "bytes */10")]);
    assert!(matches!(reply.payload, Payload::Empty));
    assert_eq!(ids.next, 1);
}

#[test]
fn headers_alone_need_no_bytes() {
    let mut app = App::new(256);
    let mut ids = ReqIds::new();
    let id = insert_share(&mut app, share(10)).unwrap();
    let get = download(&app, &mut ids, &id, false, Some(&hv("bytes=1-")));
    let head = download(&app, &mut ids, &id, true, Some(&hv("bytes=1-")));
    assert_eq!(head.status, get.status);
    assert_eq!(lines(&head), lines(&get));
    assert!(matches!(head.payload, Payload::Empty));
}

#[test]
fn an_empty_file_needs_no_bytes() {
    let mut ids = ReqIds::new();
    let reply = serve(&share(0), "abcdefgh", false, Ok(None), &mut ids);
    assert_eq!(reply.status, 200);
    assert_eq!(lines(&reply), whole("0"));
    assert!(matches!(reply.payload, Payload::Empty));
}

#[test]
fn an_unknown_link_is_gone() {
    let app = App::new(256);
    let mut ids = ReqIds::new();
    for reply in [download(&app, &mut ids, "abcdefgh", false, None), gone()] {
        assert_eq!(reply.status, 404);
        assert!(reply.headers.is_empty());
        match reply.payload {
            Payload::Text(text) => assert_eq!(text, "410 gone: the sender closed the tab\n"),
            _ => panic!("no text"),
        }
    }
}
