use axum::http::HeaderValue;
use bytes::Bytes;
use p2p_autos::client::{answer_pull, Answer};
use p2p_autos::download::{download, Header, Order, Payload, ReqIds};
use p2p_autos::limits::{CHUNK, MAX_FRAME};
use p2p_autos::protocol::{Down, Out, Up};
use p2p_autos::share::App;
use p2p_autos::uploader::{Actor, Cmd, Event, Frame, Pacing};

fn offer(actor: &mut Actor, app: &mut App, name: &str, size: u64, mime: &str) -> String {
    let up = Up::Offer {
        name: name.to_string(),
        size,
        mime: mime.to_string(),
    };
    let out = actor
        .on_event(app, Event::Incoming(Frame::Text(Some(up))), 0)
        .unwrap();
    assert_eq!(out.len(), 1);
    match &out[0] {
        Out::Text(Down::Ready { id }) => id.clone(),
        _ => panic!("not registered"),
    }
}

#[test]
fn an_offered_file_is_served_under_its_link() {
    let mut app = App::new(256);
    let mut ids = ReqIds::new();
    let mut actor = Actor::new(8, Pacing::Adaptive, 0);
    let id = offer(&mut actor, &mut app, "dir/movie.MKV", 42, "Video/X-Matroska");
    let reply = download(&app, &mut ids, &id, false, None);
    assert_eq!(reply.status, 200);
    let value = |h: Header| {
        reply
            .headers
            .iter()
            .find(|(k, _)| *k == h)
            .map(|(_, v)| v.as_str())
    };
    assert_eq!(value(Header::ContentType), Some("video/x-matroska"));
    assert_eq!(value(Header::ContentLength), Some("42"));
    assert_eq!(
        value(Header::ContentDisposition),
        Some("attachment; filename=\"movie.MKV\"; filename*=UTF-8''movie.MKV")
    );
    assert_eq!(value(Header::ContentRange), None);
    assert!(matches!(
        reply.payload,
        Payload::Stream {
            conn: 8,
            start: 0,
            end: 42,
            ..
        }
    ));
    assert!(matches!(
        reply.order,
        Some(Order {
            conn: 8,
            open: Cmd::Open {
                req: 1,
                start: 0,
                end: 42,
                ..
            },
        })
    ));
}

#[test]
fn a_closed_tab_is_not_found() {
    let mut app = App::new(256);
    let mut ids = ReqIds::new();
    let mut a = Actor::new(1, Pacing::Adaptive, 0);
    let mut b = Actor::new(2, Pacing::Adaptive, 0);
    let mine = offer(&mut a, &mut app, "a", 1, "");
    let other = offer(&mut b, &mut app, "b", 1, "");
    assert_eq!(download(&app, &mut ids, &mine, false, None).status, 200);
    a.shutdown(&mut app);
    assert_eq!(download(&app, &mut ids, &mine, false, None).status, 404);
    assert_eq!(download(&app, &mut ids, &mine, true, None).status, 404);
    assert_eq!(download(&app, &mut ids, &other, false, None).status, 200);
}

#[test]
fn every_header_can_be_sent() {
    let mut app = App::new(256);
    let mut ids = ReqIds::new();
    let mut actor = Actor::new(1, Pacing::Adaptive, 0);
    for (name, mime) in [
        ("\r\nSet-Cookie: x", "text/html\r\nX: y"),
        ("\"\\\u{7f}😀", "a/b;c"),
        ("", ""),
        ("né", "ü/x"),
    ] {
        let id = offer(&mut actor, &mut app, name, u64::MAX, mime);
        for range in [None, Some("bytes=0-0"), Some("bytes=18446744073709551615-")] {
            let range = range.map(|r| HeaderValue::from_str(r).unwrap());
            let reply = download(&app, &mut ids, &id, false, range.as_ref());
            assert!(!reply.headers.is_empty());
            for (_, value) in &reply.headers {
                assert!(HeaderValue::from_str(value).is_ok(), "{value:?}");
                assert!(value.bytes().all(|b| (32..127).contains(&b)));
            }
        }
    }
}

#[test]
fn a_link_is_downloaded_from_the_client() {
    let data: Vec<u8> = (0..CHUNK as usize + 1000).map(|i| (i % 251) as u8).collect();
    let mut app = App::new(256);
    let mut ids = ReqIds::new();
    let mut actor = Actor::new(1, Pacing::Adaptive, 0);
    let id = offer(&mut actor, &mut app, "f", data.len() as u64, "");
    let range = HeaderValue::from_str("bytes=500-").unwrap();
    let reply = download(&app, &mut ids, &id, false, Some(&range));
    let open = reply.order.unwrap().open;
    let (mut chunks, mut relay) = match reply.payload {
        Payload::Stream { chunks, relay, .. } => (chunks, relay),
        _ => panic!("no stream"),
    };
    let mut events = vec![Event::Command(open)];
    let mut body: Vec<u8> = Vec::new();
    while let Some(event) = events.pop() {
        for out in actor.on_event(&mut app, event, 0).unwrap() {
            if let Out::Text(Down::Pull { r, file, s, e }) = out {
                assert_eq!(file, id);
                let read = data[s as usize..e as usize].to_vec();
                match answer_pull(r, Some(read)) {
                    Answer::Binary(f) => {
                        assert!(f.len() <= MAX_FRAME);
                        events.push(Event::Incoming(Frame::Binary(Bytes::from(f))));
                    }
                    Answer::Text(_) => panic!("no frame"),
                }
            }
        }
        while let Ok(chunk) = chunks.try_recv() {
            body.extend_from_slice(&chunk);
            let credit = relay.on_poll(p2p_autos::download::Polled::Chunk).unwrap();
            events.push(Event::Command(credit));
        }
    }
    assert!(body == data[500..]);
    assert!(actor.reqs.is_empty());
}
