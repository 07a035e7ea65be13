use bytes::Bytes;
use p2p_autos::frame::{decode_frame, encode_frame};
use p2p_autos::limits::{
    CHUNK, CONN_IDLE_TIMEOUT, MAX_FRAME, MAX_REQS_PER_CONN, MAX_SHARES_PER_CONN, MAX_WINDOW,
    MAX_WRITE_BUFFER, PING_EVERY, REQ_IDLE_TIMEOUT, SEND_TIMEOUT, WINDOW,
};
use p2p_autos::protocol::{Down, Out, Up};
use p2p_autos::share::App;
use p2p_autos::uploader::{Actor, Cmd, Event, Frame, Pacing};
use tokio::sync::mpsc::{channel, Receiver, Sender};

fn text(out: &Out) -> String {
    match out {
        Out::Text(d) => d.text(),
        Out::Ping => "ping".to_string(),
    }
}

fn texts(out: Vec<Out>) -> Vec<String> {
    out.iter().map(text).collect()
}

fn pipe() -> (Sender<Bytes>, Receiver<Bytes>) {
    channel(4)
}

fn open(req: u32, start: u64, end: u64, sink: Sender<Bytes>) -> Event {
    Event::Command(Cmd::Open {
        req,
        file: "abcdefgh".to_string(),
        start,
        end,
        sink,
    })
}

fn frame(req: u32, data: &[u8]) -> Event {
    Event::Incoming(Frame::Binary(Bytes::from(encode_frame(req, &data.to_vec()))))
}

fn offer(name: &str, size: u64, mime: &str) -> Event {
    Event::Incoming(Frame::Text(Some(Up::Offer {
        name: name.to_string(),
        size,
        mime: mime.to_string(),
    })))
}

fn pull(r: u32, s: u64, e: u64) -> String {
    format!("{{\"t\":\"pull\",\"r\":{r},\"f\":\"abcdefgh\",\"s\":{s},\"e\":{e}}}")
}

#[test]
fn limits_have_their_values() {
    assert_eq!(CHUNK, 1 << 20);
    assert_eq!(WINDOW, 4);
    assert_eq!(MAX_WINDOW, 4);
    assert_eq!(MAX_FRAME, (1 << 20) + 4);
    assert_eq!(MAX_WRITE_BUFFER, ((1 << 20) + 4) * 6);
    assert_eq!(MAX_SHARES_PER_CONN, 64);
    assert_eq!(MAX_REQS_PER_CONN, 32);
    assert_eq!(PING_EVERY, 25_000_000_000);
    assert_eq!(SEND_TIMEOUT, 10_000_000_000);
    assert_eq!(REQ_IDLE_TIMEOUT, 120_000_000_000);
    assert_eq!(CONN_IDLE_TIMEOUT, 90_000_000_000);
}

#[test]
fn messages_are_written_as_json() {
    assert_eq!(
        Down::Ready { id: "abcdefgh".to_string() }.text(),
        r#"{"t":"ready","id":"abcdefgh"}"#
    );
    assert_eq!(Down::Full.text(), r#"{"t":"full"}"#);
    assert_eq!(
        Down::Pull { r: 7, file: "abcdefgh".to_string(), s: 0, e: 1048576 }.text(),
        r#"{"t":"pull","r":7,"f":"abcdefgh","s":0,"e":1048576}"#
    );
    assert_eq!(
        Down::Cancel { r: u32::MAX }.text(),
        r#"{"t":"cancel","r":4294967295}"#
    );
}

#[test]
fn frames_round_trip() {
    for r in [0, 1, 0x01020304, u32::MAX] {
        let f = encode_frame(r, &vec![9, 8, 7]);
        assert_eq!(f[..4], r.to_le_bytes());
        let (id, data) = decode_frame(&Bytes::from(f)).unwrap();
        assert_eq!((id, &data[..]), (r, &[9u8, 8, 7][..]));
    }
    assert_eq!(encode_frame(1, &vec![0; CHUNK as usize]).len(), MAX_FRAME);
    let (id, data) = decode_frame(&Bytes::from_static(&[1, 0, 0, 0])).unwrap();
    assert_eq!((id, data.len()), (1, 0));
    assert!(decode_frame(&Bytes::from_static(&[1, 0, 0])).is_none());
}

#[test]
fn offers_are_registered_and_answered() {
    let mut app = App::new(256);
    let mut actor = Actor::new(3, Pacing::Adaptive, 0);
    let out = actor
        .on_event(&mut app, offer("../x.TXT", 5, "Text/Plain"), 1)
        .unwrap();
    assert_eq!(actor.ids.len(), 1);
    assert_eq!(
        texts(out),
        vec![format!("{{\"t\":\"ready\",\"id\":\"{}\"}}", actor.ids[0])]
    );
    let share = app.shares.find(&actor.ids[0]).unwrap();
    assert_eq!(
        (share.name.as_str(), share.mime.as_str(), share.size, share.conn),
        ("x.TXT", "text/plain", 5, 3)
    );
    assert_eq!(actor.last_seen, 1);
}

#[test]
fn a_tab_has_so_many_shares_and_no_more() {
    let mut app = App::new(256);
    let mut actor = Actor::new(1, Pacing::Adaptive, 0);
    // What other tabs have registered makes no difference.
    let mut other = Actor::new(2, Pacing::Adaptive, 0);
    for n in 1..=64 {
        other.on_event(&mut app, offer("g", 1, ""), 0).unwrap();
        let out = actor.on_event(&mut app, offer("f", 1, ""), 0).unwrap();
        assert_eq!(out.len(), 1);
        assert!(text(&out[0]).starts_with(r#"{"t":"ready""#));
        assert_eq!(actor.ids.len(), n);
    }
    let out = actor.on_event(&mut app, offer("f", 1, ""), 0).unwrap();
    assert_eq!(texts(out), vec![r#"{"t":"full"}"#]);
    assert_eq!(actor.ids.len(), 64);
}

#[test]
fn a_closed_tab_takes_its_shares_along() {
    let mut app = App::new(256);
    let mut a = Actor::new(1, Pacing::Adaptive, 0);
    let mut b = Actor::new(2, Pacing::Adaptive, 0);
    a.on_event(&mut app, offer("a", 1, ""), 0).unwrap();
    a.on_event(&mut app, offer("b", 1, ""), 0).unwrap();
    b.on_event(&mut app, offer("c", 1, ""), 0).unwrap();
    let (sink, mut rx) = pipe();
    a.on_event(&mut app, open(1, 0, 10, sink), 0).unwrap();
    let (other, _keep) = pipe();
    b.on_event(&mut app, open(2, 0, 10, other), 0).unwrap();
    assert_eq!(app.active_downloads, 2);
    let ids = a.ids.clone();
    assert!(a
        .on_event(&mut app, Event::Incoming(Frame::Close), 0)
        .is_none());
    a.shutdown(&mut app);
    for id in &ids {
        assert!(app.shares.find(id).is_none());
    }
    assert!(app.shares.find(&b.ids[0]).is_some());
    assert_eq!(app.active_downloads, 1);
    // The body of the download ends.
    assert!(rx.try_recv().is_err());
    assert!(rx.is_closed() || rx.is_empty());
}

#[test]
fn a_hangup_ends_the_connection() {
    let mut app = App::new(256);
    let mut actor = Actor::new(1, Pacing::Adaptive, 0);
    assert!(actor.on_event(&mut app, Event::Hangup, 1).is_none());
}

#[test]
fn keepalives_and_noise_say_nothing() {
    let mut app = App::new(256);
    let mut actor = Actor::new(1, Pacing::Adaptive, 0);
    for f in [Frame::Ping, Frame::Pong, Frame::Text(None)] {
        let out = actor.on_event(&mut app, Event::Incoming(f), 5).unwrap();
        assert!(out.is_empty());
    }
    assert_eq!(actor.last_seen, 5);
    // Too short for a request id, and a request that does not exist.
    let short = Event::Incoming(Frame::Binary(Bytes::from_static(&[1, 2, 3])));
    assert!(actor.on_event(&mut app, short, 6).unwrap().is_empty());
    assert!(actor.on_event(&mut app, frame(9, b"x"), 7).unwrap().is_empty());
    assert_eq!(actor.last_seen, 7);
}

#[test]
fn a_fixed_window_is_filled_at_once() {
    let mut app = App::new(256);
    let mut actor = Actor::new(1, Pacing::Fixed, 0);
    let (sink, _rx) = pipe();
    let out = actor
        .on_event(&mut app, open(7, 5, 5 * CHUNK, sink), 0)
        .unwrap();
    assert_eq!(
        texts(out),
        vec![
            pull(7, 5, CHUNK + 5),
            pull(7, CHUNK + 5, 2 * CHUNK + 5),
            pull(7, 2 * CHUNK + 5, 3 * CHUNK + 5),
            pull(7, 3 * CHUNK + 5, 4 * CHUNK + 5),
        ]
    );
    let out = actor
        .on_event(&mut app, Event::Command(Cmd::Credit(7, false)), 0)
        .unwrap();
    assert_eq!(texts(out), vec![pull(7, 4 * CHUNK + 5, 5 * CHUNK)]);
    let out = actor
        .on_event(&mut app, Event::Command(Cmd::Credit(7, true)), 0)
        .unwrap();
    assert!(out.is_empty());
}

#[test]
fn an_adaptive_window_grows_when_starved() {
    let mut app = App::new(256);
    let mut actor = Actor::new(1, Pacing::Adaptive, 0);
    let (sink, _rx) = pipe();
    let out = actor
        .on_event(&mut app, open(1, 0, 100 * CHUNK, sink), 0)
        .unwrap();
    assert_eq!(texts(out), vec![pull(1, 0, CHUNK)]);
    let mut issued = Vec::new();
    for starved in [false, true, true, true, true, false] {
        let out = actor
            .on_event(&mut app, Event::Command(Cmd::Credit(1, starved)), 0)
            .unwrap();
        issued.push((out.len(), actor.reqs[&1].window));
    }
    assert_eq!(issued, vec![(1, 1), (2, 2), (2, 3), (2, 4), (1, 4), (1, 4)]);
    assert_eq!(actor.reqs[&1].outstanding, 4);
}

#[test]
fn the_fair_share_caps_the_window() {
    let mut app = App::new(2);
    let mut actor = Actor::new(1, Pacing::Adaptive, 0);
    let (sink, _rx) = pipe();
    actor.on_event(&mut app, open(1, 0, 100 * CHUNK, sink), 0).unwrap();
    for _ in 0..5 {
        actor
            .on_event(&mut app, Event::Command(Cmd::Credit(1, true)), 0)
            .unwrap();
    }
    assert_eq!(actor.reqs[&1].window, 4);
    assert_eq!(actor.reqs[&1].outstanding, 2);
    // A second download halves the share; the first one's pulls run dry.
    let (other, _keep) = pipe();
    actor.on_event(&mut app, open(2, 0, CHUNK, other), 0).unwrap();
    assert_eq!(app.active_downloads, 2);
    let out = actor
        .on_event(&mut app, Event::Command(Cmd::Credit(1, false)), 0)
        .unwrap();
    assert!(out.is_empty());
    let out = actor
        .on_event(&mut app, Event::Command(Cmd::Credit(1, false)), 0)
        .unwrap();
    assert_eq!(out.len(), 1);
}

#[test]
fn so_many_downloads_per_tab_and_no_more() {
    let mut app = App::new(256);
    let mut actor = Actor::new(1, Pacing::Adaptive, 0);
    let mut keep = Vec::new();
    for req in 0..32 {
        let (sink, rx) = pipe();
        keep.push(rx);
        let out = actor.on_event(&mut app, open(req, 0, 1, sink), 0).unwrap();
        assert_eq!(out.len(), 1);
    }
    let (sink, mut rx) = pipe();
    let out = actor.on_event(&mut app, open(32, 0, 1, sink), 0).unwrap();
    assert!(out.is_empty());
    assert_eq!(actor.reqs.len(), 32);
    assert_eq!(app.active_downloads, 32);
    assert!(matches!(
        rx.try_recv(),
        Err(tokio::sync::mpsc::error::TryRecvError::Disconnected)
    ));
}

#[test]
fn a_reused_number_replaces_its_download() {
    let mut app = App::new(256);
    let mut actor = Actor::new(1, Pacing::Adaptive, 0);
    let (first, _a) = pipe();
    let (second, _b) = pipe();
    actor.on_event(&mut app, open(1, 0, 1, first), 0).unwrap();
    actor.on_event(&mut app, open(1, 5, 9, second), 0).unwrap();
    assert_eq!(app.active_downloads, 1);
    assert_eq!(actor.reqs[&1].next, 9);
}

#[test]
fn closing_tells_the_tab() {
    let mut app = App::new(256);
    let mut actor = Actor::new(1, Pacing::Adaptive, 0);
    let (sink, _rx) = pipe();
    actor.on_event(&mut app, open(4, 0, 1, sink), 0).unwrap();
    let close = |a: &mut Actor, app: &mut App| {
        texts(a.on_event(app, Event::Command(Cmd::Close(4)), 0).unwrap())
    };
    assert_eq!(close(&mut actor, &mut app), vec![r#"{"t":"cancel","r":4}"#]);
    assert_eq!(app.active_downloads, 0);
    assert!(close(&mut actor, &mut app).is_empty());
    assert_eq!(app.active_downloads, 0);
    // A credit for a download that is gone does nothing.
    let out = actor
        .on_event(&mut app, Event::Command(Cmd::Credit(4, true)), 0)
        .unwrap();
    assert!(out.is_empty());
}

#[test]
fn a_failed_read_cuts_the_body_short() {
    let mut app = App::new(256);
    let mut actor = Actor::new(1, Pacing::Adaptive, 0);
    let (sink, mut rx) = pipe();
    let (other, _keep) = pipe();
    actor.on_event(&mut app, open(4, 0, 9, sink), 0).unwrap();
    actor.on_event(&mut app, open(5, 0, 9, other), 0).unwrap();
    let failed = Event::Incoming(Frame::Text(Some(Up::Failed { r: 4 })));
    assert!(actor.on_event(&mut app, failed, 0).unwrap().is_empty());
    assert!(!actor.reqs.contains_key(&4));
    assert!(actor.reqs.contains_key(&5));
    assert_eq!(app.active_downloads, 1);
    assert!(matches!(
        rx.try_recv(),
        Err(tokio::sync::mpsc::error::TryRecvError::Disconnected)
    ));
}

#[test]
fn an_unsolicited_frame_ends_its_download_alone() {
    let mut app = App::new(256);
    let mut actor = Actor::new(1, Pacing::Adaptive, 0);
    let (sink, mut rx) = pipe();
    let (other, _keep) = pipe();
    actor.on_event(&mut app, open(1, 0, 2 * CHUNK, sink), 0).unwrap();
    actor.on_event(&mut app, open(2, 0, 9, other), 0).unwrap();
    // The first answer was asked for, the second was not.
    actor.on_event(&mut app, frame(1, b"x"), 1).unwrap();
    assert_eq!(actor.reqs[&1].pending, 0);
    assert_eq!(actor.reqs[&1].last_progress, 1);
    assert_eq!(rx.try_recv().unwrap(), Bytes::from_static(b"x"));
    actor.on_event(&mut app, frame(1, b"y"), 2).unwrap();
    assert!(!actor.reqs.contains_key(&1));
    assert!(actor.reqs.contains_key(&2));
    assert_eq!(app.active_downloads, 1);
    assert!(rx.try_recv().is_err());
}

#[test]
fn a_lost_receiver_ends_its_download() {
    let mut app = App::new(256);
    let mut actor = Actor::new(1, Pacing::Adaptive, 0);
    let (sink, rx) = pipe();
    actor.on_event(&mut app, open(1, 0, 2 * CHUNK, sink), 0).unwrap();
    drop(rx);
    actor.on_event(&mut app, frame(1, b"x"), 1).unwrap();
    assert!(actor.reqs.is_empty());
    assert_eq!(app.active_downloads, 0);
}

#[test]
fn a_silent_connection_is_dead() {
    let mut app = App::new(256);
    let mut actor = Actor::new(1, Pacing::Adaptive, 7);
    let at = 7 + CONN_IDLE_TIMEOUT;
    let out = actor.on_event(&mut app, Event::Tick, at).unwrap();
    assert_eq!(texts(out), vec!["ping"]);
    assert!(actor.on_event(&mut app, Event::Tick, at + 1).is_none());
    // Anything from the tab keeps it alive.
    actor
        .on_event(&mut app, Event::Incoming(Frame::Pong), at)
        .unwrap();
    assert!(actor.on_event(&mut app, Event::Tick, at + 1).is_some());
}

#[test]
fn a_stuck_download_is_cancelled() {
    let mut app = App::new(256);
    let mut actor = Actor::new(1, Pacing::Adaptive, 0);
    let mut keep = Vec::new();
    for (req, at) in [(1, 0), (2, 10), (3, 0)] {
        let (sink, rx) = pipe();
        keep.push(rx);
        actor.on_event(&mut app, open(req, 0, CHUNK, sink), at).unwrap();
    }
    let now = REQ_IDLE_TIMEOUT + 1;
    actor
        .on_event(&mut app, Event::Incoming(Frame::Pong), now)
        .unwrap();
    let mut out = texts(actor.on_event(&mut app, Event::Tick, now).unwrap());
    assert_eq!(out.pop().unwrap(), "ping");
    out.sort();
    assert_eq!(out, vec![r#"{"t":"cancel","r":1}"#, r#"{"t":"cancel","r":3}"#]);
    assert_eq!(actor.reqs.len(), 1);
    assert!(actor.reqs.contains_key(&2));
    assert_eq!(app.active_downloads, 1);
}

/// A file whose bytes tell their place.
fn sample(len: usize) -> Vec<u8> {
    (0..len).map(|i| (i * 31 + i / 977) as u8).collect()
}

/// Runs a download to its end with a tab that answers in order and a consumer
/// that takes a chunk now and then, and yields the body.
fn run(pacing: Pacing, data: &[u8], start: u64, end: u64, lazy: usize) -> Vec<u8> {
    let mut app = App::new(256);
    let mut actor = Actor::new(1, pacing, 0);
    let (sink, mut rx) = pipe();
    let mut asked: Vec<(usize, usize)> = Vec::new();
    let mut body = Vec::new();
    let take = |out: Vec<Out>, asked: &mut Vec<(usize, usize)>| {
        for o in out {
            if let Out::Text(Down::Pull { r, file, s, e }) = o {
                assert_eq!((r, file.as_str()), (1, "abcdefgh"));
                assert!(s < e && e <= end && e - s <= CHUNK);
                asked.push((s as usize, e as usize));
            }
        }
    };
    take(
        actor.on_event(&mut app, open(1, start, end, sink), 0).unwrap(),
        &mut asked,
    );
    let mut step = 0;
    loop {
        step += 1;
        if !asked.is_empty() && step % lazy != 0 {
            let (s, e) = asked.remove(0);
            let out = actor.on_event(&mut app, frame(1, &data[s..e]), step as u64).unwrap();
            assert!(out.is_empty());
            continue;
        }
        match rx.try_recv() {
            Ok(chunk) => {
                body.extend_from_slice(&chunk);
                let credit = Event::Command(Cmd::Credit(1, step % 3 == 0));
                let out = actor.on_event(&mut app, credit, step as u64).unwrap();
                take(out, &mut asked);
            }
            Err(tokio::sync::mpsc::error::TryRecvError::Empty) => {}
            Err(tokio::sync::mpsc::error::TryRecvError::Disconnected) => break,
        }
    }
    assert!(actor.reqs.is_empty());
    assert_eq!(app.active_downloads, 0);
    body
}

#[test]
fn bodies_are_the_requested_range() {
    let chunk = CHUNK as usize;
    let data = sample(9 * chunk + 77);
    let size = data.len() as u64;
    for pacing in [Pacing::Fixed, Pacing::Adaptive] {
        for (start, end) in [(0, size), (5, 6), (CHUNK - 1, 3 * CHUNK + 1), (size - 1, size)] {
            for lazy in [2, 3, 7] {
                let body = run(pacing, &data, start, end, lazy);
                assert_eq!(body.len() as u64, end - start);
                assert!(body == data[start as usize..end as usize]);
            }
        }
    }
}

#[test]
fn a_download_is_resumed() {
    let chunk = CHUNK as usize;
    let data = sample(2 * chunk + 5);
    let k = chunk + 9;
    let rest = run(Pacing::Adaptive, &data, k as u64, data.len() as u64, 2);
    let mut all = data[..k].to_vec();
    all.extend_from_slice(&rest);
    assert!(all == data);
}

#[test]
fn a_reply_hands_back_the_finished_sink() {
    let mut app = App::new(256);
    let mut actor = Actor::new(1, Pacing::Adaptive, 0);
    let (sink, mut rx) = pipe();
    actor.on_event(&mut app, open(1, 0, 3, sink), 0).unwrap();
    let over = actor.on_pull_reply(&mut app, Bytes::from(encode_frame(1, &vec![1, 2, 3])), 1);
    assert!(over.is_some());
    assert_eq!(&rx.try_recv().unwrap()[..], &[1u8, 2, 3][..]);
    drop(over);
    assert!(matches!(
        rx.try_recv(),
        Err(tokio::sync::mpsc::error::TryRecvError::Disconnected)
    ));
}
