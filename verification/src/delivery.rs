//! What a download delivers: with a tab that answers its pulls in order, the
//! bytes that go into the body are exactly the requested range of the file.

use crate::channel::{handed, passed, room, same_channel, took, Attempt};
use crate::frame::{contents, frame_bytes, law_frame_round_trip, HEADER};
use crate::guarantees::{
    course, law_bounds_are_kept, law_other_downloads_are_untouched, state_after, subject, Step,
};
use crate::limits::{CHUNK, MAX_FRAME, MAX_REQS_PER_CONN, MAX_WINDOW};
use crate::protocol::{DownView, OutView};
use crate::uploader::{Cmd, Event, Frame, HostState, Req};
use bytes::Bytes;
use tokio::sync::mpsc::Sender;
use vstd::prelude::*;

verus! {

/// Whether `pulls` ask, for request `req`, for the bytes `from .. to` of the
/// share `file`: one after the other, without gap or overlap, each for at least
/// one byte and at most a chunk.
pub open spec fn tiles(
    pulls: Seq<OutView>,
    req: u32,
    file: Seq<char>,
    from: u64,
    to: u64,
) -> bool
    decreases pulls.len(),
{
    if pulls.len() == 0 {
        from == to
    } else {
        match pulls[0] {
            OutView::Text(DownView::Pull { r, file: f, s, e }) => {
                &&& r == req
                &&& f == file
                &&& s == from
                &&& s < e <= s + CHUNK
                &&& e <= to
                &&& tiles(pulls.drop_first(), req, file, e, to)
            },
            _ => false,
        }
    }
}

/// What an honest tab answers a pull with, where the file holds `data`.
pub open spec fn answer(pull: OutView, data: Seq<u8>) -> Seq<u8> {
    match pull {
        OutView::Text(DownView::Pull { r, file, s, e }) => frame_bytes(
            r,
            data.subrange(s as int, e as int),
        ),
        _ => Seq::empty(),
    }
}

/// The bytes that a request has handed on so far.
pub open spec fn body(r: Req) -> Seq<u8> {
    passed(handed(r.sink)).flatten()
}

/// Whether request `req` is on its way through the file `data`, which it began
/// at `start`: it has handed on the file's bytes from there, and the pulls
/// `asked` are those that are still to be answered.
pub open spec fn delivering(
    s: HostState,
    req: u32,
    data: Seq<u8>,
    start: u64,
    asked: Seq<OutView>,
) -> bool {
    let r = s.reqs[req];
    let at = start + body(r).len();
    &&& s.reqs.contains_key(req)
    &&& at <= r.next <= r.end <= data.len()
    &&& body(r) == data.subrange(start as int, at)
    &&& r.pending == asked.len()
    &&& tiles(asked, req, r.file@, at as u64, r.next)
}

/// Two runs of pulls that meet make one.
proof fn lemma_tiles_join(
    a: Seq<OutView>,
    b: Seq<OutView>,
    req: u32,
    file: Seq<char>,
    from: u64,
    mid: u64,
    to: u64,
)
    requires
        tiles(a, req, file, from, mid),
        tiles(b, req, file, mid, to),
    ensures
        tiles(a + b, req, file, from, to),
        from <= mid <= to,
    decreases a.len(), b.len(),
{
    if a.len() == 0 {
        assert(a + b =~= b);
        if b.len() > 0 {
            if let OutView::Text(DownView::Pull { r, file: f, s, e }) = b[0] {
                let none = Seq::<OutView>::empty();
                lemma_tiles_join(none, b.drop_first(), req, file, e, e, to);
            }
        }
    } else {
        if let OutView::Text(DownView::Pull { r, file: f, s, e }) = a[0] {
            assert((a + b).drop_first() =~= a.drop_first() + b);
            lemma_tiles_join(a.drop_first(), b, req, file, e, mid, to);
        }
    }
}

/// The pulls of a request from the `i`th on.
proof fn lemma_pulls_tile(r: Req, req: u32, depth: int, i: int)
    requires
        r.next <= r.end,
        0 <= i <= r.pull_count(depth),
    ensures
        tiles(
            r.pulls(req, depth).skip(i),
            req,
            r.file@,
            r.reach(i),
            r.reach(r.pull_count(depth)),
        ),
    decreases r.pull_count(depth) - i,
{
    let k = r.pull_count(depth);
    let rest = r.pulls(req, depth).skip(i);
    r.lemma_reach(i);
    r.lemma_reach(i + 1);
    r.lemma_reach(k);
    if i < k {
        lemma_pulls_tile(r, req, depth, i + 1);
        assert(rest.drop_first() =~= r.pulls(req, depth).skip(i + 1));
        let none = Seq::<OutView>::empty();
        lemma_tiles_join(
            none,
            rest.drop_first(),
            req,
            r.file@,
            r.reach(i + 1),
            r.reach(i + 1),
            r.reach(k),
        );
    }
}

/// Law: the pulls of one step ask for the next bytes of the request's range,
/// from the first that was not asked for yet up to where the next step goes on.
pub proof fn law_pulls_go_on(r: Req, req: u32, depth: int)
    requires
        r.next <= r.end,
    ensures
        tiles(r.pulls(req, depth), req, r.file@, r.next, r.advanced(depth).next),
        r.advanced(depth).next <= r.end,
{
    lemma_pulls_tile(r, req, depth, 0);
    r.lemma_reach(r.pull_count(depth));
    assert(r.pulls(req, depth).skip(0) =~= r.pulls(req, depth));
}

/// The pulls of request `req` that are still to be answered after an event.
pub open spec fn asked_after(
    asked: Seq<OutView>,
    req: u32,
    event: Event,
    res: Option<Seq<OutView>>,
) -> Seq<OutView> {
    match event {
        Event::Incoming(Frame::Binary(_)) => if subject(event) == Some(req) {
            asked.drop_first()
        } else {
            asked
        },
        Event::Command(Cmd::Credit(r, _)) => if r == req {
            asked + res->0
        } else {
            asked
        },
        _ => asked,
    }
}

/// One more chunk at the end of a body.
proof fn lemma_body_grows(chunks: Seq<Seq<u8>>, chunk: Seq<u8>)
    ensures
        chunks.push(chunk).flatten() == chunks.flatten() + chunk,
{
    chunks.lemma_flatten_and_flatten_alt_are_equivalent();
    chunks.push(chunk).lemma_flatten_and_flatten_alt_are_equivalent();
    assert(chunks.push(chunk).drop_last() =~= chunks);
}

/// Law: a download begins at the start of its range, with at least one pull.
pub proof fn law_download_begins(
    s: HostState,
    req: u32,
    file: String,
    start: u64,
    end: u64,
    sink: Sender<Bytes>,
    now: u64,
    data: Seq<u8>,
)
    requires
        s.reqs.len() < MAX_REQS_PER_CONN,
        start < end <= data.len(),
        handed(sink).len() == 0,
    ensures
        ({
            let (t, out) = s.commanded(Cmd::Open { req, file, start, end, sink }, now);
            &&& delivering(t, req, data, start, out)
            &&& t.reqs[req].file@ == file@
            &&& t.reqs[req].end == end
            &&& out.len() >= 1
        }),
{
    let u = s.opened(req, file, start, end, sink, now);
    let r = u.reqs[req];
    law_pulls_go_on(r, req, u.depth(r));
    assert(handed(sink) =~= Seq::<Attempt>::empty());
    assert(passed(handed(sink)) =~= Seq::empty());
    assert(data.subrange(start as int, start as int) =~= Seq::empty());
}

/// Law: once a download has handed on all that it asked for and not all of its
/// range is asked for, the credit for the last chunk brings another pull: no
/// download is starved by the others.
pub proof fn law_download_moves_on(s: HostState, req: u32, starved: bool, now: u64)
    requires
        s.reqs.contains_key(req),
        s.reqs[req].wf(),
        s.reqs[req].outstanding <= 1,
        s.reqs[req].next < s.reqs[req].end,
    ensures
        s.commanded(Cmd::Credit(req, starved), now).1.len() >= 1,
{
}

/// Law: while the tab answers a download's pulls in order with the bytes that
/// they ask for, what the download has handed on is always the file's bytes
/// from the start of its range, whatever else happens on the connection.
pub proof fn law_delivery_is_exact(
    s: HostState,
    event: Event,
    now: u64,
    t: HostState,
    res: Option<Seq<OutView>>,
    req: u32,
    data: Seq<u8>,
    start: u64,
    asked: Seq<OutView>,
)
    requires
        s.wf(),
        s.stepped(event, now, t, res),
        delivering(s, req, data, start, asked),
        !(event matches Event::Command(Cmd::Open { req: r, .. }) && r == req),
        event matches Event::Incoming(Frame::Binary(buf)) ==> subject(event) == Some(req)
            && asked.len() > 0 ==> contents(buf) == answer(asked[0], data),
    ensures
        t.reqs.contains_key(req) ==> delivering(
            t,
            req,
            data,
            start,
            asked_after(asked, req, event, res),
        ) && t.reqs[req].end == s.reqs[req].end && same_channel(
            t.reqs[req].sink,
            s.reqs[req].sink,
        ),
{
    if t.reqs.contains_key(req) {
        let r = s.reqs[req];
        let at = (start + body(r).len()) as u64;
        match event {
            Event::Command(Cmd::Credit(q, starved)) if q == req => {
                let u = s.credited(req, starved, now);
                let c = u.reqs[req];
                law_pulls_go_on(c, req, u.depth(c));
                c.lemma_reach(c.pull_count(u.depth(c)));
                lemma_tiles_join(
                    asked,
                    c.pulls(req, u.depth(c)),
                    req,
                    r.file@,
                    at,
                    r.next,
                    t.reqs[req].next,
                );
            },
            Event::Incoming(Frame::Binary(buf)) if subject(event) == Some(req) => {
                let u = s.seen(now);
                let over = choose|over: Option<Sender<Bytes>>| #[trigger]
                    u.replied(contents(buf), now, t, over);
                assert(delivering(u, req, data, start, asked));
                if asked.len() > 0 {
                    law_body_is_the_range(u, contents(buf), now, t, over, req, data, start, asked);
                }
            },
            Event::Tick => {},
            _ => {
                law_other_downloads_are_untouched(s, event, now, t, res, req);
            },
        }
    }
}

/// What an honest answer to the first pull leads to.
proof fn lemma_answer(
    s: HostState,
    f: Seq<u8>,
    now: u64,
    req: u32,
    data: Seq<u8>,
    start: u64,
    asked: Seq<OutView>,
)
    requires
        delivering(s, req, data, start, asked),
        asked.len() > 0,
        f == answer(asked[0], data),
    ensures
        ({
            let (u, chunk) = s.accepted(f, now);
            &&& chunk is Some
            &&& (chunk->0).0 == req
            &&& forall|sink: Sender<Bytes>| #[trigger]
                took(s.reqs[req].sink, (chunk->0).1, sink, true) ==> delivering(
                    u.with_sink(req, sink),
                    req,
                    data,
                    start,
                    asked.drop_first(),
                )
        }),
{
    if let OutView::Text(DownView::Pull { r, file, s: from, e }) = asked[0] {
        let chunk = data.subrange(from as int, e as int);
        law_frame_round_trip(r, chunk);
        let (u, _) = s.accepted(f, now);
        assert forall|sink: Sender<Bytes>| #[trigger]
            took(s.reqs[req].sink, chunk, sink, true) implies delivering(
            u.with_sink(req, sink),
            req,
            data,
            start,
            asked.drop_first(),
        ) by {
            lemma_body_grows(passed(handed(s.reqs[req].sink)), chunk);
            assert(data.subrange(start as int, from as int) + chunk =~= data.subrange(
                start as int,
                e as int,
            ));
        }
    }
}

/// Law: where the tab has answered all of a download's pulls in order, the
/// download ends with the answer that completes its range, and the body that it
/// leaves, in the channel that it began with, is exactly that range of the file.
/// Only where the body's receiver was gone, or the channel full, does it end
/// before.
pub proof fn law_body_is_the_range(
    s: HostState,
    f: Seq<u8>,
    now: u64,
    t: HostState,
    over: Option<Sender<Bytes>>,
    req: u32,
    data: Seq<u8>,
    start: u64,
    asked: Seq<OutView>,
)
    requires
        delivering(s, req, data, start, asked),
        asked.len() > 0,
        f == answer(asked[0], data),
        s.replied(f, now, t, over),
    ensures
        match over {
            Some(sink) => {
                &&& !t.reqs.contains_key(req)
                &&& same_channel(sink, s.reqs[req].sink)
                &&& if handed(sink).last().open && handed(sink).last().held < room(sink) {
                    passed(handed(sink)).flatten() == data.subrange(
                        start as int,
                        s.reqs[req].end as int,
                    )
                } else {
                    passed(handed(sink)) == passed(handed(s.reqs[req].sink))
                }
            },
            None => {
                &&& delivering(t, req, data, start, asked.drop_first())
                &&& start + body(t.reqs[req]).len() < t.reqs[req].end
                &&& same_channel(t.reqs[req].sink, s.reqs[req].sink)
            },
        },
{
    lemma_answer(s, f, now, req, data, start, asked);
    let (u, chunk) = s.accepted(f, now);
    let (sink, sent) = choose|sink: Sender<Bytes>, sent: bool|
        {
            &&& #[trigger] took(u.reqs[req].sink, (chunk->0).1, sink, sent)
            &&& t == u.with_sink(req, sink).settled(req, sent)
            &&& over == if u.is_over(req, sent) {
                Some(sink)
            } else {
                None
            }
        };
    assert(took(s.reqs[req].sink, (chunk->0).1, sink, sent));
    if sent {
        let v = u.with_sink(req, sink);
        assert(delivering(v, req, data, start, asked.drop_first()));
    }
}

/// The pulls of request `req` that are still to be answered after `steps`.
pub open spec fn asked_along(asked: Seq<OutView>, req: u32, steps: Seq<Step>) -> Seq<OutView>
    decreases steps.len(),
{
    if steps.len() == 0 {
        asked
    } else {
        asked_after(
            asked_along(asked, req, steps.drop_last()),
            req,
            steps.last().event,
            steps.last().res,
        )
    }
}

/// Whether the tab answers the pulls of request `req` in order along `steps`,
/// each with the bytes of the file `data` that it asks for, and the request's
/// number is not given to another download meanwhile.
pub open spec fn honest(
    asked: Seq<OutView>,
    req: u32,
    data: Seq<u8>,
    steps: Seq<Step>,
) -> bool
    decreases steps.len(),
{
    steps.len() == 0 || {
        let before = asked_along(asked, req, steps.drop_last());
        let event = steps.last().event;
        &&& honest(asked, req, data, steps.drop_last())
        &&& !(event matches Event::Command(Cmd::Open { req: r, .. }) && r == req)
        &&& event matches Event::Incoming(Frame::Binary(buf)) ==> subject(event) == Some(req)
            && before.len() > 0 ==> contents(buf) == answer(before[0], data)
    }
}

/// Law: over any course of events, whatever the other connections do meanwhile,
/// while the tab answers a download's pulls in order, what the download has
/// handed on, into the channel that it began with, is the file's bytes from the
/// start of its range, for as long as the download goes on.
pub proof fn law_delivery_stays_exact(
    s: HostState,
    steps: Seq<Step>,
    req: u32,
    data: Seq<u8>,
    start: u64,
    asked: Seq<OutView>,
)
    requires
        s.wf(),
        delivering(s, req, data, start, asked),
        course(s, steps),
        honest(asked, req, data, steps),
    ensures
        state_after(s, steps).wf(),
        state_after(s, steps).reqs.contains_key(req) ==> delivering(
            state_after(s, steps),
            req,
            data,
            start,
            asked_along(asked, req, steps),
        ) && state_after(s, steps).reqs[req].end == s.reqs[req].end && same_channel(
            state_after(s, steps).reqs[req].sink,
            s.reqs[req].sink,
        ),
    decreases steps.len(),
{
    if steps.len() > 0 {
        let last = steps.last();
        let u = last.found;
        law_delivery_stays_exact(s, steps.drop_last(), req, data, start, asked);
        law_bounds_are_kept(u, last.event, last.now, last.state, last.res);
        if last.state.reqs.contains_key(req) {
            if subject(last.event) != Some(req) && !(last.event is Tick) {
                law_other_downloads_are_untouched(
                    u,
                    last.event,
                    last.now,
                    last.state,
                    last.res,
                    req,
                );
            }
            assert(u.reqs.contains_key(req));
            law_delivery_is_exact(
                u,
                last.event,
                last.now,
                last.state,
                last.res,
                req,
                data,
                start,
                asked_along(asked, req, steps.drop_last()),
            );
        }
    }
}

/// Law: every answer to a pull fits the largest frame that a tab may send.
pub proof fn law_answers_fit_a_frame(
    pulls: Seq<OutView>,
    req: u32,
    file: Seq<char>,
    from: u64,
    to: u64,
    data: Seq<u8>,
)
    requires
        tiles(pulls, req, file, from, to),
        to <= data.len(),
        pulls.len() > 0,
    ensures
        HEADER < answer(pulls[0], data).len() <= MAX_FRAME,
{
}

/// Law: pulls that are still to be answered ask for no more than a chunk each,
/// so a download never has more of a file on its way than that.
pub proof fn law_bytes_on_their_way_are_bounded(
    pulls: Seq<OutView>,
    req: u32,
    file: Seq<char>,
    from: u64,
    to: u64,
)
    requires
        tiles(pulls, req, file, from, to),
    ensures
        from <= to <= from + pulls.len() * CHUNK,
    decreases pulls.len(),
{
    if pulls.len() > 0 {
        if let OutView::Text(DownView::Pull { r, file: f, s, e }) = pulls[0] {
            law_bytes_on_their_way_are_bounded(pulls.drop_first(), req, file, e, to);
        }
    }
}

/// Whether a request's pulls in flight are those that are not answered yet, the
/// `queued` chunks that wait in its channel and the `owed` credits that are on
/// their way back.
pub open spec fn balanced(r: Req, queued: int, owed: int) -> bool {
    &&& 0 <= queued
    &&& 0 <= owed
    &&& r.outstanding == r.pending + queued + owed
}

/// Law: while each chunk that leaves the channel brings one credit, the pulls
/// in flight are accounted for, so a chunk that was asked for always finds room
/// in a channel of `MAX_WINDOW` chunks.
pub proof fn law_chunks_find_room(
    s: HostState,
    req: u32,
    queued: int,
    owed: int,
    f: Seq<u8>,
    starved: bool,
    now: u64,
)
    requires
        s.wf(),
        s.reqs.contains_key(req),
        balanced(s.reqs[req], queued, owed),
    ensures
        queued + s.reqs[req].pending <= s.reqs[req].window <= MAX_WINDOW,
        s.accepted(f, now).1 matches Some((r, _)) && r == req ==> balanced(
            s.accepted(f, now).0.reqs[req],
            queued + 1,
            owed,
        ),
        queued > 0 ==> balanced(s.reqs[req], queued - 1, owed + 1),
        owed > 0 ==> balanced(
            s.commanded(Cmd::Credit(req, starved), now).0.reqs[req],
            queued,
            owed - 1,
        ),
{
    let u = s.credited(req, starved, now);
    let c = u.reqs[req];
    c.lemma_advanced_wf(u.depth(c));
    c.lemma_reach(c.pull_count(u.depth(c)));
}

/// Law: a download's pulls in flight are accounted for from its beginning.
pub proof fn law_accounts_begin_balanced(
    s: HostState,
    req: u32,
    file: String,
    start: u64,
    end: u64,
    sink: Sender<Bytes>,
    now: u64,
)
    requires
        s.reqs.len() < MAX_REQS_PER_CONN,
    ensures
        balanced(s.commanded(Cmd::Open { req, file, start, end, sink }, now).0.reqs[req], 0, 0),
{
}

/// Law: every answer to a pull is handed on, once, to the channel of the
/// download that it names, just as the tab sent it: it goes in where the
/// receiver is there and the channel has room, and the download ends only where
/// it did not go in or where it was the last one.
pub proof fn law_answers_are_handed_on(
    s: HostState,
    f: Seq<u8>,
    now: u64,
    t: HostState,
    over: Option<Sender<Bytes>>,
    req: u32,
)
    requires
        f.len() >= 4,
        f[0] + 256 * f[1] + 65536 * f[2] + 16777216 * f[3] == req,
        s.reqs.contains_key(req),
        s.reqs[req].pending > 0,
        s.replied(f, now, t, over),
    ensures
        ({
            let before = s.reqs[req];
            let sink = match over {
                Some(sink) => sink,
                None => t.reqs[req].sink,
            };
            let attempt = handed(sink).last();
            let last = before.next >= before.end && before.pending == 1;
            &&& handed(sink).len() == handed(before.sink).len() + 1
            &&& handed(sink).drop_last() == handed(before.sink)
            &&& same_channel(sink, before.sink)
            &&& attempt.data == f.skip(4)
            &&& attempt.taken <==> attempt.open && attempt.held < room(before.sink)
            &&& t.reqs.contains_key(req) <==> attempt.taken && !last
            &&& t.reqs.contains_key(req) <==> over is None
            &&& t.reqs.contains_key(req) ==> t.reqs[req] == (Req {
                sink,
                pending: (before.pending - 1) as u64,
                last_progress: now,
                ..before
            })
        }),
{
    let (u, chunk) = s.accepted(f, now);
    let (sink, sent) = choose|sink: Sender<Bytes>, sent: bool|
        {
            &&& #[trigger] took(u.reqs[req].sink, (chunk->0).1, sink, sent)
            &&& t == u.with_sink(req, sink).settled(req, sent)
            &&& over == if u.is_over(req, sent) {
                Some(sink)
            } else {
                None
            }
        };
    assert(took(s.reqs[req].sink, f.skip(4), sink, sent));
}

/// Law: a frame from the tab reaches the download that it names: its chunk is
/// the next that was handed to the download's channel, for as long as the
/// download goes on; and the download goes on, unless this was the last chunk or
/// the channel did not take it.
pub proof fn law_frames_reach_their_download(
    s: HostState,
    buf: Bytes,
    now: u64,
    t: HostState,
    res: Option<Seq<OutView>>,
    req: u32,
)
    requires
        s.stepped(Event::Incoming(Frame::Binary(buf)), now, t, res),
        contents(buf).len() >= 4,
        contents(buf)[0] + 256 * contents(buf)[1] + 65536 * contents(buf)[2] + 16777216 * contents(
            buf,
        )[3] == req,
        s.reqs.contains_key(req),
        s.reqs[req].pending > 0,
    ensures
        res == Some(Seq::<OutView>::empty()),
        t.reqs.contains_key(req) ==> {
            let log = handed(t.reqs[req].sink);
            &&& log.len() == handed(s.reqs[req].sink).len() + 1
            &&& log.drop_last() == handed(s.reqs[req].sink)
            &&& log.last().data == contents(buf).skip(4)
            &&& log.last().taken
            &&& same_channel(t.reqs[req].sink, s.reqs[req].sink)
        },
        !t.reqs.contains_key(req) ==> {
            ||| s.reqs[req].next >= s.reqs[req].end && s.reqs[req].pending == 1
            ||| exists|sink: Sender<Bytes>|
                {
                    &&& #[trigger] handed(sink).len() == handed(s.reqs[req].sink).len() + 1
                    &&& handed(sink).drop_last() == handed(s.reqs[req].sink)
                    &&& handed(sink).last().data == contents(buf).skip(4)
                    &&& !(handed(sink).last().open && handed(sink).last().held < room(
                        s.reqs[req].sink,
                    ))
                }
        },
{
    let u = s.seen(now);
    let over = choose|over: Option<Sender<Bytes>>| #[trigger]
        u.replied(contents(buf), now, t, over);
    law_answers_are_handed_on(u, contents(buf), now, t, over, req);
}

/// Law: a download whose receiver stays there gets every byte. While each chunk
/// that leaves the channel brings one credit, the channel always has room, so an
/// answer of an honest tab ends the download only where its range is complete,
/// and then all of the range went in.
pub proof fn law_live_receivers_get_every_byte(
    s: HostState,
    f: Seq<u8>,
    now: u64,
    t: HostState,
    over: Option<Sender<Bytes>>,
    req: u32,
    data: Seq<u8>,
    start: u64,
    asked: Seq<OutView>,
    queued: int,
    owed: int,
)
    requires
        s.wf(),
        delivering(s, req, data, start, asked),
        asked.len() > 0,
        f == answer(asked[0], data),
        s.replied(f, now, t, over),
        balanced(s.reqs[req], queued, owed),
        room(s.reqs[req].sink) == MAX_WINDOW,
        over matches Some(sink) ==> handed(sink).last().open && handed(sink).last().held <= queued,
    ensures
        match over {
            Some(sink) => passed(handed(sink)).flatten() == data.subrange(
                start as int,
                s.reqs[req].end as int,
            ),
            None => {
                &&& delivering(t, req, data, start, asked.drop_first())
                &&& room(t.reqs[req].sink) == MAX_WINDOW
            },
        },
{
    law_body_is_the_range(s, f, now, t, over, req, data, start, asked);
}

} // verus!
