//! The uploader's side of the protocol: one WebSocket connection per tab,
//! driven by a single actor with no locks. It owns every share the tab has
//! registered and every download currently pulling bytes from it.
//!
//! The actor is a state machine: each thing that can happen (a frame from the
//! tab, a command from an HTTP handler, the periodic heartbeat) changes its
//! state and yields the messages to send to the tab.

use crate::channel::{hand_on, took};
use crate::frame::{contents, decode_frame, frame_data, frame_id, HEADER};
use crate::limits::{
    fair_share, fair_share_window, is_overdue, overdue, CHUNK, CONN_IDLE_TIMEOUT,
    MAX_REQS_PER_CONN, MAX_SHARES_PER_CONN, MAX_WINDOW, REQ_IDLE_TIMEOUT, WINDOW,
};
use crate::protocol::{outs, Down, DownView, Out, OutView, Up};
use crate::sanitize::{sanitize_mime, sanitize_name, sanitized_mime, sanitized_name};
use crate::share::{has_free_id, insert_share, valid_id, App, Share, ShareView};
use bytes::Bytes;
use std::collections::HashMap;
use tokio::sync::mpsc::Sender;
use vstd::prelude::*;
use vstd::std_specs::iter::IteratorSpec;

verus! {

/// Control messages from HTTP handlers to the actor that owns a file.
pub enum Cmd {
    /// Start streaming `start .. end` of share `file` into `sink`.
    Open { req: u32, file: String, start: u64, end: u64, sink: Sender<Bytes> },
    /// One chunk left the body stream. The flag is whether the stream had to
    /// wait for it (a starved read), the signal to grow the window.
    Credit(u32, bool),
    /// The HTTP body was dropped (client disconnected, or the transfer ended).
    Close(u32),
}

/// How deep a download's pipeline is.
#[derive(Clone, Copy, PartialEq, Eq, Structural)]
pub enum Pacing {
    /// Always `WINDOW` pulls.
    Fixed,
    /// One pull at first, one more after each starved read, and never more
    /// than the fair share of the server's memory budget.
    Adaptive,
}

/// Per-download bookkeeping, owned by the actor.
pub struct Req {
    /// Which of the tab's shares to read from.
    pub file: String,
    /// Where the chunks go. The body ends when this is dropped.
    pub sink: Sender<Bytes>,
    /// Next byte offset to ask the tab for.
    pub next: u64,
    /// Exclusive end of the requested range.
    pub end: u64,
    /// Pulls issued whose chunk has not yet been consumed downstream.
    pub outstanding: u32,
    /// Pulls issued whose frame has not yet arrived.
    pub pending: u64,
    /// Pipeline depth that this request has earned.
    pub window: u32,
    /// Last time a pull was answered or a chunk was consumed downstream.
    pub last_progress: u64,
}

impl Req {
    /// The bookkeeping is in bounds: no more pulls are in flight than the
    /// window and the channel have room for.
    pub open spec fn wf(self) -> bool {
        &&& self.outstanding <= self.window
        &&& 1 <= self.window <= MAX_WINDOW
        &&& self.pending <= self.next
    }

    /// Chunks that are still to be asked for.
    pub open spec fn chunks_left(self) -> int {
        if self.next < self.end {
            (self.end - self.next + CHUNK - 1) / CHUNK as int
        } else {
            0
        }
    }

    /// Where the next pull starts once `k` more pulls are issued.
    pub open spec fn reach(self, k: int) -> u64 {
        if k <= 0 {
            self.next
        } else if self.next + k * CHUNK < self.end {
            (self.next + k * CHUNK) as u64
        } else {
            self.end
        }
    }

    /// How many pulls are issued when up to `depth` may be in flight.
    pub open spec fn pull_count(self, depth: int) -> int {
        let room = depth - self.outstanding;
        if room <= 0 {
            0
        } else if room < self.chunks_left() {
            room
        } else {
            self.chunks_left()
        }
    }

    /// The pulls that are issued for request `req` when up to `depth` may be in
    /// flight: one after the other, from the first byte not asked for yet.
    pub open spec fn pulls(self, req: u32, depth: int) -> Seq<OutView> {
        Seq::new(
            self.pull_count(depth) as nat,
            |i: int|
                OutView::Text(
                    DownView::Pull {
                        r: req,
                        file: self.file@,
                        s: self.reach(i),
                        e: self.reach(i + 1),
                    },
                ),
        )
    }

    /// The request once those pulls are issued.
    pub open spec fn advanced(self, depth: int) -> Req {
        let k = self.pull_count(depth);
        Req {
            next: self.reach(k),
            outstanding: (self.outstanding + k) as u32,
            pending: (self.pending + k) as u64,
            ..self
        }
    }

    /// Issues pulls until `depth` are in flight or the range is done.
    fn advance(self, req: u32, depth: u32) -> (r: (Req, Vec<Out>))
        requires
            self.wf(),
            depth <= MAX_WINDOW,
        ensures
            r.0 == self.advanced(depth as int),
            outs(r.1@) == self.pulls(req, depth as int),
    {
        let ghost first = self;
        let mut st: Req = self;
        let mut out: Vec<Out> = Vec::new();
        while st.outstanding < depth && st.next < st.end
            invariant
                first.wf(),
                depth <= MAX_WINDOW,
                out@.len() <= first.pull_count(depth as int),
                st == (Req {
                    next: first.reach(out@.len() as int),
                    outstanding: (first.outstanding + out@.len()) as u32,
                    pending: (first.pending + out@.len()) as u64,
                    ..first
                }),
                st.outstanding == first.outstanding + out@.len(),
                st.pending == first.pending + out@.len(),
                outs(out@) =~= first.pulls(req, depth as int).take(out@.len() as int),
            decreases depth - st.outstanding,
        {
            let ghost k = out@.len() as int;
            proof {
                first.lemma_reach(k);
                first.lemma_reach(k + 1);
            }
            let start: u64 = st.next;
            let ahead: u64 = start.saturating_add(CHUNK);
            let end: u64 = if ahead < st.end {
                ahead
            } else {
                st.end
            };
            let file: String = st.file.clone();
            st = Req {
                next: end,
                outstanding: st.outstanding + 1,
                pending: st.pending + 1,
                ..st
            };
            let ghost before = out@;
            out.push(Out::Text(Down::Pull { r: req, file, s: start, e: end }));
            assert(outs(out@) =~= outs(before).push(out@.last()@));
        }
        proof {
            first.lemma_reach(out@.len() as int);
            assert(first.pulls(req, depth as int).take(out@.len() as int) =~= first.pulls(
                req,
                depth as int,
            ));
        }
        (st, out)
    }

    /// Issuing pulls keeps the bookkeeping in bounds.
    pub proof fn lemma_advanced_wf(self, depth: int)
        requires
            self.wf(),
            depth <= self.window,
        ensures
            self.advanced(depth).wf(),
    {
        self.lemma_reach(self.pull_count(depth));
    }

    /// The chunks still to be asked for tile the rest of the range.
    pub proof fn lemma_reach(self, k: int)
        ensures
            0 <= k <= self.chunks_left() ==> self.next + k <= self.reach(k),
            0 <= k < self.chunks_left() ==> self.reach(k) == self.next + k * CHUNK && self.reach(k)
                < self.end,
            k == self.chunks_left() && k > 0 ==> self.reach(k) == self.end,
    {
    }
}

/// A frame from the tab.
pub enum Frame {
    /// Binary data: the answer to a pull.
    Binary(Bytes),
    /// A text message, or nothing where the text is not one.
    Text(Option<Up>),
    /// The tab closes the connection.
    Close,
    /// A keepalive from the tab.
    Ping,
    /// An answer to a keepalive.
    Pong,
}

/// What can happen to a connection.
pub enum Event {
    /// A frame arrived from the tab.
    Incoming(Frame),
    /// The connection broke off.
    Hangup,
    /// An HTTP handler sent a command.
    Command(Cmd),
    /// The heartbeat is due.
    Tick,
}

/// Owns one uploader tab's live state: the shares it has registered, and every
/// download currently pulling from them.
pub struct Actor {
    /// The ids of the tab's shares, in the order in which they were offered.
    pub ids: Vec<String>,
    /// The downloads, by request id.
    pub reqs: HashMap<u32, Req>,
    /// Last time anything arrived from the tab.
    pub last_seen: u64,
    /// Which connection this is.
    pub conn: u64,
    /// How deep the downloads' pipelines are.
    pub pacing: Pacing,
}

/// The state of a connection and of what it shares with the others.
#[verifier::ext_equal]
pub struct HostState {
    /// The ids of the tab's shares.
    pub ids: Seq<Seq<char>>,
    /// The downloads, by request id.
    pub reqs: Map<u32, Req>,
    /// Last time anything arrived from the tab.
    pub last_seen: u64,
    /// Which connection this is.
    pub conn: u64,
    /// How deep the downloads' pipelines are.
    pub pacing: Pacing,
    /// The registry of the whole server.
    pub shares: Map<Seq<char>, ShareView>,
    /// The active downloads of the whole server.
    pub active: usize,
    /// The memory budget of the whole server.
    pub budget: usize,
}

/// The state that `actor` and `app` make up.
pub open spec fn host_state(actor: Actor, app: App) -> HostState {
    HostState {
        ids: actor.ids@.map_values(|id: String| id@),
        reqs: actor.reqs@,
        last_seen: actor.last_seen,
        conn: actor.conn,
        pacing: actor.pacing,
        shares: app.shares@,
        active: app.active_downloads,
        budget: app.budget_chunks,
    }
}

/// The state of a connection that has just begun.
pub open spec fn new_host(conn: u64, pacing: Pacing, now: u64, app: App) -> HostState {
    HostState {
        ids: Seq::empty(),
        reqs: Map::empty(),
        last_seen: now,
        conn,
        pacing,
        shares: app.shares@,
        active: app.active_downloads,
        budget: app.budget_chunks,
    }
}

/// What a handler's result says: the messages to send, unless the connection is over.
pub open spec fn outcome(res: Option<Vec<Out>>) -> Option<Seq<OutView>> {
    match res {
        Some(out) => Some(outs(out@)),
        None => None,
    }
}

/// No messages.
pub open spec fn silence() -> Seq<OutView> {
    Seq::empty()
}

/// One text message.
pub open spec fn say(d: DownView) -> Seq<OutView> {
    seq![OutView::Text(d)]
}

/// A cancellation for each request of `order`.
pub open spec fn cancels(order: Seq<u32>) -> Seq<OutView> {
    order.map_values(|req: u32| OutView::Text(DownView::Cancel { r: req }))
}

impl HostState {
    /// The connection is within its bounds.
    pub open spec fn wf(self) -> bool {
        &&& self.ids.len() <= MAX_SHARES_PER_CONN
        &&& self.reqs.dom().finite()
        &&& self.reqs.len() <= MAX_REQS_PER_CONN
        &&& forall|req: u32| #[trigger]
            self.reqs.contains_key(req) ==> {
                &&& self.reqs[req].wf()
                &&& self.pacing == Pacing::Fixed ==> self.reqs[req].window == WINDOW
            }
    }

    /// The state without request `req`. One download less is active, if there was one.
    pub open spec fn without(self, req: u32) -> HostState {
        if self.reqs.contains_key(req) {
            HostState {
                reqs: self.reqs.remove(req),
                active: self.active.wrapping_sub(1),
                ..self
            }
        } else {
            self
        }
    }

    /// Pulls that request `r` may have in flight now.
    pub open spec fn depth(self, r: Req) -> int {
        match self.pacing {
            Pacing::Fixed => WINDOW as int,
            Pacing::Adaptive => if r.window < fair_share(self.budget, self.active) {
                r.window as int
            } else {
                fair_share(self.budget, self.active)
            },
        }
    }

    /// Pulls are issued for request `req` until its depth is reached or its
    /// range is done.
    pub open spec fn pumped(self, req: u32) -> (HostState, Seq<OutView>) {
        if self.reqs.contains_key(req) {
            let r = self.reqs[req];
            let depth = self.depth(r);
            (
                HostState { reqs: self.reqs.insert(req, r.advanced(depth)), ..self },
                r.pulls(req, depth),
            )
        } else {
            (self, silence())
        }
    }

    /// A download begins; one more is active, unless it takes another one's place.
    pub open spec fn opened(
        self,
        req: u32,
        file: String,
        start: u64,
        end: u64,
        sink: Sender<Bytes>,
        now: u64,
    ) -> HostState {
        HostState {
            reqs: self.reqs.insert(
                req,
                Req {
                    file,
                    sink,
                    next: start,
                    end,
                    outstanding: 0,
                    pending: 0,
                    window: match self.pacing {
                        Pacing::Fixed => WINDOW,
                        Pacing::Adaptive => 1,
                    },
                    last_progress: now,
                },
            ),
            active: if self.reqs.contains_key(req) {
                self.active.wrapping_add(1).wrapping_sub(1)
            } else {
                self.active.wrapping_add(1)
            },
            ..self
        }
    }

    /// One chunk of request `req` was consumed downstream.
    pub open spec fn credited(self, req: u32, starved: bool, now: u64) -> HostState {
        if self.reqs.contains_key(req) {
            let r = self.reqs[req];
            HostState {
                reqs: self.reqs.insert(
                    req,
                    Req {
                        outstanding: if r.outstanding == 0 {
                            0
                        } else {
                            (r.outstanding - 1) as u32
                        },
                        window: if starved && r.window < MAX_WINDOW {
                            (r.window + 1) as u32
                        } else {
                            r.window
                        },
                        last_progress: now,
                        ..r
                    },
                ),
                ..self
            }
        } else {
            self
        }
    }

    /// What a command does.
    pub open spec fn commanded(self, cmd: Cmd, now: u64) -> (HostState, Seq<OutView>) {
        match cmd {
            Cmd::Open { req, file, start, end, sink } => {
                if self.reqs.len() >= MAX_REQS_PER_CONN {
                    (self, silence())
                } else {
                    self.opened(req, file, start, end, sink, now).pumped(req)
                }
            },
            Cmd::Credit(req, starved) => self.credited(req, starved, now).pumped(req),
            Cmd::Close(req) => {
                if self.reqs.contains_key(req) {
                    (self.without(req), say(DownView::Cancel { r: req }))
                } else {
                    (self, silence())
                }
            },
        }
    }
}

impl HostState {
    /// A frame with the bytes `f` arrives, and whether it answers a pull: the
    /// request it names and the chunk to hand on. A frame that is too short or
    /// names no request is ignored; one that nobody asked for ends its request.
    pub open spec fn accepted(self, f: Seq<u8>, now: u64) -> (HostState, Option<(u32, Seq<u8>)>) {
        let req = frame_id(f);
        if f.len() < HEADER || !self.reqs.contains_key(req) {
            (self, None)
        } else if self.reqs[req].pending == 0 {
            (self.without(req), None)
        } else {
            let r = self.reqs[req];
            (
                HostState {
                    reqs: self.reqs.insert(
                        req,
                        Req { pending: (r.pending - 1) as u64, last_progress: now, ..r },
                    ),
                    ..self
                },
                Some((req, frame_data(f))),
            )
        }
    }

    /// The state with request `req` as `st`.
    pub open spec fn with_req(self, req: u32, st: Req) -> HostState {
        HostState { reqs: self.reqs.insert(req, st), ..self }
    }

    /// The state with another sink for request `req`.
    pub open spec fn with_sink(self, req: u32, sink: Sender<Bytes>) -> HostState {
        self.with_req(req, Req { sink, ..self.reqs[req] })
    }

    /// Whether request `req` is over once a chunk was handed on for it, or could
    /// not be: its receiver is gone, or its range is complete.
    pub open spec fn is_over(self, req: u32, sent: bool) -> bool {
        !sent || (self.reqs[req].next >= self.reqs[req].end && self.reqs[req].pending == 0)
    }

    /// A chunk was handed on for request `req`, or could not be.
    pub open spec fn settled(self, req: u32, sent: bool) -> HostState {
        if self.is_over(req, sent) {
            self.without(req)
        } else {
            self
        }
    }

    /// Whether `t` and `over` are what a frame with the bytes `f` leads to,
    /// whether or not the receiver of its chunk is still there.
    pub open spec fn replied(
        self,
        f: Seq<u8>,
        now: u64,
        t: HostState,
        over: Option<Sender<Bytes>>,
    ) -> bool {
        let (s, chunk) = self.accepted(f, now);
        match chunk {
            Some((req, data)) => exists|sink: Sender<Bytes>, sent: bool|
                {
                    &&& #[trigger] took(s.reqs[req].sink, data, sink, sent)
                    &&& t == s.with_sink(req, sink).settled(req, sent)
                    &&& over == if s.is_over(req, sent) {
                        Some(sink)
                    } else {
                        None
                    }
                },
            None => t == s && over is None,
        }
    }

    /// The tab's share `id` is registered.
    pub open spec fn registered(
        self,
        id: Seq<char>,
        name: Seq<char>,
        size: u64,
        mime: Seq<char>,
    ) -> HostState {
        HostState {
            ids: self.ids.push(id),
            shares: self.shares.insert(
                id,
                ShareView {
                    name: sanitized_name(name),
                    mime: sanitized_mime(mime),
                    size,
                    conn: self.conn,
                },
            ),
            ..self
        }
    }

    /// Whether `t` and `out` are what an offer leads to: the file is registered
    /// under a fresh id, which is the answer, unless the tab has as many shares
    /// as it may have or every id is taken.
    pub open spec fn offered(
        self,
        name: Seq<char>,
        size: u64,
        mime: Seq<char>,
        t: HostState,
        out: Seq<OutView>,
    ) -> bool {
        ||| {
            &&& t == self
            &&& out == say(DownView::Full)
            &&& self.ids.len() >= MAX_SHARES_PER_CONN || !has_free_id(self.shares)
        }
        ||| {
            &&& self.ids.len() < MAX_SHARES_PER_CONN
            &&& exists|id: Seq<char>|
                {
                    &&& valid_id(id)
                    &&& !self.shares.contains_key(id)
                    &&& t == #[trigger] self.registered(id, name, size, mime)
                    &&& out == say(DownView::Ready { id })
                }
        }
    }

    /// Whether `t` and `out` are what a text message leads to.
    pub open spec fn told(self, up: Option<Up>, t: HostState, out: Seq<OutView>) -> bool {
        match up {
            Some(Up::Offer { name, size, mime }) => self.offered(name@, size, mime@, t, out),
            Some(Up::Failed { r }) => t == self.without(r) && out == silence(),
            None => t == self && out == silence(),
        }
    }

    /// The state once something arrived from the tab.
    pub open spec fn seen(self, now: u64) -> HostState {
        HostState { last_seen: now, ..self }
    }

    /// Whether `t` and `res` are what a frame from the tab leads to. Without
    /// messages to send the connection is over.
    pub open spec fn messaged(
        self,
        frame: Frame,
        now: u64,
        t: HostState,
        res: Option<Seq<OutView>>,
    ) -> bool {
        match frame {
            Frame::Binary(buf) => {
                &&& exists|over: Option<Sender<Bytes>>| #[trigger]
                    self.seen(now).replied(contents(buf), now, t, over)
                &&& res == Some(silence())
            },
            Frame::Text(up) => res is Some && self.seen(now).told(up, t, res->0),
            Frame::Close => t == self.seen(now) && res is None,
            Frame::Ping | Frame::Pong => t == self.seen(now) && res == Some(silence()),
        }
    }
}

impl HostState {
    /// Whether request `req` has made no progress for too long.
    pub open spec fn stale(self, req: u32, now: u64) -> bool {
        self.reqs.contains_key(req) && overdue(
            self.reqs[req].last_progress,
            now,
            REQ_IDLE_TIMEOUT,
        )
    }

    /// The state without the requests that are stale.
    pub open spec fn swept(self, now: u64, count: int) -> HostState {
        HostState {
            reqs: self.reqs.remove_keys(Set::new(|req: u32| self.stale(req, now))),
            active: self.active.wrapping_sub(count as usize),
            ..self
        }
    }

    /// Whether `order` lists the stale requests, each once.
    pub open spec fn lists_stale(self, order: Seq<u32>, now: u64) -> bool {
        &&& order.no_duplicates()
        &&& forall|req: u32| #[trigger] order.contains(req) <==> self.stale(req, now)
    }

    /// Whether `t` and `res` are what the heartbeat leads to: a silent connection
    /// is over; otherwise the stale requests are cancelled, in some order, and
    /// the tab is pinged.
    pub open spec fn ticked(self, now: u64, t: HostState, res: Option<Seq<OutView>>) -> bool {
        if overdue(self.last_seen, now, CONN_IDLE_TIMEOUT) {
            t == self && res is None
        } else {
            exists|order: Seq<u32>|
                {
                    &&& #[trigger] self.lists_stale(order, now)
                    &&& t == self.swept(now, order.len() as int)
                    &&& res == Some(cancels(order).push(OutView::Ping))
                }
        }
    }

    /// Whether `t` and `res` are what an event leads to.
    pub open spec fn stepped(
        self,
        event: Event,
        now: u64,
        t: HostState,
        res: Option<Seq<OutView>>,
    ) -> bool {
        match event {
            Event::Incoming(frame) => self.messaged(frame, now, t, res),
            Event::Hangup => t == self && res is None,
            Event::Command(cmd) => {
                let (u, out) = self.commanded(cmd, now);
                t == u && res == Some(out)
            },
            Event::Tick => self.ticked(now, t, res),
        }
    }

    /// The registry once the tab is gone.
    pub open spec fn shares_left(self) -> Map<Seq<char>, ShareView> {
        self.shares.remove_keys(self.ids.to_set())
    }

    /// The count of active downloads once the tab is gone.
    pub open spec fn active_left(self) -> usize {
        self.active.wrapping_sub(self.reqs.len() as usize)
    }
}

/// What one more element adds to a prefix.
proof fn lemma_take_next<A>(s: Seq<A>, i: int)
    requires
        0 <= i < s.len(),
    ensures
        s.take(i + 1) == s.take(i).push(s[i]),
        s.take(i + 1).to_set() == s.take(i).to_set().insert(s[i]),
        forall|x: A| #[trigger] s.take(i + 1).contains(x) <==> s.take(i).contains(x) || x == s[i],
{
    assert(s.take(i + 1) =~= s.take(i).push(s[i]));
    s.take(i).lemma_push_to_set_commute(s[i]);
    assert forall|x: A| #[trigger]
        s.take(i + 1).contains(x) <==> s.take(i).contains(x) || x == s[i] by {
        assert(s.take(i + 1).contains(x) <==> s.take(i + 1).to_set().contains(x));
        assert(s.take(i).contains(x) <==> s.take(i).to_set().contains(x));
    }
}

impl Actor {
    /// An actor for a tab that has just connected.
    pub fn new(conn: u64, pacing: Pacing, now: u64) -> (a: Actor)
        ensures
            a.ids@ == Seq::<String>::empty(),
            a.reqs@ == Map::<u32, Req>::empty(),
            a.last_seen == now,
            a.conn == conn,
            a.pacing == pacing,
            forall|app: App| #[trigger]
                host_state(a, app) == new_host(conn, pacing, now, app),
    {
        let a: Actor = Actor {
            ids: Vec::new(),
            reqs: HashMap::new(),
            last_seen: now,
            conn,
            pacing,
        };
        assert forall|app: App| #[trigger] host_state(a, app) == new_host(
            conn,
            pacing,
            now,
            app,
        ) by {
            assert(host_state(a, app) =~= new_host(conn, pacing, now, app));
        }
        a
    }

    /// Ends the download `req`, if there is one.
    fn end_req(&mut self, app: &mut App, req: u32) -> (found: bool)
        ensures
            host_state(*final(self), *final(app)) == host_state(*old(self), *old(app)).without(req),
            found == old(self).reqs@.contains_key(req),
    {
        match self.reqs.remove(&req) {
            Some(_) => {
                app.active_downloads = app.active_downloads.wrapping_sub(1);
                true
            },
            None => {
                assert(self.reqs@ =~= old(self).reqs@);
                false
            },
        }
    }

    /// Issue pulls for `req` until its effective window is full or its range is
    /// done. The effective window is this request's own earned depth further
    /// capped, live, by its fair share of the budget, so a server-wide traffic
    /// spike throttles it down immediately, and a spike easing off lets it
    /// immediately use more.
    pub fn pump(&mut self, app: &App, req: u32) -> (out: Vec<Out>)
        requires
            host_state(*old(self), *app).wf(),
        ensures
            (host_state(*final(self), *app), outs(out@)) == host_state(*old(self), *app).pumped(
                req,
            ),
            host_state(*final(self), *app).wf(),
    {
        let ghost s = host_state(*self, *app);
        match self.reqs.remove(&req) {
            Some(st) => {
                let depth: u32 = match self.pacing {
                    Pacing::Fixed => WINDOW,
                    Pacing::Adaptive => {
                        let ceiling: u32 = fair_share_window(
                            app.budget_chunks,
                            app.active_downloads,
                        );
                        if st.window < ceiling {
                            st.window
                        } else {
                            ceiling
                        }
                    },
                };
                proof {
                    st.lemma_advanced_wf(depth as int);
                }
                let (st, out): (Req, Vec<Out>) = st.advance(req, depth);
                self.reqs.insert(req, st);
                assert(self.reqs@ =~= s.pumped(req).0.reqs);
                out
            },
            None => {
                assert(self.reqs@ =~= s.reqs);
                let out: Vec<Out> = Vec::new();
                assert(outs(out@) =~= silence());
                out
            },
        }
    }

    /// A download opened, made progress, or ended.
    pub fn on_cmd(&mut self, app: &mut App, cmd: Cmd, now: u64) -> (out: Vec<Out>)
        requires
            host_state(*old(self), *old(app)).wf(),
        ensures
            (host_state(*final(self), *final(app)), outs(out@)) == host_state(
                *old(self),
                *old(app),
            ).commanded(cmd, now),
            host_state(*final(self), *final(app)).wf(),
    {
        let ghost s = host_state(*self, *app);
        match cmd {
            Cmd::Open { req, file, start, end, sink } => {
                if self.reqs.len() >= MAX_REQS_PER_CONN {
                    // `sink` is dropped here: the receiver sees the channel
                    // close and the body ends immediately.
                    let out: Vec<Out> = Vec::new();
                    assert(outs(out@) =~= silence());
                    return out;
                }
                let window: u32 = match self.pacing {
                    Pacing::Fixed => WINDOW,
                    Pacing::Adaptive => 1,
                };
                app.active_downloads = app.active_downloads.wrapping_add(1);
                let replaced: Option<Req> = self.reqs.insert(
                    req,
                    Req {
                        file,
                        sink,
                        next: start,
                        end,
                        outstanding: 0,
                        pending: 0,
                        window,
                        last_progress: now,
                    },
                );
                if replaced.is_some() {
                    app.active_downloads = app.active_downloads.wrapping_sub(1);
                }
                assert(host_state(*self, *app) == s.opened(req, file, start, end, sink, now));
                self.pump(app, req)
            },
            Cmd::Credit(req, starved) => {
                match self.reqs.remove(&req) {
                    Some(st) => {
                        let outstanding: u32 = st.outstanding.saturating_sub(1);
                        let window: u32 = if starved && st.window < MAX_WINDOW {
                            st.window + 1
                        } else {
                            st.window
                        };
                        self.reqs.insert(
                            req,
                            Req { outstanding, window, last_progress: now, ..st },
                        );
                        assert(self.reqs@ =~= s.credited(req, starved, now).reqs);
                    },
                    None => {
                        assert(self.reqs@ =~= s.reqs);
                    },
                }
                assert(host_state(*self, *app) == s.credited(req, starved, now));
                self.pump(app, req)
            },
            Cmd::Close(req) => {
                let mut out: Vec<Out> = Vec::new();
                if self.end_req(app, req) {
                    out.push(Out::Text(Down::Cancel { r: req }));
                    assert(outs(out@) =~= say(DownView::Cancel { r: req }));
                } else {
                    assert(outs(out@) =~= silence());
                }
                out
            },
        }
    }

    /// Takes in a frame: `[u32 LE request id][chunk bytes]`, answering an
    /// earlier pull. Yields the chunk to hand on and for which request.
    pub fn accept_reply(&mut self, app: &mut App, buf: &Bytes, now: u64) -> (chunk: Option<
        (u32, Bytes),
    >)
        requires
            host_state(*old(self), *old(app)).wf(),
        ensures
            host_state(*final(self), *final(app)) == host_state(*old(self), *old(app)).accepted(
                contents(*buf),
                now,
            ).0,
            match (chunk, host_state(*old(self), *old(app)).accepted(contents(*buf), now).1) {
                (Some((req, data)), Some((r, d))) => req == r && contents(data) == d,
                (None, None) => true,
                _ => false,
            },
            chunk matches Some((req, _)) ==> final(self).reqs@.contains_key(req),
            host_state(*final(self), *final(app)).wf(),
    {
        let ghost s = host_state(*self, *app);
        let (req, data): (u32, Bytes) = match decode_frame(buf) {
            Some(parts) => parts,
            None => {
                return None;
            },
        };
        match self.reqs.remove(&req) {
            Some(st) => {
                if st.pending == 0 {
                    // Unsolicited frame: the tab is not following the protocol.
                    app.active_downloads = app.active_downloads.wrapping_sub(1);
                    return None;
                }
                self.reqs.insert(req, Req { pending: st.pending - 1, last_progress: now, ..st });
                assert(self.reqs@ =~= s.accepted(contents(*buf), now).0.reqs);
                Some((req, data))
            },
            None => {
                assert(self.reqs@ =~= s.reqs);
                None
            },
        }
    }

    /// Puts request `req` back as `st`, after a chunk was handed on for it or
    /// could not be. Where the request is over, yields its sink instead.
    pub fn settle_reply(&mut self, app: &mut App, req: u32, st: Req, sent: bool) -> (over: Option<
        Sender<Bytes>,
    >)
        requires
            host_state(*old(self), *old(app)).with_req(req, st).wf(),
            !old(self).reqs@.contains_key(req),
        ensures
            host_state(*final(self), *final(app)) == host_state(*old(self), *old(app)).with_req(
                req,
                st,
            ).settled(req, sent),
            over == if host_state(*old(self), *old(app)).with_req(req, st).is_over(req, sent) {
                Some(st.sink)
            } else {
                None
            },
            host_state(*final(self), *final(app)).wf(),
    {
        let ghost s = host_state(*self, *app);
        if !sent || (st.next >= st.end && st.pending == 0) {
            app.active_downloads = app.active_downloads.wrapping_sub(1);
            assert(s.with_req(req, st).reqs.remove(req) =~= s.reqs);
            Some(st.sink)
        } else {
            self.reqs.insert(req, st);
            None
        }
    }

    /// An answer to an earlier pull. Never ends the connection: a bad frame
    /// just gets ignored or cancels the one request it names. The chunk goes
    /// into the request's sink, which has room for it: no more chunks are
    /// outstanding than the sink can hold. Yields the sink of a request that is
    /// over with it; dropping that ends the body.
    pub fn on_pull_reply(&mut self, app: &mut App, buf: Bytes, now: u64) -> (over: Option<
        Sender<Bytes>,
    >)
        requires
            host_state(*old(self), *old(app)).wf(),
        ensures
            host_state(*old(self), *old(app)).replied(
                contents(buf),
                now,
                host_state(*final(self), *final(app)),
                over,
            ),
            host_state(*final(self), *final(app)).wf(),
    {
        let (req, data): (u32, Bytes) = match self.accept_reply(app, &buf, now) {
            Some(chunk) => chunk,
            None => {
                return None;
            },
        };
        let ghost s = host_state(*self, *app);
        match self.reqs.remove(&req) {
            Some(taken) => {
                let mut st: Req = taken;
                let sent: bool = hand_on(&mut st.sink, data);
                proof {
                    assert(host_state(*self, *app).with_req(req, st) =~= s.with_sink(req, st.sink));
                    assert(took(s.reqs[req].sink, contents(data), st.sink, sent));
                }
                self.settle_reply(app, req, st, sent)
            },
            None => None,
        }
    }

    /// Answers an offer that was registered under `id`, if it was.
    pub fn answer_offer(&mut self, id: Option<String>) -> (d: Down)
        ensures
            match id {
                Some(id) => {
                    &&& final(self).ids@ == old(self).ids@.push(id)
                    &&& d@ == DownView::Ready { id: id@ }
                },
                None => {
                    &&& final(self).ids@ == old(self).ids@
                    &&& d@ == DownView::Full
                },
            },
            final(self).reqs@ == old(self).reqs@,
            final(self).last_seen == old(self).last_seen,
            final(self).conn == old(self).conn,
            final(self).pacing == old(self).pacing,
    {
        match id {
            Some(id) => {
                let answer: Down = Down::Ready { id: id.clone() };
                self.ids.push(id);
                answer
            },
            None => Down::Full,
        }
    }

    /// Registers a file that the tab offers. Always answers: the tab pairs
    /// replies with files by arrival order.
    pub fn on_offer(&mut self, app: &mut App, name: String, size: u64, mime: String) -> (out: Vec<
        Out,
    >)
        requires
            host_state(*old(self), *old(app)).wf(),
        ensures
            host_state(*old(self), *old(app)).offered(
                name@,
                size,
                mime@,
                host_state(*final(self), *final(app)),
                outs(out@),
            ),
            host_state(*final(self), *final(app)).wf(),
    {
        let ghost s = host_state(*self, *app);
        let registered: Option<String> = if self.ids.len() >= MAX_SHARES_PER_CONN {
            None
        } else {
            insert_share(
                app,
                Share {
                    name: sanitize_name(name.as_str()),
                    mime: sanitize_mime(mime.as_str()),
                    size,
                    conn: self.conn,
                },
            )
        };
        let mut out: Vec<Out> = Vec::new();
        let ghost drawn = registered;
        let answer: Down = self.answer_offer(registered);
        out.push(Out::Text(answer));
        proof {
            assert(outs(out@) =~= say(answer@));
            let t = host_state(*self, *app);
            match drawn {
                Some(id) => {
                    assert(t == s.registered(id@, name@, size, mime@));
                },
                None => {
                    assert(t == s);
                },
            }
        }
        out
    }

    /// A text message arrived from the tab; `None` is one that makes no sense.
    pub fn on_text(&mut self, app: &mut App, up: Option<Up>) -> (out: Vec<Out>)
        requires
            host_state(*old(self), *old(app)).wf(),
        ensures
            host_state(*old(self), *old(app)).told(
                up,
                host_state(*final(self), *final(app)),
                outs(out@),
            ),
            host_state(*final(self), *final(app)).wf(),
    {
        match up {
            Some(Up::Offer { name, size, mime }) => self.on_offer(app, name, size, mime),
            Some(Up::Failed { r }) => {
                // Truncates the body; the client sees a short read.
                self.end_req(app, r);
                let out: Vec<Out> = Vec::new();
                assert(outs(out@) =~= silence());
                out
            },
            None => {
                let out: Vec<Out> = Vec::new();
                assert(outs(out@) =~= silence());
                out
            },
        }
    }

    /// One frame arrived from the tab. Without messages to send, stop serving
    /// this connection.
    pub fn on_message(&mut self, app: &mut App, frame: Frame, now: u64) -> (res: Option<Vec<Out>>)
        requires
            host_state(*old(self), *old(app)).wf(),
        ensures
            host_state(*old(self), *old(app)).messaged(
                frame,
                now,
                host_state(*final(self), *final(app)),
                outcome(res),
            ),
            host_state(*final(self), *final(app)).wf(),
    {
        self.last_seen = now;
        assert(host_state(*self, *app) == host_state(*old(self), *old(app)).seen(now));
        match frame {
            Frame::Binary(buf) => {
                self.on_pull_reply(app, buf, now);
                let out: Vec<Out> = Vec::new();
                assert(outs(out@) =~= silence());
                Some(out)
            },
            Frame::Text(up) => Some(self.on_text(app, up)),
            Frame::Close => None,
            Frame::Ping | Frame::Pong => {
                let out: Vec<Out> = Vec::new();
                assert(outs(out@) =~= silence());
                Some(out)
            },
        }
    }

    /// The requests that have made no progress for too long, in no given order.
    fn stale(&self, now: u64) -> (order: Vec<u32>)
        ensures
            order@.no_duplicates(),
            forall|req: u32| #[trigger]
                order@.contains(req) <==> self.reqs@.contains_key(req) && overdue(
                    self.reqs@[req].last_progress,
                    now,
                    REQ_IDLE_TIMEOUT,
                ),
    {
        let mut order: Vec<u32> = Vec::new();
        proof {
            let keys = self.reqs.keys().remaining();
            assert forall|req: u32| #[trigger]
                self.reqs@.contains_key(req) <==> exists|i: int|
                    0 <= i < keys.len() && *#[trigger] keys[i] == req by {
                assert(keys.unref().to_set().contains(req) <==> keys.unref().contains(req));
                if keys.unref().contains(req) {
                    let i = choose|i: int| 0 <= i < keys.len() && keys.unref()[i] == req;
                    assert(*keys[i] == req);
                }
                if exists|i: int| 0 <= i < keys.len() && *#[trigger] keys[i] == req {
                    let i = choose|i: int| 0 <= i < keys.len() && *#[trigger] keys[i] == req;
                    assert(keys.unref()[i] == req);
                }
            }
        }
        for req in it: self.reqs.keys()
            invariant
                it.seq().unref().to_set() == self.reqs@.dom(),
                it.seq().no_duplicates(),
                order@.no_duplicates(),
                forall|req: u32| #[trigger]
                    self.reqs@.contains_key(req) <==> exists|i: int|
                        0 <= i < it.seq().len() && *#[trigger] it.seq()[i] == req,
                forall|req: u32| #[trigger]
                    order@.contains(req) <==> {
                        &&& exists|i: int| 0 <= i < it.index() && *#[trigger] it.seq()[i] == req
                        &&& overdue(self.reqs@[req].last_progress, now, REQ_IDLE_TIMEOUT)
                    },
        {
            let ghost known = order@;
            proof {
                if known.contains(*req) {
                    let i = choose|i: int| 0 <= i < it.index() && *#[trigger] it.seq()[i] == *req;
                    assert(it.seq()[i] == it.seq()[it.index() as int]);
                }
            }
            match self.reqs.get(req) {
                Some(st) => {
                    if is_overdue(st.last_progress, now, REQ_IDLE_TIMEOUT) {
                        order.push(*req);
                        proof {
                            lemma_take_next(order@, known.len() as int);
                            assert(order@.take(known.len() as int) =~= known);
                            assert(order@.take(known.len() as int + 1) =~= order@);
                        }
                    }
                },
                None => {},
            }
            assert(*it.seq()[it.index() as int] == *req);
        }
        order
    }

    /// The periodic heartbeat: declare the connection dead if it has gone
    /// silent, cancel any download that has stopped making progress, then ping.
    pub fn on_ping_tick(&mut self, app: &mut App, now: u64) -> (res: Option<Vec<Out>>)
        requires
            host_state(*old(self), *old(app)).wf(),
        ensures
            host_state(*old(self), *old(app)).ticked(
                now,
                host_state(*final(self), *final(app)),
                outcome(res),
            ),
            host_state(*final(self), *final(app)).wf(),
    {
        if is_overdue(self.last_seen, now, CONN_IDLE_TIMEOUT) {
            return None;
        }
        let ghost s = host_state(*self, *app);
        let order: Vec<u32> = self.stale(now);
        assert(s.lists_stale(order@, now));
        let mut out: Vec<Out> = Vec::new();
        let mut i: usize = 0;
        while i < order.len()
            invariant
                s.wf(),
                s.lists_stale(order@, now),
                i <= order@.len(),
                host_state(*self, *app).wf(),
                host_state(*self, *app) =~= (HostState {
                    reqs: s.reqs.remove_keys(order@.take(i as int).to_set()),
                    active: s.active.wrapping_sub(i),
                    ..s
                }),
                outs(out@) =~= cancels(order@.take(i as int)),
            decreases order@.len() - i,
        {
            let req: u32 = order[i];
            proof {
                lemma_take_next(order@, i as int);
                if order@.take(i as int).contains(req) {
                    let j = choose|j: int| 0 <= j < i && order@.take(i as int)[j] == req;
                    assert(order@[j] == order@[i as int]);
                }
                assert(order@.contains(req));
            }
            self.end_req(app, req);
            let ghost before = out@;
            out.push(Out::Text(Down::Cancel { r: req }));
            assert(outs(out@) =~= outs(before).push(out@.last()@));
            i = i + 1;
        }
        let ghost before = out@;
        out.push(Out::Ping);
        proof {
            assert(outs(out@) =~= outs(before).push(OutView::Ping));
            assert(order@.take(order@.len() as int) =~= order@);
            assert(order@.to_set() =~= Set::new(|req: u32| s.stale(req, now))) by {
                assert forall|req: u32| #[trigger]
                    order@.to_set().contains(req) <==> s.stale(req, now) by {
                    assert(order@.to_set().contains(req) <==> order@.contains(req));
                }
            }
        }
        Some(out)
    }

    /// Every share this tab registered is now gone, and every download against
    /// them ends.
    pub fn shutdown(self, app: &mut App)
        requires
            host_state(self, *old(app)).wf(),
        ensures
            final(app).shares@ == host_state(self, *old(app)).shares_left(),
            final(app).active_downloads == host_state(self, *old(app)).active_left(),
            final(app).budget_chunks == old(app).budget_chunks,
    {
        let ghost s = host_state(self, *app);
        let mut i: usize = 0;
        while i < self.ids.len()
            invariant
                i <= self.ids@.len(),
                s == host_state(self, *old(app)),
                app.active_downloads == s.active,
                app.budget_chunks == s.budget,
                app.shares@ =~= s.shares.remove_keys(s.ids.take(i as int).to_set()),
            decreases self.ids@.len() - i,
        {
            proof {
                lemma_take_next(s.ids, i as int);
            }
            app.shares.remove(&self.ids[i]);
            i = i + 1;
        }
        assert(s.ids.take(s.ids.len() as int) =~= s.ids);
        app.active_downloads = app.active_downloads.wrapping_sub(self.reqs.len());
    }

    /// One step of the connection: takes in what happened and yields the
    /// messages to send to the tab, or nothing where the connection is over.
    pub fn on_event(&mut self, app: &mut App, event: Event, now: u64) -> (res: Option<Vec<Out>>)
        requires
            host_state(*old(self), *old(app)).wf(),
        ensures
            host_state(*old(self), *old(app)).stepped(
                event,
                now,
                host_state(*final(self), *final(app)),
                outcome(res),
            ),
            host_state(*final(self), *final(app)).wf(),
    {
        match event {
            Event::Incoming(frame) => self.on_message(app, frame, now),
            Event::Hangup => None,
            Event::Command(cmd) => Some(self.on_cmd(app, cmd, now)),
            Event::Tick => self.on_ping_tick(app, now),
        }
    }
}

} // verus!
