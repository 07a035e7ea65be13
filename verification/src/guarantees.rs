//! What holds of a connection whatever happens to it: its bounds, who owns a
//! share, which download an event can touch, and the count of active downloads.

use crate::frame::{contents, frame_id, HEADER};
use crate::limits::{
    fair_share, law_shares_fit_the_budget, CHUNK, CONN_IDLE_TIMEOUT, MAX_REQS_PER_CONN,
    MAX_SHARES_PER_CONN, MAX_WINDOW, REQ_IDLE_TIMEOUT, WINDOW,
};
use crate::protocol::{DownView, OutView, Up};
use crate::sanitize::{law_mime_is_bare, law_name_is_safe, sanitized_mime, sanitized_name};
use crate::share::{has_free_id, registry_wf, valid_id, App, ShareView};
use crate::uploader::{cancels, new_host, say, silence, Cmd, Event, Frame, HostState, Pacing};
use bytes::Bytes;
use tokio::sync::mpsc::Sender;
use vstd::prelude::*;
use vstd::set_lib::{lemma_len_subset, lemma_set_disjoint_lens};

verus! {

/// The request that an event is about, where it is about one.
pub open spec fn subject(event: Event) -> Option<u32> {
    match event {
        Event::Incoming(Frame::Binary(buf)) => if contents(buf).len() >= HEADER {
            Some(frame_id(contents(buf)))
        } else {
            None
        },
        Event::Incoming(Frame::Text(Some(Up::Failed { r }))) => Some(r),
        Event::Command(Cmd::Open { req, .. }) => Some(req),
        Event::Command(Cmd::Credit(req, _)) => Some(req),
        Event::Command(Cmd::Close(req)) => Some(req),
        _ => None,
    }
}

impl HostState {
    /// The tab's ids are those of the shares that it holds.
    pub open spec fn owns(self) -> bool {
        forall|id: Seq<char>| #[trigger]
            self.ids.contains(id) <==> self.shares.contains_key(id) && self.shares[id].conn
                == self.conn
    }
}

/// One thing that happened to a connection, and what it led to.
pub struct Step {
    /// The state in which the connection was found.
    pub found: HostState,
    /// What happened.
    pub event: Event,
    /// When it happened.
    pub now: u64,
    /// The state that it led to.
    pub state: HostState,
    /// The messages that were sent.
    pub res: Option<Seq<OutView>>,
}

/// Whether `t` is `s` after other connections did something: the registry and
/// the count of active downloads may be others, and nothing else.
pub open spec fn meanwhile(s: HostState, t: HostState) -> bool {
    t == (HostState { shares: t.shares, active: t.active, ..s })
}

/// The state after some steps from `s`.
pub open spec fn state_after(s: HostState, steps: Seq<Step>) -> HostState {
    if steps.len() == 0 {
        s
    } else {
        steps.last().state
    }
}

/// Whether `steps` can follow one another from `s`, with other connections at
/// work before each of them.
pub open spec fn course(s: HostState, steps: Seq<Step>) -> bool
    decreases steps.len(),
{
    steps.len() == 0 || {
        let last = steps.last();
        &&& course(s, steps.drop_last())
        &&& meanwhile(state_after(s, steps.drop_last()), last.found)
        &&& last.found.stepped(last.event, last.now, last.state, last.res)
    }
}

/// What the heartbeat's sweep takes away.
proof fn lemma_sweep(s: HostState, now: u64, order: Seq<u32>)
    requires
        s.reqs.dom().finite(),
        s.lists_stale(order, now),
    ensures
        s.swept(now, order.len() as int).reqs.dom().finite(),
        s.swept(now, order.len() as int).reqs.len() + order.len() == s.reqs.len(),
{
    let kept = s.swept(now, order.len() as int).reqs.dom();
    let gone = order.to_set();
    assert forall|req: u32| #[trigger] gone.contains(req) <==> s.stale(req, now) by {
        assert(gone.contains(req) <==> order.contains(req));
    }
    order.unique_seq_to_set();
    assert(kept.subset_of(s.reqs.dom()));
    lemma_len_subset(kept, s.reqs.dom());
    assert(gone.subset_of(s.reqs.dom()));
    lemma_len_subset(gone, s.reqs.dom());
    lemma_set_disjoint_lens(kept, gone);
    assert(kept + gone =~= s.reqs.dom());
}

/// Issuing pulls keeps a connection within its bounds.
proof fn lemma_pumped_wf(s: HostState, req: u32)
    requires
        s.wf(),
    ensures
        s.pumped(req).0.wf(),
{
    if s.reqs.contains_key(req) {
        s.reqs[req].lemma_advanced_wf(s.depth(s.reqs[req]));
        assert(s.reqs.dom().insert(req) =~= s.reqs.dom());
    }
}

/// Law: whatever happens, a connection stays within its bounds: it has no more
/// shares and no more downloads than it may have, and no download has more
/// pulls in flight than its window allows.
pub proof fn law_bounds_are_kept(
    s: HostState,
    event: Event,
    now: u64,
    t: HostState,
    res: Option<Seq<OutView>>,
)
    requires
        s.wf(),
        s.stepped(event, now, t, res),
    ensures
        t.wf(),
{
    match event {
        Event::Command(Cmd::Open { req, file, start, end, sink }) => {
            if s.reqs.len() < MAX_REQS_PER_CONN {
                lemma_pumped_wf(s.opened(req, file, start, end, sink, now), req);
            }
        },
        Event::Command(Cmd::Credit(req, starved)) => {
            let u = s.credited(req, starved, now);
            if s.reqs.contains_key(req) {
                assert(s.reqs.dom().insert(req) =~= s.reqs.dom());
            }
            lemma_pumped_wf(u, req);
        },
        Event::Incoming(Frame::Binary(buf)) => {
            let req = frame_id(contents(buf));
            if s.reqs.contains_key(req) {
                assert(s.reqs.dom().insert(req).insert(req) =~= s.reqs.dom());
            }
        },
        Event::Tick => {
            if res is Some {
                let order = choose|order: Seq<u32>|
                    {
                        &&& #[trigger] s.lists_stale(order, now)
                        &&& t == s.swept(now, order.len() as int)
                    };
                lemma_sweep(s, now, order);
            }
        },
        _ => {},
    }
}

/// Law: an event touches no download but the one that it is about; the
/// heartbeat touches those alone that have made no progress for too long.
pub proof fn law_other_downloads_are_untouched(
    s: HostState,
    event: Event,
    now: u64,
    t: HostState,
    res: Option<Seq<OutView>>,
    other: u32,
)
    requires
        s.stepped(event, now, t, res),
        subject(event) != Some(other),
        event is Tick ==> !s.stale(other, now),
    ensures
        t.reqs.contains_key(other) == s.reqs.contains_key(other),
        s.reqs.contains_key(other) ==> t.reqs[other] == s.reqs[other],
{
}

/// Law: nothing that happens to one tab takes away or alters a share that is
/// registered.
pub proof fn law_shares_are_kept(
    s: HostState,
    event: Event,
    now: u64,
    t: HostState,
    res: Option<Seq<OutView>>,
    id: Seq<char>,
)
    requires
        s.stepped(event, now, t, res),
        s.shares.contains_key(id),
    ensures
        t.shares.contains_key(id),
        t.shares[id] == s.shares[id],
{
}

/// Law: every share in the registry has a proper id, and a name and a MIME type
/// that are fit for a header.
pub proof fn law_registry_stays_clean(
    s: HostState,
    event: Event,
    now: u64,
    t: HostState,
    res: Option<Seq<OutView>>,
)
    requires
        registry_wf(s.shares),
        s.stepped(event, now, t, res),
    ensures
        registry_wf(t.shares),
        registry_wf(t.shares_left()),
{
    if let Event::Incoming(Frame::Text(Some(Up::Offer { name, size, mime }))) = event {
        law_name_is_safe(name@);
        law_mime_is_bare(mime@);
    }
}

/// Law: a tab's ids are always those of the shares that it holds.
pub proof fn law_ids_are_the_tabs_own(
    s: HostState,
    event: Event,
    now: u64,
    t: HostState,
    res: Option<Seq<OutView>>,
)
    requires
        s.owns(),
        s.stepped(event, now, t, res),
    ensures
        t.owns(),
{
    if s.ids != t.ids {
        let id = t.ids.last();
        assert(t.ids == s.ids.push(id));
        assert forall|x: Seq<char>| #[trigger]
            t.ids.contains(x) <==> s.ids.contains(x) || x == id by {
            if s.ids.contains(x) {
                let i = choose|i: int| 0 <= i < s.ids.len() && s.ids[i] == x;
                assert(t.ids[i] == x);
            }
            assert(t.ids[s.ids.len() as int] == id);
        }
    }
}

/// Law: what happens to one tab leaves another tab's ids those of the shares
/// that the other one holds; so does its end.
pub proof fn law_tabs_do_not_interfere(
    s: HostState,
    event: Event,
    now: u64,
    t: HostState,
    res: Option<Seq<OutView>>,
    other: HostState,
)
    requires
        s.owns(),
        other.owns(),
        other.shares == s.shares,
        other.conn != s.conn,
        s.stepped(event, now, t, res),
    ensures
        (HostState { shares: t.shares, ..other }).owns(),
        (HostState { shares: s.shares_left(), ..other }).owns(),
{
}

/// Law: when a tab is gone, so is every share that it held, and no other.
pub proof fn law_closed_tab_leaves_nothing(s: HostState, id: Seq<char>)
    requires
        s.owns(),
    ensures
        s.shares_left().contains_key(id) <==> s.shares.contains_key(id) && s.shares[id].conn
            != s.conn,
        s.shares_left().contains_key(id) ==> s.shares_left()[id] == s.shares[id],
{
}

/// Law: every offer is answered by exactly one message. Below the limit, and with
/// an id left, the tab's file is registered under a fresh id, which is the
/// answer; otherwise the answer is that the tab is full, and nothing changes.
pub proof fn law_offers_are_answered(
    s: HostState,
    name: String,
    size: u64,
    mime: String,
    now: u64,
    t: HostState,
    res: Option<Seq<OutView>>,
)
    requires
        s.stepped(
            Event::Incoming(Frame::Text(Some(Up::Offer { name, size, mime }))),
            now,
            t,
            res,
        ),
    ensures
        res is Some,
        res->0.len() == 1,
        match res->0[0] {
            OutView::Text(DownView::Full) => {
                &&& s.ids.len() >= MAX_SHARES_PER_CONN || !has_free_id(s.shares)
                &&& t == (HostState { last_seen: now, ..s })
            },
            OutView::Text(DownView::Ready { id }) => {
                &&& s.ids.len() < MAX_SHARES_PER_CONN && has_free_id(s.shares)
                &&& valid_id(id)
                &&& !s.shares.contains_key(id)
                &&& t.ids == s.ids.push(id)
                &&& t.shares == s.shares.insert(
                    id,
                    ShareView {
                        name: sanitized_name(name@),
                        mime: sanitized_mime(mime@),
                        size,
                        conn: s.conn,
                    },
                )
                &&& t == (HostState { ids: t.ids, shares: t.shares, last_seen: now, ..s })
            },
            _ => false,
        },
{
}

/// Whether an event is an offer.
pub open spec fn is_offer(event: Event) -> bool {
    event matches Event::Incoming(Frame::Text(Some(Up::Offer { .. })))
}

/// How many of `steps` are offers.
pub open spec fn offers(steps: Seq<Step>) -> nat
    decreases steps.len(),
{
    if steps.len() == 0 {
        0
    } else {
        offers(steps.drop_last()) + if is_offer(steps.last().event) {
            1nat
        } else {
            0nat
        }
    }
}

/// Whether a step's one message is a link that was new to the registry.
pub open spec fn answers_ready(step: Step) -> bool {
    &&& step.res is Some
    &&& step.res->0.len() == 1
    &&& step.res->0[0] matches OutView::Text(DownView::Ready { id })
        && !step.found.shares.contains_key(id) && step.state.shares.contains_key(id)
}

/// Whether a step's one message is that the tab is full.
pub open spec fn answers_full(step: Step) -> bool {
    step.res == Some(say(DownView::Full))
}

/// Law: over any course of events on a new connection, whatever the others do
/// meanwhile, and while ids are left, each of the first `MAX_SHARES_PER_CONN`
/// offers is answered by a link that is new, and each later one by full; the
/// connection has one share for each of the first ones.
pub proof fn law_first_offers_get_links(s: HostState, steps: Seq<Step>)
    requires
        s.ids.len() == 0,
        course(s, steps),
        forall|i: int|
            0 <= i < steps.len() && is_offer(#[trigger] steps[i].event) ==> has_free_id(
                steps[i].found.shares,
            ),
    ensures
        state_after(s, steps).ids.len() == if offers(steps) < MAX_SHARES_PER_CONN {
            offers(steps)
        } else {
            MAX_SHARES_PER_CONN as nat
        },
        forall|i: int|
            0 <= i < steps.len() && is_offer(#[trigger] steps[i].event) ==> if offers(steps.take(i))
                < MAX_SHARES_PER_CONN {
                answers_ready(steps[i])
            } else {
                answers_full(steps[i])
            },
    decreases steps.len(),
{
    if steps.len() > 0 {
        let before = steps.drop_last();
        let n = before.len() as int;
        let last = steps.last();
        assert forall|i: int|
            0 <= i < n && is_offer(#[trigger] before[i].event) implies has_free_id(
            before[i].found.shares,
        ) by {
            assert(steps[i] == before[i]);
        }
        law_first_offers_get_links(s, before);
        if let Event::Incoming(Frame::Text(Some(Up::Offer { name, size, mime }))) = last.event {
            assert(is_offer(steps[n].event));
            law_offers_are_answered(
                last.found,
                name,
                size,
                mime,
                last.now,
                last.state,
                last.res,
            );
            assert(last.res->0 =~= seq![last.res->0[0]]);
        }
        assert forall|i: int| 0 <= i < steps.len() && is_offer(#[trigger] steps[i].event) implies if
        offers(steps.take(i)) < MAX_SHARES_PER_CONN {
            answers_ready(steps[i])
        } else {
            answers_full(steps[i])
        } by {
            if i < n {
                assert(is_offer(before[i].event));
                assert(before.take(i) =~= steps.take(i));
            } else {
                assert(steps.take(i) =~= before);
            }
        }
    }
}

/// Law: with `others` active downloads elsewhere, the count of active downloads
/// is always that many and the connection's own, and only they remain when the
/// connection is gone.
pub proof fn law_active_downloads_are_counted(
    s: HostState,
    event: Event,
    now: u64,
    t: HostState,
    res: Option<Seq<OutView>>,
    others: int,
)
    requires
        s.wf(),
        s.stepped(event, now, t, res),
        0 <= others,
        others + MAX_REQS_PER_CONN <= usize::MAX,
        s.active == others + s.reqs.len(),
    ensures
        t.active == others + t.reqs.len(),
        t.active_left() == others,
{
    match event {
        Event::Tick => {
            if res is Some {
                let order = choose|order: Seq<u32>|
                    {
                        &&& #[trigger] s.lists_stale(order, now)
                        &&& t == s.swept(now, order.len() as int)
                    };
                lemma_sweep(s, now, order);
            }
        },
        Event::Incoming(Frame::Binary(buf)) => {
            let req = frame_id(contents(buf));
            if s.reqs.contains_key(req) {
                assert(s.reqs.dom().insert(req).insert(req) =~= s.reqs.dom());
                assert(s.reqs.dom().insert(req).insert(req).remove(req) =~= s.reqs.dom().remove(
                    req,
                ));
            }
        },
        Event::Command(Cmd::Credit(req, _)) => {
            if s.reqs.contains_key(req) {
                assert(s.reqs.dom().insert(req).insert(req) =~= s.reqs.dom());
            }
        },
        Event::Command(Cmd::Open { req, .. }) => {
            assert(s.reqs.dom().insert(req).insert(req) =~= s.reqs.dom().insert(req));
            if s.reqs.contains_key(req) {
                assert(s.reqs.dom().insert(req) =~= s.reqs.dom());
            }
        },
        _ => {},
    }
}

/// Law: a download that is closed, or that the tab cannot serve, is gone.
pub proof fn law_ended_downloads_are_gone(
    s: HostState,
    event: Event,
    now: u64,
    t: HostState,
    res: Option<Seq<OutView>>,
    req: u32,
)
    requires
        s.stepped(event, now, t, res),
        event == Event::Command(Cmd::Close(req)) || event == Event::Incoming(
            Frame::Text(Some(Up::Failed { r: req })),
        ),
    ensures
        !t.reqs.contains_key(req),
{
}

/// Law: after a heartbeat that the connection survives, every download has made
/// progress lately.
pub proof fn law_heartbeat_leaves_nothing_stale(
    s: HostState,
    now: u64,
    t: HostState,
    res: Option<Seq<OutView>>,
    req: u32,
)
    requires
        s.stepped(Event::Tick, now, t, res),
        res is Some,
    ensures
        !t.stale(req, now),
{
}

/// Law: a download's window never shrinks, and grows by one at most, and only
/// after a starved read.
pub proof fn law_window_grows_when_starved(
    s: HostState,
    event: Event,
    now: u64,
    t: HostState,
    res: Option<Seq<OutView>>,
    req: u32,
)
    requires
        s.wf(),
        s.stepped(event, now, t, res),
        s.reqs.contains_key(req),
        t.reqs.contains_key(req),
        !(event matches Event::Command(Cmd::Open { req: r, .. }) && r == req),
    ensures
        s.reqs[req].window <= t.reqs[req].window <= s.reqs[req].window + 1,
        t.reqs[req].window > s.reqs[req].window ==> event == Event::Command(
            Cmd::Credit(req, true),
        ),
{
}

/// Law: answers to a download that is gone are dropped.
pub proof fn law_late_answers_are_dropped(
    s: HostState,
    buf: Bytes,
    now: u64,
    t: HostState,
    res: Option<Seq<OutView>>,
)
    requires
        s.stepped(Event::Incoming(Frame::Binary(buf)), now, t, res),
        !s.reqs.contains_key(frame_id(contents(buf))),
    ensures
        t == s.seen(now),
        res == Some(silence()),
{
}

/// Law: with adaptive pacing, pulls are issued up to the download's own window
/// and its fair share of the budget, whichever is less, and not beyond; and they
/// are issued up to that, unless the whole range has been asked for.
pub proof fn law_pulls_follow_the_fair_share(s: HostState, req: u32)
    requires
        s.wf(),
        s.pacing == Pacing::Adaptive,
        s.reqs.contains_key(req),
    ensures
        ({
            let before = s.reqs[req];
            let after = s.pumped(req).0.reqs[req];
            let share = fair_share(s.budget, s.active);
            &&& after.outstanding > before.outstanding ==> after.outstanding <= share
                && after.outstanding <= before.window
            &&& after.outstanding >= share || after.outstanding >= before.window || after.next
                >= after.end
        }),
{
    let r = s.reqs[req];
    r.lemma_reach(r.pull_count(s.depth(r)));
    law_shares_fit_the_budget(
        s.budget,
        if s.active == 0 {
            1
        } else {
            s.active
        },
    );
}

/// Law: a heartbeat ends the connection just where nothing arrived from the tab
/// for longer than a connection may be silent, whatever shares and downloads the
/// tab has.
pub proof fn law_silence_ends_the_connection(
    s: HostState,
    now: u64,
    t: HostState,
    res: Option<Seq<OutView>>,
)
    requires
        s.stepped(Event::Tick, now, t, res),
    ensures
        res is None <==> now - s.last_seen > CONN_IDLE_TIMEOUT,
        res is None ==> t == s,
{
}

/// Law: a heartbeat that the connection survives ends just the downloads that
/// have made no progress for longer than they may, leaves the others as they
/// are, cancels each of the former once, and pings at last.
pub proof fn law_heartbeat_cancels_what_is_stuck(
    s: HostState,
    now: u64,
    t: HostState,
    res: Option<Seq<OutView>>,
    req: u32,
)
    requires
        s.wf(),
        s.stepped(Event::Tick, now, t, res),
        now - s.last_seen <= CONN_IDLE_TIMEOUT,
    ensures
        res is Some,
        t.reqs.contains_key(req) <==> s.reqs.contains_key(req) && now - s.reqs[req].last_progress
            <= REQ_IDLE_TIMEOUT,
        t.reqs.contains_key(req) ==> t.reqs[req] == s.reqs[req],
        res->0.len() == s.reqs.len() - t.reqs.len() + 1,
        res->0.last() == OutView::Ping,
        forall|i: int|
            0 <= i < res->0.len() - 1 ==> (#[trigger] res->0[i] matches OutView::Text(
                DownView::Cancel { r },
            ) && s.reqs.contains_key(r) && !t.reqs.contains_key(r)),
        s.reqs.contains_key(req) && !t.reqs.contains_key(req) ==> res->0.contains(
            OutView::Text(DownView::Cancel { r: req }),
        ),
        t.ids == s.ids,
        t.shares == s.shares,
{
    let order = choose|order: Seq<u32>|
        {
            &&& #[trigger] s.lists_stale(order, now)
            &&& t == s.swept(now, order.len() as int)
            &&& res == Some(cancels(order).push(OutView::Ping))
        };
    lemma_sweep(s, now, order);
    assert forall|i: int| 0 <= i < res->0.len() - 1 implies (
    #[trigger] res->0[i] matches OutView::Text(DownView::Cancel { r }) && s.reqs.contains_key(r)
        && !t.reqs.contains_key(r)) by {
        assert(order.contains(order[i]));
        assert(res->0[i] == OutView::Text(DownView::Cancel { r: order[i] }));
    }
    if s.stale(req, now) {
        assert(order.contains(req));
        let i = choose|i: int| 0 <= i < order.len() && order[i] == req;
        assert(res->0[i] == OutView::Text(DownView::Cancel { r: req }));
    }
}

/// Law: a connection is over just where the tab closes it or breaks it off, or
/// where a heartbeat finds it silent for too long.
pub proof fn law_connection_ends_only_so(
    s: HostState,
    event: Event,
    now: u64,
    t: HostState,
    res: Option<Seq<OutView>>,
)
    requires
        s.stepped(event, now, t, res),
    ensures
        res is None <==> {
            ||| event == Event::Incoming(Frame::Close)
            ||| event == Event::Hangup
            ||| event == Event::Tick && now - s.last_seen > CONN_IDLE_TIMEOUT
        },
{
}

/// Law: whatever arrives from the tab, and nothing else, counts as a sign of
/// life; what a connection is and what it may use never changes.
pub proof fn law_arrivals_are_noted(
    s: HostState,
    event: Event,
    now: u64,
    t: HostState,
    res: Option<Seq<OutView>>,
)
    requires
        s.stepped(event, now, t, res),
    ensures
        t.last_seen == if event is Incoming {
            now
        } else {
            s.last_seen
        },
        t.conn == s.conn,
        t.pacing == s.pacing,
        t.budget == s.budget,
{
}

/// Law: nothing but an offer changes the shares of a tab or of the server.
pub proof fn law_only_offers_register(
    s: HostState,
    event: Event,
    now: u64,
    t: HostState,
    res: Option<Seq<OutView>>,
)
    requires
        s.stepped(event, now, t, res),
        !is_offer(event),
    ensures
        t.ids == s.ids,
        t.shares == s.shares,
{
}

/// Law: closing a download tells the tab once, where there was one; the tab's
/// own report that it cannot serve it needs no answer.
pub proof fn law_endings_are_told_once(
    s: HostState,
    event: Event,
    now: u64,
    t: HostState,
    res: Option<Seq<OutView>>,
    req: u32,
)
    requires
        s.stepped(event, now, t, res),
    ensures
        event == Event::Command(Cmd::Close(req)) ==> res == Some(
            if s.reqs.contains_key(req) {
                seq![OutView::Text(DownView::Cancel { r: req })]
            } else {
                Seq::empty()
            },
        ),
        event == Event::Incoming(Frame::Text(Some(Up::Failed { r: req }))) ==> res == Some(
            Seq::<OutView>::empty(),
        ),
{
}

/// Law: keepalives and text that makes no sense change nothing but the time of
/// the last sign of life, and are not answered.
pub proof fn law_noise_changes_nothing(
    s: HostState,
    event: Event,
    now: u64,
    t: HostState,
    res: Option<Seq<OutView>>,
)
    requires
        s.stepped(event, now, t, res),
        event == Event::Incoming(Frame::Ping) || event == Event::Incoming(Frame::Pong) || event
            == Event::Incoming(Frame::Text(None)),
    ensures
        t == (HostState { last_seen: now, ..s }),
        res == Some(Seq::<OutView>::empty()),
{
}

/// Law: a frame that answers no pull ends the download that it names.
pub proof fn law_unsolicited_frames_end_their_download(
    s: HostState,
    buf: Bytes,
    now: u64,
    t: HostState,
    res: Option<Seq<OutView>>,
    req: u32,
)
    requires
        s.stepped(Event::Incoming(Frame::Binary(buf)), now, t, res),
        contents(buf).len() >= 4,
        contents(buf)[0] + 256 * contents(buf)[1] + 65536 * contents(buf)[2] + 16777216 * contents(
            buf,
        )[3] == req,
        s.reqs.contains_key(req),
        s.reqs[req].pending == 0,
    ensures
        t.reqs == s.reqs.remove(req),
        res == Some(Seq::<OutView>::empty()),
{
}

/// Law: a download that would be one too many for its tab is turned away, and
/// nothing changes.
pub proof fn law_downloads_beyond_the_limit_are_turned_away(
    s: HostState,
    req: u32,
    file: String,
    start: u64,
    end: u64,
    sink: Sender<Bytes>,
    now: u64,
    t: HostState,
    res: Option<Seq<OutView>>,
)
    requires
        s.stepped(Event::Command(Cmd::Open { req, file, start, end, sink }), now, t, res),
    ensures
        s.reqs.len() >= MAX_REQS_PER_CONN ==> t == s && res == Some(Seq::<OutView>::empty()),
        s.reqs.len() < MAX_REQS_PER_CONN ==> {
            &&& t.reqs.contains_key(req)
            &&& t.reqs[req].sink == sink
            &&& t.reqs[req].file == file
            &&& t.reqs[req].end == end
            &&& t.reqs[req].last_progress == now
            &&& t.reqs[req].outstanding == t.reqs[req].pending == res->0.len()
        },
{
    if s.reqs.len() < MAX_REQS_PER_CONN {
        let u = s.opened(req, file, start, end, sink, now);
        let r = u.reqs[req];
        assert(0 <= r.pull_count(u.depth(r)) <= MAX_WINDOW);
    }
}

/// Law: a download begins with a window of one where it is to adapt, and with
/// the fixed window where it is not; it begins by asking for that many chunks,
/// or for all where there are fewer.
pub proof fn law_downloads_begin_with_their_window(
    s: HostState,
    req: u32,
    file: String,
    start: u64,
    end: u64,
    sink: Sender<Bytes>,
    now: u64,
    t: HostState,
    res: Option<Seq<OutView>>,
)
    requires
        s.stepped(Event::Command(Cmd::Open { req, file, start, end, sink }), now, t, res),
        s.reqs.len() < MAX_REQS_PER_CONN,
        start < end,
    ensures
        s.pacing == Pacing::Adaptive ==> t.reqs[req].window == 1 && res->0.len() == 1,
        s.pacing == Pacing::Fixed ==> {
            &&& t.reqs[req].window == WINDOW
            &&& 1 <= res->0.len() <= WINDOW
            &&& res->0.len() < WINDOW ==> t.reqs[req].next >= end
        },
{
    let u = s.opened(req, file, start, end, sink, now);
    let r = u.reqs[req];
    r.lemma_reach(r.pull_count(u.depth(r)));
    law_shares_fit_the_budget(
        u.budget,
        if u.active == 0 {
            1
        } else {
            u.active
        },
    );
}

/// Law: a credit takes one chunk off those in flight, counts as progress, and
/// widens the window by one just where the read was starved and the window is
/// not at its widest. Then pulls are issued up to the window, and with adaptive
/// pacing up to the fair share, and not beyond, unless the whole range has been
/// asked for.
pub proof fn law_credits_refill_the_window(
    s: HostState,
    req: u32,
    starved: bool,
    now: u64,
    t: HostState,
    res: Option<Seq<OutView>>,
)
    requires
        s.wf(),
        s.stepped(Event::Command(Cmd::Credit(req, starved)), now, t, res),
        s.reqs.contains_key(req),
    ensures
        t.reqs.contains_key(req),
        ({
            let before = s.reqs[req];
            let after = t.reqs[req];
            let left: int = if before.outstanding == 0 {
                0
            } else {
                before.outstanding - 1
            };
            let share = fair_share(s.budget, s.active);
            let limit: int = if s.pacing == Pacing::Adaptive && share < after.window {
                share
            } else {
                after.window as int
            };
            &&& after.last_progress == now
            &&& after.window == if starved && before.window < MAX_WINDOW {
                before.window + 1
            } else {
                before.window as int
            }
            &&& after.outstanding == left + res->0.len()
            &&& after.pending == before.pending + res->0.len()
            &&& res->0.len() > 0 ==> after.outstanding <= limit
            &&& after.outstanding >= limit || after.next >= after.end
            &&& after.sink == before.sink
            &&& after.end == before.end
            &&& after.file == before.file
        }),
{
    let u = s.credited(req, starved, now);
    let c = u.reqs[req];
    c.lemma_reach(c.pull_count(u.depth(c)));
    c.lemma_advanced_wf(u.depth(c));
}

/// Law: when a tab is gone, its downloads no longer count.
pub proof fn law_closed_tab_gives_back_its_downloads(s: HostState, others: int)
    requires
        s.wf(),
        0 <= others,
        s.active == others + s.reqs.len(),
    ensures
        s.active_left() == others,
{
}

/// Law: every pull asks, for the download that the event is about, for a whole
/// chunk of its file, or for less where that is all there is to the end of its
/// range.
pub proof fn law_pulls_ask_for_whole_chunks(
    s: HostState,
    event: Event,
    now: u64,
    t: HostState,
    res: Option<Seq<OutView>>,
    i: int,
)
    requires
        s.stepped(event, now, t, res),
        res is Some,
        0 <= i < res->0.len(),
        res->0[i] matches OutView::Text(DownView::Pull { .. }),
    ensures
        res->0[i] matches OutView::Text(DownView::Pull { r, file, s: from, e }) && {
            &&& subject(event) == Some(r)
            &&& t.reqs.contains_key(r)
            &&& file == t.reqs[r].file@
            &&& from < e <= t.reqs[r].end
            &&& e == from + CHUNK || e == t.reqs[r].end && e < from + CHUNK
        },
{
    match event {
        Event::Command(Cmd::Open { req, file, start, end, sink }) => {
            let r = s.opened(req, file, start, end, sink, now).reqs[req];
            r.lemma_reach(i);
            r.lemma_reach(i + 1);
        },
        Event::Command(Cmd::Credit(req, starved)) => {
            let r = s.credited(req, starved, now).reqs[req];
            r.lemma_reach(i);
            r.lemma_reach(i + 1);
        },
        Event::Tick => {
            let order = choose|order: Seq<u32>|
                {
                    &&& #[trigger] s.lists_stale(order, now)
                    &&& t == s.swept(now, order.len() as int)
                    &&& res == Some(cancels(order).push(OutView::Ping))
                };
            if i < order.len() {
                assert(res->0[i] == OutView::Text(DownView::Cancel { r: order[i] }));
            }
        },
        _ => {},
    }
}

/// Law: a frame that is too short to name a download is ignored.
pub proof fn law_short_frames_are_ignored(
    s: HostState,
    buf: Bytes,
    now: u64,
    t: HostState,
    res: Option<Seq<OutView>>,
)
    requires
        s.stepped(Event::Incoming(Frame::Binary(buf)), now, t, res),
        contents(buf).len() < 4,
    ensures
        t == (HostState { last_seen: now, ..s }),
        res == Some(Seq::<OutView>::empty()),
{
}

/// Law: what comes for a download that is not there does nothing.
pub proof fn law_absent_downloads_are_left_alone(
    s: HostState,
    event: Event,
    now: u64,
    t: HostState,
    res: Option<Seq<OutView>>,
    req: u32,
    starved: bool,
)
    requires
        s.stepped(event, now, t, res),
        !s.reqs.contains_key(req),
        event == Event::Command(Cmd::Close(req)) || event == Event::Command(
            Cmd::Credit(req, starved),
        ) || event == Event::Incoming(Frame::Text(Some(Up::Failed { r: req }))),
    ensures
        t == (HostState { last_seen: t.last_seen, ..s }),
        res == Some(Seq::<OutView>::empty()),
{
}

/// Law: a new connection has neither shares nor downloads, is within its bounds,
/// holds what its ids say, and lives until it has been silent for too long.
pub proof fn law_connections_begin_empty(
    conn: u64,
    pacing: Pacing,
    began: u64,
    app: App,
    now: u64,
    t: HostState,
    res: Option<Seq<OutView>>,
)
    requires
        forall|id: Seq<char>| #[trigger]
            app.shares@.contains_key(id) ==> app.shares@[id].conn != conn,
        new_host(conn, pacing, began, app).stepped(Event::Tick, now, t, res),
    ensures
        new_host(conn, pacing, began, app).wf(),
        new_host(conn, pacing, began, app).owns(),
        new_host(conn, pacing, began, app).ids.len() == 0,
        new_host(conn, pacing, began, app).reqs.len() == 0,
        new_host(conn, pacing, began, app).conn == conn,
        new_host(conn, pacing, began, app).pacing == pacing,
        res is None <==> now - began > CONN_IDLE_TIMEOUT,
        res is Some ==> res == Some(seq![OutView::Ping]),
{
    let s = new_host(conn, pacing, began, app);
    assert forall|order: Seq<u32>| #[trigger] s.lists_stale(order, now) implies order.len()
        == 0 by {
        if order.len() > 0 {
            assert(order.contains(order[0]));
        }
    }
    if res is Some {
        assert(res->0 =~= seq![OutView::Ping]);
    }
}

} // verus!
