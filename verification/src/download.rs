//! The consumer's side of the protocol: a plain HTTP GET, streamed straight
//! from the uploader's tab.

use crate::channel::{body_channel, feeds, handed, room};
use crate::delivery::{delivering, law_download_begins};
use crate::disposition::{
    disposition, disposition_of, header_safe, law_disposition_is_header_safe,
};
use crate::limits::{MAX_REQS_PER_CONN, MAX_WINDOW};
use crate::protocol::{DownView, OutView};
use crate::range::{
    header_bytes, law_range_is_in_the_file, law_ranges_mean_what_they_say, parse_range, range_of,
    range_of_header, range_text, text_byte, Bounds,
};
use crate::sanitize::{bare_mime, bare_mime_at, sanitized_mime, sanitized_name, token_char};
use crate::share::{registry_wf, App, Share, ShareView};
use crate::text::{decimal, decimal_digits, digit_char, lemma_decimal_digits};
use crate::uploader::{say, Cmd, HostState};
use axum::http::HeaderValue;
use bytes::Bytes;
use tokio::sync::mpsc::{Receiver, Sender};
use vstd::prelude::*;
use vstd::string::StringExecFns;

verus! {

/// The number that the next download gets.
pub struct ReqIds {
    pub next: u32,
}

impl ReqIds {
    /// The first download gets number one.
    pub fn new() -> (ids: ReqIds)
        ensures
            ids.next == 1,
    {
        ReqIds { next: 1 }
    }
}

/// The number after `n`.
pub open spec fn req_id_after(n: u32) -> u32 {
    n.wrapping_add(1)
}

/// A number for a new download: one more than the last one, from zero again
/// after the largest.
pub fn next_req_id(ids: &mut ReqIds) -> (req: u32)
    ensures
        req == old(ids).next,
        final(ids).next == old(ids).next.wrapping_add(1),
        final(ids).next == req_id_after(old(ids).next),
{
    let req: u32 = ids.next;
    ids.next = req.wrapping_add(1);
    req
}

/// The headers of a reply.
#[derive(Clone, Copy, PartialEq, Eq, Structural, Debug)]
pub enum Header {
    ContentType,
    ContentLength,
    AcceptRanges,
    CacheControl,
    ContentDisposition,
    ContentRange,
}

/// Follows a download's body on its way out: yielding a chunk returns a credit,
/// so that the actor issues the next pull; dropping it cancels the transfer.
pub struct Relay {
    /// Which download this is.
    pub req: u32,
    /// Set when the next chunk was wanted before one was there: the window was
    /// too shallow to keep this download fed. Reported with the next chunk.
    pub starved: bool,
}

/// What came of asking the channel for the next chunk.
#[derive(Clone, Copy, PartialEq, Eq, Structural, Debug)]
pub enum Polled {
    /// There was one.
    Chunk,
    /// There will be no more.
    End,
    /// There is none yet.
    Waiting,
}

impl Relay {
    /// A relay for download `req`.
    pub fn new(req: u32) -> (relay: Relay)
        ensures
            relay == (Relay { req, starved: false }),
    {
        Relay { req, starved: false }
    }

    /// What to tell the actor.
    pub fn on_poll(&mut self, polled: Polled) -> (cmd: Option<Cmd>)
        ensures
            final(self).req == old(self).req,
            match polled {
                Polled::Chunk => {
                    &&& cmd == Some(Cmd::Credit(old(self).req, old(self).starved))
                    &&& !final(self).starved
                },
                Polled::End => cmd is None && final(self).starved == old(self).starved,
                Polled::Waiting => cmd is None && final(self).starved,
            },
            *final(self) == relay_after(*old(self), polled),
            cmd == relay_tells(*old(self), polled),
    {
        match polled {
            Polled::Chunk => {
                let starved: bool = self.starved;
                self.starved = false;
                Some(Cmd::Credit(self.req, starved))
            },
            Polled::End => None,
            Polled::Waiting => {
                self.starved = true;
                None
            },
        }
    }

    /// What to tell the actor once the body is dropped.
    pub fn on_drop(&self) -> (cmd: Cmd)
        ensures
            cmd == Cmd::Close(self.req),
            cmd == relay_closes(*self),
    {
        Cmd::Close(self.req)
    }
}

/// The body of a reply.
pub enum Payload {
    /// A short text.
    Text(String),
    /// No bytes at all.
    Empty,
    /// The bytes `start .. end` of the share `file`, from the tab with the
    /// connection `conn`. They come out of `chunks`, which `relay` follows.
    Stream {
        conn: u64,
        file: String,
        start: u64,
        end: u64,
        chunks: Receiver<Bytes>,
        relay: Relay,
    },
}

/// A command for a connection.
pub struct Order {
    pub conn: u64,
    pub open: Cmd,
}

/// The answer to a download.
pub struct Reply {
    pub status: u16,
    pub headers: Vec<(Header, String)>,
    pub payload: Payload,
    /// What to tell a tab before the answer is sent. It is to be taken out and
    /// delivered, and `delivered` then says what to answer.
    pub order: Option<Order>,
}

/// What a `Payload` says of the file. What it says of the download's number, its
/// channel and its relay, `Reply::streams` states.
pub enum PayloadView {
    Text(Seq<char>),
    Empty,
    Stream { conn: u64, file: Seq<char>, start: u64, end: u64 },
}

/// What a `Reply` says.
pub struct ReplyView {
    pub status: u16,
    pub headers: Seq<(Header, Seq<char>)>,
    pub payload: PayloadView,
}

/// What a list of headers says.
pub open spec fn header_lines(h: Seq<(Header, String)>) -> Seq<(Header, Seq<char>)> {
    h.map_values(|line: (Header, String)| (line.0, line.1@))
}

impl View for Payload {
    type V = PayloadView;

    open spec fn view(&self) -> PayloadView {
        match self {
            Payload::Text(text) => PayloadView::Text(text@),
            Payload::Empty => PayloadView::Empty,
            Payload::Stream { conn, file, start, end, .. } => PayloadView::Stream {
                conn: *conn,
                file: file@,
                start: *start,
                end: *end,
            },
        }
    }
}

impl View for Reply {
    type V = ReplyView;

    open spec fn view(&self) -> ReplyView {
        ReplyView {
            status: self.status,
            headers: header_lines(self.headers@),
            payload: self.payload@,
        }
    }
}

impl Reply {
    /// Whether the reply starts a download with number `req`: the tab is asked
    /// for the bytes that the payload names, over a new channel, which has room
    /// for as many chunks as can be in flight and which feeds the body, and the
    /// relay goes by the same number.
    pub open spec fn streams(self, req: u32) -> bool {
        match (self.payload, self.order) {
            (
                Payload::Stream { conn, file, start, end, chunks, relay },
                Some(
                    Order {
                        conn: to,
                        open: Cmd::Open { req: r, file: f, start: s, end: e, sink },
                    },
                ),
            ) => {
                &&& to == conn
                &&& r == req
                &&& f@ == file@
                &&& s == start
                &&& e == end
                &&& handed(sink).len() == 0
                &&& room(sink) == MAX_WINDOW
                &&& feeds(sink, chunks)
                &&& relay == (Relay { req, starved: false })
            },
            _ => false,
        }
    }
}

/// The answer for a file whose tab is gone.
pub open spec fn gone_reply() -> ReplyView {
    ReplyView {
        status: 404,
        headers: Seq::empty(),
        payload: PayloadView::Text("410 gone: the sender closed the tab\n"@),
    }
}

/// The answer to a range that a file of `size` bytes does not have.
pub open spec fn unsatisfiable_reply(size: u64) -> ReplyView {
    ReplyView {
        status: 416,
        headers: seq![(Header::ContentRange, "bytes */"@ + decimal_digits(size as nat))],
        payload: PayloadView::Empty,
    }
}

/// The bytes to serve: those of the range, or all of them.
pub open spec fn bounds_of(range: Option<Bounds>, size: u64) -> Bounds {
    match range {
        Some(bounds) => bounds,
        None => (0, size),
    }
}

/// The headers of an answer with these bytes of a share.
pub open spec fn file_headers(share: ShareView, range: Option<Bounds>) -> Seq<
    (Header, Seq<char>),
> {
    let (start, end) = bounds_of(range, share.size);
    let whole = seq![
        (Header::ContentType, share.mime),
        (Header::ContentLength, decimal_digits((end - start) as nat)),
        (Header::AcceptRanges, "bytes"@),
        (Header::CacheControl, "no-store"@),
        (Header::ContentDisposition, disposition_of(share.name)),
    ];
    if range is Some {
        whole.push(
            (
                Header::ContentRange,
                "bytes "@ + decimal_digits(start as nat) + "-"@ + decimal_digits((end - 1) as nat)
                    + "/"@ + decimal_digits(share.size as nat),
            ),
        )
    } else {
        whole
    }
}

/// The answer with these bytes of the share `id`.
pub open spec fn file_reply(
    share: ShareView,
    id: Seq<char>,
    head: bool,
    range: Option<Bounds>,
) -> ReplyView {
    let (start, end) = bounds_of(range, share.size);
    ReplyView {
        status: if range is Some {
            206
        } else {
            200
        },
        headers: file_headers(share, range),
        payload: if head || start == end {
            PayloadView::Empty
        } else {
            PayloadView::Stream { conn: share.conn, file: id, start, end }
        },
    }
}

/// The answer for the share `id` with the range that its request asks for.
pub open spec fn share_reply(
    share: ShareView,
    id: Seq<char>,
    head: bool,
    range: Result<Option<Bounds>, ()>,
) -> ReplyView {
    match range {
        Ok(range) => file_reply(share, id, head, range),
        Err(()) => unsatisfiable_reply(share.size),
    }
}

/// What a request with this `Range` header, or none, asks for of a file of
/// `size` bytes.
pub open spec fn asked_range(header: Option<Seq<u8>>, size: u64) -> Result<Option<Bounds>, ()> {
    match header {
        Some(h) => range_of_header(h, size),
        None => Ok(None),
    }
}

/// The answer to a request for `id`, where the registry holds `shares`.
pub open spec fn download_reply(
    shares: Map<Seq<char>, ShareView>,
    id: Seq<char>,
    head: bool,
    header: Option<Seq<u8>>,
) -> ReplyView {
    if shares.contains_key(id) {
        share_reply(shares[id], id, head, asked_range(header, shares[id].size))
    } else {
        gone_reply()
    }
}

/// Answers for a file whose tab is gone.
pub fn gone() -> (reply: Reply)
    ensures
        reply@ == gone_reply(),
        reply.order is None,
{
    let reply: Reply = Reply {
        status: 404,
        headers: Vec::new(),
        payload: Payload::Text("410 gone: the sender closed the tab\n".to_owned()),
        order: None,
    };
    assert(reply@.headers =~= gone_reply().headers);
    reply
}

/// Writes the headers of an answer with these bytes of a share.
fn write_headers(share: &Share, range: Option<Bounds>) -> (h: Vec<(Header, String)>)
    requires
        range matches Some((start, end)) ==> start < end <= share.size,
    ensures
        header_lines(h@) == file_headers(share@, range),
{
    let (start, end): Bounds = match range {
        Some(bounds) => bounds,
        None => (0, share.size),
    };
    let mut h: Vec<(Header, String)> = Vec::new();
    h.push((Header::ContentType, share.mime.clone()));
    h.push((Header::ContentLength, decimal(end - start)));
    h.push((Header::AcceptRanges, "bytes".to_owned()));
    h.push((Header::CacheControl, "no-store".to_owned()));
    h.push((Header::ContentDisposition, disposition(share.name.as_str())));
    if range.is_some() {
        let served: String = "bytes ".to_owned().concat(decimal(start).as_str()).concat("-").concat(
            decimal(end - 1).as_str(),
        ).concat("/").concat(decimal(share.size).as_str());
        h.push((Header::ContentRange, served));
    }
    assert(header_lines(h@) =~= file_headers(share@, range));
    h
}

/// Answers for the share `id`, with the range that its request asks for. A
/// request for the headers alone, and an empty file, need no bytes from the tab.
pub fn serve(
    share: &Share,
    id: &str,
    head: bool,
    range: Result<Option<Bounds>, ()>,
    ids: &mut ReqIds,
) -> (reply: Reply)
    requires
        range matches Ok(Some((start, end))) ==> start < end <= share.size,
    ensures
        reply@ == share_reply(share@, id@, head, range),
        reply.payload is Stream ==> reply.streams(old(ids).next) && final(ids).next == old(
            ids,
        ).next.wrapping_add(1),
        !(reply.payload is Stream) ==> reply.order is None && final(ids).next == old(ids).next,
{
    let range: Option<Bounds> = match range {
        Ok(range) => range,
        Err(()) => {
            let mut headers: Vec<(Header, String)> = Vec::new();
            headers.push(
                (
                    Header::ContentRange,
                    "bytes */".to_owned().concat(decimal(share.size).as_str()),
                ),
            );
            let reply: Reply = Reply { status: 416, headers, payload: Payload::Empty, order: None };
            assert(reply@.headers =~= unsatisfiable_reply(share.size).headers);
            return reply;
        },
    };
    let (start, end): Bounds = match range {
        Some(bounds) => bounds,
        None => (0, share.size),
    };
    let status: u16 = if range.is_some() {
        206
    } else {
        200
    };
    let headers: Vec<(Header, String)> = write_headers(share, range);
    if head || start == end {
        return Reply { status, headers, payload: Payload::Empty, order: None };
    }
    let req: u32 = next_req_id(ids);
    let (sink, chunks): (Sender<Bytes>, Receiver<Bytes>) = body_channel(MAX_WINDOW as usize);
    let open: Cmd = Cmd::Open { req, file: id.to_owned(), start, end, sink };
    Reply {
        status,
        headers,
        payload: Payload::Stream {
            conn: share.conn,
            file: id.to_owned(),
            start,
            end,
            chunks,
            relay: Relay::new(req),
        },
        order: Some(Order { conn: share.conn, open }),
    }
}

/// What is answered in the end, once it is known whether the reply's order was
/// delivered: a tab that cannot be told is gone. A reply without an order counts
/// as delivered.
pub open spec fn delivered_reply(reply: ReplyView, sent: bool) -> ReplyView {
    if sent {
        reply
    } else {
        gone_reply()
    }
}

/// Settles what is answered in the end.
pub fn delivered(reply: Reply, sent: bool) -> (r: Reply)
    ensures
        r@ == delivered_reply(reply@, sent),
        sent ==> r == reply,
        !sent ==> r.order is None,
{
    if sent {
        reply
    } else {
        gone()
    }
}

/// Answers a request for the share `id`; `head` asks for the headers alone, and
/// `range` is the request's `Range` header.
pub fn download(
    app: &App,
    ids: &mut ReqIds,
    id: &str,
    head: bool,
    range: Option<&HeaderValue>,
) -> (reply: Reply)
    ensures
        reply@ == download_reply(
            app.shares@,
            id@,
            head,
            match range {
                Some(h) => Some(header_bytes(*h)),
                None => None,
            },
        ),
        reply.payload is Stream ==> reply.streams(old(ids).next) && final(ids).next == old(
            ids,
        ).next.wrapping_add(1),
        !(reply.payload is Stream) ==> reply.order is None && final(ids).next == old(ids).next,
{
    match app.shares.find(id) {
        Some(share) => {
            let asked: Result<Option<Bounds>, ()> = parse_range(range, share.size);
            proof {
                if let Some(h) = range {
                    law_range_is_in_the_file(
                        header_bytes(*h).map_values(|b: u8| b as char),
                        share.size,
                    );
                }
            }
            serve(&share, id, head, asked, ids)
        },
        None => gone(),
    }
}

/// The number of the `i`th download from the one with number `first` on.
pub open spec fn nth_req_id(first: u32, i: nat) -> u32
    decreases i,
{
    if i == 0 {
        first
    } else {
        req_id_after(nth_req_id(first, (i - 1) as nat))
    }
}

/// Counting on from `first`, from zero again after the largest number.
proof fn lemma_nth_req_id(first: u32, i: nat)
    ensures
        nth_req_id(first, i) == (first + i) % 0x100000000,
    decreases i,
{
    if i > 0 {
        lemma_nth_req_id(first, (i - 1) as nat);
    }
}

/// Law: no two of as many downloads as there are numbers get the same number.
pub proof fn law_req_ids_do_not_repeat(first: u32, i: nat, j: nat)
    requires
        i < j < i + 0x100000000,
    ensures
        nth_req_id(first, i) != nth_req_id(first, j),
{
    lemma_nth_req_id(first, i);
    lemma_nth_req_id(first, j);
}

/// Law: every link of a tab that is gone is answered as gone, and the links of
/// the other tabs are answered as before.
pub proof fn law_closed_tab_is_not_found(
    s: HostState,
    id: Seq<char>,
    head: bool,
    header: Option<Seq<u8>>,
)
    requires
        s.owns(),
    ensures
        s.ids.contains(id) ==> download_reply(s.shares_left(), id, head, header) == gone_reply(),
        !s.ids.contains(id) ==> download_reply(s.shares_left(), id, head, header)
            == download_reply(s.shares, id, head, header),
{
}

/// Law: the answer to a link that the server handed out serves the file that
/// the tab offered.
pub proof fn law_offered_files_are_served(
    s: HostState,
    name: Seq<char>,
    size: u64,
    mime: Seq<char>,
    t: HostState,
    id: Seq<char>,
)
    requires
        s.offered(name, size, mime, t, say(DownView::Ready { id })),
        size > 0,
    ensures
        download_reply(t.shares, id, false, None) == (ReplyView {
            status: 200,
            headers: seq![
                (Header::ContentType, sanitized_mime(mime)),
                (Header::ContentLength, decimal_digits(size as nat)),
                (Header::AcceptRanges, "bytes"@),
                (Header::CacheControl, "no-store"@),
                (Header::ContentDisposition, disposition_of(sanitized_name(name))),
            ],
            payload: PayloadView::Stream { conn: s.conn, file: id, start: 0, end: size },
        }),
{
    assert(say(DownView::Ready { id })[0] == OutView::Text(DownView::Ready { id }));
    assert forall|other: Seq<char>|
        say(DownView::Ready { id }) == #[trigger] say(DownView::Ready { id: other }) implies other
        == id by {
        assert(say(DownView::Ready { id: other })[0] == OutView::Text(
            DownView::Ready { id: other },
        ));
    }
}

/// Law: the final answer is not found just where the share is not registered, or
/// where bytes of it are to be streamed and its tab cannot be told.
pub proof fn law_not_found_is_exact(
    shares: Map<Seq<char>, ShareView>,
    id: Seq<char>,
    head: bool,
    header: Option<Seq<u8>>,
    sent: bool,
)
    requires
        sent || download_reply(shares, id, head, header).payload is Stream,
    ensures
        delivered_reply(download_reply(shares, id, head, header), sent).status == 404 <==> {
            ||| !shares.contains_key(id)
            ||| {
                &&& !sent
                &&& !head
                &&& asked_range(header, shares[id].size) matches Ok(range) && bounds_of(
                    range,
                    shares[id].size,
                ).0 < bounds_of(range, shares[id].size).1
            }
        },
        delivered_reply(download_reply(shares, id, head, header), sent).status == 404
            ==> delivered_reply(download_reply(shares, id, head, header), sent) == gone_reply(),
{
    law_length_is_what_is_streamed(shares, id, head, header);
}

/// Law: a request for the headers alone gets the status and the headers of the
/// full answer, and no bytes of the file.
pub proof fn law_head_matches_get(
    shares: Map<Seq<char>, ShareView>,
    id: Seq<char>,
    header: Option<Seq<u8>>,
)
    ensures
        download_reply(shares, id, true, header).status == download_reply(
            shares,
            id,
            false,
            header,
        ).status,
        download_reply(shares, id, true, header).headers == download_reply(
            shares,
            id,
            false,
            header,
        ).headers,
        !(download_reply(shares, id, true, header).payload is Stream),
{
}

/// Law: the length that an answer states is the number of bytes that it
/// streams, and these lie in the file.
pub proof fn law_length_is_what_is_streamed(
    shares: Map<Seq<char>, ShareView>,
    id: Seq<char>,
    head: bool,
    header: Option<Seq<u8>>,
)
    ensures
        download_reply(shares, id, head, header).payload matches PayloadView::Stream {
            conn,
            file,
            start,
            end,
        } ==> {
            &&& shares.contains_key(id)
            &&& conn == shares[id].conn
            &&& file == id
            &&& start < end <= shares[id].size
            &&& download_reply(shares, id, head, header).headers[1] == (
                Header::ContentLength,
                decimal_digits((end - start) as nat),
            )
        },
{
    if shares.contains_key(id) {
        if let Some(h) = header {
            law_range_is_in_the_file(h.map_values(|b: u8| b as char), shares[id].size);
        }
    }
}

/// Law: once its tab's connection takes in the command of an answer, the
/// download is on its way through the bytes that the answer promises: it starts
/// where they start, ends where they end, has handed on nothing yet, and what it
/// hands on comes out in the answer's body.
pub proof fn law_stream_begins_as_promised(
    s: HostState,
    reply: Reply,
    req: u32,
    id: Seq<char>,
    head: bool,
    header: Option<Seq<u8>>,
    data: Seq<u8>,
    now: u64,
)
    requires
        reply@ == download_reply(s.shares, id, head, header),
        reply.streams(req),
        s.reqs.len() < MAX_REQS_PER_CONN,
        data.len() == s.shares[id].size,
    ensures
        match (reply.payload, reply.order) {
            (Payload::Stream { chunks, relay, .. }, Some(order)) => {
                let (start, end) = bounds_of(
                    asked_range(header, s.shares[id].size)->Ok_0,
                    s.shares[id].size,
                );
                let (t, out) = s.commanded(order.open, now);
                &&& order.conn == s.shares[id].conn
                &&& delivering(t, req, data, start, out)
                &&& t.reqs[req].file@ == id
                &&& t.reqs[req].end == end
                &&& feeds(t.reqs[req].sink, chunks)
                &&& room(t.reqs[req].sink) == MAX_WINDOW
                &&& handed(t.reqs[req].sink).len() == 0
                &&& relay.req == req
                &&& !relay.starved
                &&& reply@.headers[1] == (
                    Header::ContentLength,
                    decimal_digits(data.subrange(start as int, end as int).len()),
                )
            },
            _ => false,
        },
{
    law_length_is_what_is_streamed(s.shares, id, head, header);
    if let Some(order) = reply.order {
        if let Cmd::Open { req: r, file, start, end, sink } = order.open {
            law_download_begins(s, r, file, start, end, sink, now, data);
        }
    }
}

/// A written number is fit for a header.
proof fn lemma_decimal_is_header_safe(n: nat)
    ensures
        header_safe(decimal_digits(n)),
{
    lemma_decimal_digits(n);
    assert forall|i: int| 0 <= i < decimal_digits(n).len() implies 32 <= (
    #[trigger] decimal_digits(n)[i]) as u32 <= 126 by {
        assert(digit_char(decimal_digits(n)[i]));
    }
}

/// Two texts that are fit for a header make one.
proof fn lemma_header_safe_join(a: Seq<char>, b: Seq<char>)
    requires
        header_safe(a),
        header_safe(b),
    ensures
        header_safe(a + b),
{
    assert forall|i: int| 0 <= i < (a + b).len() implies 32 <= (#[trigger] (a + b)[i]) as u32
        <= 126 by {
        if i < a.len() {
            assert((a + b)[i] == a[i]);
        } else {
            assert((a + b)[i] == b[i - a.len()]);
        }
    }
}

/// A bare MIME type is fit for a header.
proof fn lemma_mime_is_header_safe(t: Seq<char>)
    requires
        bare_mime(t),
    ensures
        header_safe(t),
{
    let k = choose|k: int| bare_mime_at(t, k);
    assert forall|i: int| 0 <= i < t.len() implies 32 <= (#[trigger] t[i]) as u32 <= 126 by {
        if i < k {
            assert(token_char(t.take(k)[i]));
        } else if i > k {
            assert(token_char(t.skip(k + 1)[i - k - 1]));
        }
    }
}

/// Law: every header of every answer is fit to be sent, whatever the tabs have
/// offered and whatever is asked for.
pub proof fn law_headers_are_fit_to_send(
    shares: Map<Seq<char>, ShareView>,
    id: Seq<char>,
    head: bool,
    header: Option<Seq<u8>>,
    i: int,
)
    requires
        registry_wf(shares),
        0 <= i < download_reply(shares, id, head, header).headers.len(),
    ensures
        header_safe(download_reply(shares, id, head, header).headers[i].1),
{
    reveal_strlit("bytes */");
    reveal_strlit("bytes");
    reveal_strlit("no-store");
    reveal_strlit("bytes ");
    reveal_strlit("-");
    reveal_strlit("/");
    let share = shares[id];
    lemma_decimal_is_header_safe(share.size as nat);
    match asked_range(header, share.size) {
        Ok(range) => {
            let (start, end) = bounds_of(range, share.size);
            lemma_mime_is_header_safe(share.mime);
            law_disposition_is_header_safe(share.name);
            lemma_decimal_is_header_safe((end - start) as nat);
            lemma_decimal_is_header_safe(start as nat);
            lemma_decimal_is_header_safe((end - 1) as nat);
            let a = "bytes "@ + decimal_digits(start as nat);
            let b = a + "-"@;
            let c = b + decimal_digits((end - 1) as nat);
            let d = c + "/"@;
            lemma_header_safe_join("bytes "@, decimal_digits(start as nat));
            lemma_header_safe_join(a, "-"@);
            lemma_header_safe_join(b, decimal_digits((end - 1) as nat));
            lemma_header_safe_join(c, "/"@);
            lemma_header_safe_join(d, decimal_digits(share.size as nat));
        },
        Err(()) => {
            lemma_header_safe_join("bytes */"@, decimal_digits(share.size as nat));
        },
    }
}

/// Law: the range that a request asks for settles its answer. A range that can
/// be served is answered by status 206 with just those bytes, whatever they are;
/// without a range it is status 200 with all bytes of the file; a range that
/// cannot be served is refused with the size of the file. Every answer with a
/// file states its type, its name, its length, that ranges are served, and that
/// it is not to be stored.
pub proof fn law_range_settles_the_answer(
    shares: Map<Seq<char>, ShareView>,
    id: Seq<char>,
    head: bool,
    header: Option<Seq<u8>>,
)
    requires
        shares.contains_key(id),
    ensures
        ({
            let share = shares[id];
            let reply = download_reply(shares, id, head, header);
            let range = asked_range(header, share.size);
            let (start, end) = if range is Ok && range->Ok_0 is Some {
                range->Ok_0->0
            } else {
                (0u64, share.size)
            };
            &&& reply.status == 206 <==> range is Ok && range->Ok_0 is Some
            &&& reply.status == 200 <==> range is Ok && range->Ok_0 is None
            &&& reply.status == 416 <==> range is Err
            &&& range is Err ==> {
                &&& reply.headers == seq![
                    (Header::ContentRange, "bytes */"@ + decimal_digits(share.size as nat)),
                ]
                &&& reply.payload == PayloadView::Empty
            }
            &&& range is Ok ==> {
                &&& start <= end <= share.size
                &&& reply.headers.len() == if reply.status == 206 {
                    6nat
                } else {
                    5nat
                }
                &&& reply.headers[0] == (Header::ContentType, share.mime)
                &&& reply.headers[1] == (
                    Header::ContentLength,
                    decimal_digits((end - start) as nat),
                )
                &&& reply.headers[2] == (Header::AcceptRanges, "bytes"@)
                &&& reply.headers[3] == (Header::CacheControl, "no-store"@)
                &&& reply.headers[4] == (Header::ContentDisposition, disposition_of(share.name))
                &&& reply.status == 206 ==> reply.headers[5] == (
                    Header::ContentRange,
                    "bytes "@ + decimal_digits(start as nat) + "-"@ + decimal_digits(
                        (end - 1) as nat,
                    ) + "/"@ + decimal_digits(share.size as nat),
                )
                &&& reply.payload == if head || start == end {
                    PayloadView::Empty
                } else {
                    PayloadView::Stream { conn: share.conn, file: id, start, end }
                }
            }
        }),
{
    if let Some(h) = header {
        law_range_is_in_the_file(h.map_values(|b: u8| b as char), shares[id].size);
    }
}

/// Law: an answer with status 200 serves the whole file: the length that it
/// states is the size of the file, and the bytes that it streams are all of them.
pub proof fn law_success_is_the_whole_file(
    shares: Map<Seq<char>, ShareView>,
    id: Seq<char>,
    head: bool,
    header: Option<Seq<u8>>,
)
    requires
        download_reply(shares, id, head, header).status == 200,
    ensures
        shares.contains_key(id),
        download_reply(shares, id, head, header).headers[1] == (
            Header::ContentLength,
            decimal_digits(shares[id].size as nat),
        ),
        download_reply(shares, id, head, header).payload matches PayloadView::Stream {
            start,
            end,
            ..
        } ==> start == 0 && end == shares[id].size,
        !head && shares[id].size > 0 ==> download_reply(shares, id, head, header).payload is Stream,
{
}

/// A visible ASCII character, a space or a tab is one byte.
proof fn lemma_ascii_byte(c: char)
    requires
        ' ' <= c <= '~' || c == '\t',
    ensures
        text_byte(c as u8),
        (c as u8) as char == c,
{
}

/// The two ways to say what is visible.
proof fn lemma_visible(c: char)
    ensures
        32 <= c as u32 <= 126 <==> ' ' <= c <= '~',
{
}

/// The bytes of a header with this text.
pub open spec fn header_of(text: Seq<char>) -> Seq<u8> {
    text.map_values(|c: char| c as u8)
}

/// Law: a request's `Range` header is read by its text, where it is visible
/// ASCII, spaces and tabs; a request without one asks for no range, and so does one whose header
/// holds other bytes.
pub proof fn law_headers_are_read_by_their_text(text: Seq<char>, h: Seq<u8>, size: u64)
    requires
        forall|i: int| 0 <= i < text.len() ==> ' ' <= #[trigger] text[i] <= '~' || text[i] == '\t',
    ensures
        asked_range(Some(header_of(text)), size) == range_of(text, size),
        asked_range(None, size) == Ok::<Option<Bounds>, ()>(None),
        (exists|i: int| 0 <= i < h.len() && (#[trigger] h[i] > 126 || h[i] < 32 && h[i] != 9))
            ==> asked_range(Some(h), size) == Ok::<Option<Bounds>, ()>(None),
{
    let bytes = header_of(text);
    assert forall|i: int| 0 <= i < bytes.len() implies text_byte(#[trigger] bytes[i]) && bytes[i]
        as char == text[i] by {
        lemma_ascii_byte(text[i]);
    }
    assert(bytes.map_values(|b: u8| b as char) =~= text);
}

/// Law: a request for the bytes from `n` to `m` of a registered file, with at
/// least one of them in the file, is answered by status 206 and just these
/// bytes, as far as the file goes: also where they begin with the first byte of
/// the file, or end with the last.
pub proof fn law_range_requests_are_honoured(
    shares: Map<Seq<char>, ShareView>,
    id: Seq<char>,
    n: u64,
    m: u64,
)
    requires
        shares.contains_key(id),
        n <= m,
        n < shares[id].size,
    ensures
        ({
            let size = shares[id].size;
            let end: u64 = if m < size {
                (m + 1) as u64
            } else {
                size
            };
            let reply = download_reply(
                shares,
                id,
                false,
                Some(
                    header_of(range_text(decimal_digits(n as nat), decimal_digits(m as nat))),
                ),
            );
            &&& reply.status == 206
            &&& reply.payload == PayloadView::Stream {
                conn: shares[id].conn,
                file: id,
                start: n,
                end,
            }
            &&& reply.headers[1] == (Header::ContentLength, decimal_digits((end - n) as nat))
            &&& reply.headers[5] == (
                Header::ContentRange,
                "bytes "@ + decimal_digits(n as nat) + "-"@ + decimal_digits((end - 1) as nat)
                    + "/"@ + decimal_digits(size as nat),
            )
        }),
{
    let a = decimal_digits(n as nat);
    let b = decimal_digits(m as nat);
    reveal_strlit("bytes=");
    reveal_strlit("-");
    lemma_decimal_is_header_safe(n as nat);
    lemma_decimal_is_header_safe(m as nat);
    lemma_header_safe_join("bytes="@, a);
    lemma_header_safe_join("bytes="@ + a, "-"@);
    lemma_header_safe_join("bytes="@ + a + "-"@, b);
    assert forall|i: int| 0 <= i < range_text(a, b).len() implies ' ' <= #[trigger] range_text(
        a,
        b,
    )[i] <= '~' by {
        lemma_visible(range_text(a, b)[i]);
    }
    law_headers_are_read_by_their_text(range_text(a, b), Seq::empty(), shares[id].size);
    law_ranges_mean_what_they_say(n, m, shares[id].size);
    law_range_settles_the_answer(shares, id, false, Some(header_of(range_text(a, b))));
}

/// What becomes of a relay when the channel is asked for a chunk.
pub open spec fn relay_after(relay: Relay, polled: Polled) -> Relay {
    Relay {
        req: relay.req,
        starved: match polled {
            Polled::Chunk => false,
            Polled::End => relay.starved,
            Polled::Waiting => true,
        },
    }
}

/// What a relay then tells the actor.
pub open spec fn relay_tells(relay: Relay, polled: Polled) -> Option<Cmd> {
    match polled {
        Polled::Chunk => Some(Cmd::Credit(relay.req, relay.starved)),
        _ => None,
    }
}

/// What a relay tells the actor over some polls.
pub open spec fn relay_run(relay: Relay, polls: Seq<Polled>) -> Seq<Cmd>
    decreases polls.len(),
{
    if polls.len() == 0 {
        Seq::empty()
    } else {
        let rest = relay_run(relay_after(relay, polls[0]), polls.drop_first());
        match relay_tells(relay, polls[0]) {
            Some(cmd) => seq![cmd] + rest,
            None => rest,
        }
    }
}

/// How many chunks came out of the channel over some polls.
pub open spec fn chunks_in(polls: Seq<Polled>) -> nat
    decreases polls.len(),
{
    if polls.len() == 0 {
        0
    } else {
        chunks_in(polls.drop_first()) + if polls[0] == Polled::Chunk {
            1nat
        } else {
            0nat
        }
    }
}

/// Law: over any polls, each chunk that leaves the channel brings one credit for
/// the download, and nothing else does.
pub proof fn law_every_chunk_brings_one_credit(relay: Relay, polls: Seq<Polled>, i: int)
    ensures
        relay_run(relay, polls).len() == chunks_in(polls),
        0 <= i < relay_run(relay, polls).len() ==> (relay_run(relay, polls)[i] matches Cmd::Credit(
            req,
            _,
        ) && req == relay.req),
    decreases polls.len(),
{
    if polls.len() > 0 {
        let next = relay_after(relay, polls[0]);
        law_every_chunk_brings_one_credit(next, polls.drop_first(), i);
        law_every_chunk_brings_one_credit(next, polls.drop_first(), i - 1);
    }
}

/// Law: a credit says that the read was starved just where the chunk had to be
/// waited for since the one before, however often it was asked for meanwhile.
pub proof fn law_starved_reads_are_reported_once(relay: Relay, waits: nat)
    requires
        !relay.starved,
    ensures
        relay_run(relay, Seq::new(waits, |i: int| Polled::Waiting).push(Polled::Chunk)) == seq![
            Cmd::Credit(relay.req, waits > 0),
        ],
        relay_after(relay_after(relay, Polled::Waiting), Polled::Chunk) == relay,
{
    lemma_waits(relay, waits);
}

/// Some fruitless polls, and then a chunk.
proof fn lemma_waits(relay: Relay, waits: nat)
    ensures
        relay_run(relay, Seq::new(waits, |i: int| Polled::Waiting).push(Polled::Chunk)) == seq![
            Cmd::Credit(relay.req, relay.starved || waits > 0),
        ],
    decreases waits,
{
    let polls = Seq::new(waits, |i: int| Polled::Waiting).push(Polled::Chunk);
    if waits == 0 {
        assert(polls.drop_first() =~= Seq::empty());
        assert(relay_run(relay_after(relay, Polled::Chunk), polls.drop_first()) =~= Seq::empty());
        assert(polls[0] == Polled::Chunk);
        assert(relay_run(relay, polls) =~= seq![Cmd::Credit(relay.req, relay.starved)]);
    } else {
        let fewer = Seq::new((waits - 1) as nat, |i: int| Polled::Waiting).push(Polled::Chunk);
        assert(polls.drop_first() =~= fewer);
        assert(polls[0] == Polled::Waiting);
        lemma_waits(relay_after(relay, Polled::Waiting), (waits - 1) as nat);
    }
}

/// What a relay tells the actor once the body is dropped.
pub open spec fn relay_closes(relay: Relay) -> Cmd {
    Cmd::Close(relay.req)
}

/// Law: dropping a body ends its download, and no other.
pub proof fn law_dropped_bodies_end_their_download(
    s: HostState,
    relay: Relay,
    now: u64,
    other: u32,
)
    requires
        other != relay.req,
    ensures
        ({
            let (t, out) = s.commanded(relay_closes(relay), now);
            &&& !t.reqs.contains_key(relay.req)
            &&& t.reqs.contains_key(other) == s.reqs.contains_key(other)
            &&& s.reqs.contains_key(other) ==> t.reqs[other] == s.reqs[other]
        }),
{
}

} // verus!
