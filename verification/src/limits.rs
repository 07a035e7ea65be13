//! The sizes, counts and times that bound a connection.

use crate::frame::HEADER;
use vstd::prelude::*;

verus! {

/// Bytes per pull. One pull, one WebSocket frame, one body chunk.
pub const CHUNK: u64 = 1048576;

/// Pulls in flight per download where the depth is fixed. Caps RAM per
/// transfer at `WINDOW * CHUNK`.
pub const WINDOW: u32 = 4;

/// The most pulls in flight that a download can grow to. Also the capacity of
/// the channel that carries its chunks.
pub const MAX_WINDOW: u32 = 4;

/// Largest inbound WebSocket frame: one chunk plus the 4-byte request header.
pub const MAX_FRAME: usize = 1048580;

/// Bytes that may wait to be written to one tab: a few frames more than can be
/// in flight.
pub const MAX_WRITE_BUFFER: usize = 6291480;

/// Shares one tab may register. Bounds a misbehaving client.
pub const MAX_SHARES_PER_CONN: usize = 64;

/// Concurrent downloads one uploader tab will serve at once: an anti-abuse cap
/// against many connections to one link that never drain their body.
pub const MAX_REQS_PER_CONN: usize = 32;

/// Nanoseconds between two pings.
pub const PING_EVERY: u64 = 25000000000;

/// Nanoseconds that sending one frame may take.
pub const SEND_TIMEOUT: u64 = 10000000000;

/// Nanoseconds without forward progress after which a download is presumed
/// abandoned and cancelled.
pub const REQ_IDLE_TIMEOUT: u64 = 120000000000;

/// Nanoseconds without inbound traffic after which a connection is presumed dead.
pub const CONN_IDLE_TIMEOUT: u64 = 90000000000;

/// Whether more than `timeout` has passed from `since` to `now`.
pub open spec fn overdue(since: u64, now: u64, timeout: u64) -> bool {
    now - since > timeout
}

/// Tests whether more than `timeout` has passed from `since` to `now`.
pub fn is_overdue(since: u64, now: u64, timeout: u64) -> (r: bool)
    ensures
        r == overdue(since, now, timeout),
{
    now > since && now - since > timeout
}

/// A download's fair share of `budget_chunks` among `active_downloads`.
pub open spec fn fair_share(budget_chunks: usize, active_downloads: usize) -> int {
    let active: int = if active_downloads == 0 {
        1
    } else {
        active_downloads as int
    };
    let share = budget_chunks as int / active;
    if share < 1 {
        1
    } else if share > MAX_WINDOW {
        MAX_WINDOW as int
    } else {
        share
    }
}

/// This request's fair share of the server's memory budget right now: the
/// budget divided evenly across every currently-active download, clamped
/// to at least 1 (every download gets to make *some* progress, nothing
/// is ever rejected for this) and at most `MAX_WINDOW` (no request grows
/// past what a single download could ever usefully hold anyway).
///
/// Computed afresh each time pulls are issued, so it tracks load in both
/// directions.
pub fn fair_share_window(budget_chunks: usize, active_downloads: usize) -> (window: u32)
    ensures
        window == fair_share(budget_chunks, active_downloads),
{
    let active: usize = if active_downloads == 0 {
        1
    } else {
        active_downloads
    };
    let share: usize = budget_chunks / active;
    if share < 1 {
        1
    } else if share > MAX_WINDOW as usize {
        MAX_WINDOW
    } else {
        share as u32
    }
}

/// Law: the shares of all active downloads together stay within the budget,
/// except that every download may hold one chunk.
pub proof fn law_shares_fit_the_budget(budget_chunks: usize, active_downloads: usize)
    requires
        active_downloads > 0,
    ensures
        1 <= fair_share(budget_chunks, active_downloads) <= MAX_WINDOW,
        fair_share(budget_chunks, active_downloads) > 1 ==> active_downloads * fair_share(
            budget_chunks,
            active_downloads,
        ) <= budget_chunks,
{
    let a = active_downloads as int;
    let b = budget_chunks as int;
    let f = fair_share(budget_chunks, active_downloads);
    if f > 1 {
        assert(a * f <= b) by (nonlinear_arith)
            requires
                a > 0,
                0 < f <= b / a,
        ;
    }
}

/// Law: a share is as large as the budget and the widest window allow: one chunk
/// more for each download would be more than the budget, or than a download can
/// have.
pub proof fn law_shares_use_the_budget(budget_chunks: usize, active_downloads: usize)
    ensures
        ({
            let active: int = if active_downloads == 0 {
                1
            } else {
                active_downloads as int
            };
            let share = fair_share(budget_chunks, active_downloads);
            &&& 1 <= share <= MAX_WINDOW
            &&& share > 1 ==> share * active <= budget_chunks
            &&& share < MAX_WINDOW ==> (share + 1) * active > budget_chunks
        }),
{
    let a = if active_downloads == 0 {
        1
    } else {
        active_downloads as int
    };
    let b = budget_chunks as int;
    let f = fair_share(budget_chunks, active_downloads);
    if f > 1 {
        assert(f * a <= b) by (nonlinear_arith)
            requires
                a > 0,
                0 < f <= b / a,
        ;
    }
    if f < MAX_WINDOW {
        assert((f + 1) * a > b) by (nonlinear_arith)
            requires
                a > 0,
                b >= 0,
                f >= b / a,
        ;
    }
}

/// Law: more downloads never mean a larger share, and a larger budget never a
/// smaller one.
pub proof fn law_shares_follow_the_load(
    budget_chunks: usize,
    more_chunks: usize,
    active_downloads: usize,
    more_downloads: usize,
)
    requires
        budget_chunks <= more_chunks,
        active_downloads <= more_downloads,
    ensures
        fair_share(budget_chunks, more_downloads) <= fair_share(more_chunks, active_downloads),
{
    let a = if active_downloads == 0 {
        1
    } else {
        active_downloads as int
    };
    let m = if more_downloads == 0 {
        1
    } else {
        more_downloads as int
    };
    let b = budget_chunks as int;
    let c = more_chunks as int;
    assert(b / m <= c / a) by (nonlinear_arith)
        requires
            0 < a <= m,
            0 <= b <= c,
    ;
}

/// Law: the limits fit together. A frame holds just a chunk and its header, the write
/// buffer holds two frames more than can be in flight, the fixed window is one
/// that a download can have, and a connection outlives three pings that go
/// unanswered.
pub proof fn law_limits_fit_together()
    ensures
        MAX_FRAME == CHUNK + HEADER,
        MAX_WRITE_BUFFER == MAX_FRAME * (MAX_WINDOW + 2),
        1 <= WINDOW <= MAX_WINDOW,
        3 * PING_EVERY < CONN_IDLE_TIMEOUT < REQ_IDLE_TIMEOUT,
        SEND_TIMEOUT < PING_EVERY,
{
}

} // verus!
