//! The bounded channel that carries a download's chunks from the actor of the
//! uploader's tab to the HTTP body.

use crate::frame::contents;
use bytes::Bytes;
use tokio::sync::mpsc::{Receiver, Sender};
use vstd::prelude::*;

verus! {

/// `tokio::sync::mpsc::Sender`, the sending half of a bounded channel.
#[verifier::external_type_specification]
#[verifier::external_body]
#[verifier::reject_recursive_types(T)]
pub struct ExSender<T>(tokio::sync::mpsc::Sender<T>);

/// `tokio::sync::mpsc::Receiver`, the receiving half of a bounded channel.
#[verifier::external_type_specification]
#[verifier::external_body]
#[verifier::reject_recursive_types(T)]
pub struct ExReceiver<T>(tokio::sync::mpsc::Receiver<T>);

/// One attempt to put a chunk into a channel, and how the channel was found.
pub struct Attempt {
    /// The chunk.
    pub data: Seq<u8>,
    /// How many chunks the channel held.
    pub held: nat,
    /// Whether the receiver was still there.
    pub open: bool,
    /// Whether the chunk went in.
    pub taken: bool,
}

/// The attempts to put a chunk into a channel that were made through this
/// handle, in order.
pub uninterp spec fn handed(sink: Sender<Bytes>) -> Seq<Attempt>;

/// The chunks that went in.
pub open spec fn passed(log: Seq<Attempt>) -> Seq<Seq<u8>>
    decreases log.len(),
{
    if log.len() == 0 {
        Seq::empty()
    } else if log.last().taken {
        passed(log.drop_last()).push(log.last().data)
    } else {
        passed(log.drop_last())
    }
}

/// How many chunks the channel behind this handle was made to hold.
pub uninterp spec fn room(sink: Sender<Bytes>) -> nat;

/// Whether what goes into a channel through the one handle comes out of the
/// other: whether they are the two halves of one channel.
pub uninterp spec fn feeds(sink: Sender<Bytes>, chunks: Receiver<Bytes>) -> bool;

/// `tokio::sync::mpsc::channel`: the two halves of a new channel for `buffer`
/// chunks, into which nothing was put yet. The call panics where `buffer` is
/// zero or more than an eighth of what `usize` can hold, which `requires` rules
/// out.
#[verifier::external_body]
pub(crate) fn body_channel(buffer: usize) -> (r: (Sender<Bytes>, Receiver<Bytes>))
    requires
        0 < buffer <= usize::MAX / 8,
    ensures
        handed(r.0) == Seq::<Attempt>::empty(),
        room(r.0) == buffer,
        feeds(r.0, r.1),
{
    tokio::sync::mpsc::channel(buffer)
}

/// `Sender::try_send`: makes one attempt to put `data` into the channel, behind
/// what went in before, and says whether it went in. It goes in just where the
/// receiver is still there and the channel holds fewer chunks than it was made
/// for; otherwise the channel is left as it was. Either way the handle stays one
/// of the same channel. How the channel is found rests on what the receiving
/// task has done so far, and is left unsaid.
#[verifier::external_body]
pub(crate) fn hand_on(sink: &mut Sender<Bytes>, data: Bytes) -> (sent: bool)
    ensures
        handed(*final(sink)).len() == handed(*old(sink)).len() + 1,
        handed(*final(sink)).drop_last() == handed(*old(sink)),
        handed(*final(sink)).last().data == contents(data),
        handed(*final(sink)).last().taken == sent,
        sent <==> handed(*final(sink)).last().open && handed(*final(sink)).last().held < room(
            *old(sink),
        ),
        room(*final(sink)) == room(*old(sink)),
        forall|chunks: Receiver<Bytes>|
            feeds(*final(sink), chunks) == feeds(*old(sink), chunks),
{
    sink.try_send(data).is_ok()
}

/// Whether two handles are of the same channel.
pub open spec fn same_channel(a: Sender<Bytes>, b: Sender<Bytes>) -> bool {
    &&& room(a) == room(b)
    &&& forall|chunks: Receiver<Bytes>| feeds(a, chunks) == feeds(b, chunks)
}

/// Whether `after` is `before` after one attempt to put `data` into its channel,
/// which went in just where the receiver was there and there was room.
pub open spec fn took(
    before: Sender<Bytes>,
    data: Seq<u8>,
    after: Sender<Bytes>,
    sent: bool,
) -> bool {
    &&& handed(after).len() == handed(before).len() + 1
    &&& handed(after).drop_last() == handed(before)
    &&& handed(after).last().data == data
    &&& handed(after).last().taken == sent
    &&& sent <==> handed(after).last().open && handed(after).last().held < room(before)
    &&& same_channel(after, before)
}

} // verus!
