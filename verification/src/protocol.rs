//! The text messages between the server and a tab, and how the server's are
//! written.

use crate::text::{
    decimal, decimal_digits, law_decimal_is_plain, law_decimal_round_trip, u64_of,
};
use vstd::prelude::*;
use vstd::string::StringExecFns;

verus! {

/// A message from a tab to the server.
pub enum Up {
    /// Register a file this tab is willing to serve.
    Offer { name: String, size: u64, mime: String },
    /// The tab could not read the file (moved, permissions, eject).
    Failed { r: u32 },
}

/// A message from the server to a tab.
pub enum Down {
    /// An offer was registered under `id`.
    Ready { id: String },
    /// An offer was refused: the tab has as many shares as it may have, or every
    /// id is taken.
    Full,
    /// Send the bytes `s .. e` of share `file` in answer to request `r`.
    Pull { r: u32, file: String, s: u64, e: u64 },
    /// Request `r` is over; stop reading for it.
    Cancel { r: u32 },
}

/// What a `Down` says.
pub enum DownView {
    Ready { id: Seq<char> },
    Full,
    Pull { r: u32, file: Seq<char>, s: u64, e: u64 },
    Cancel { r: u32 },
}

impl View for Down {
    type V = DownView;

    open spec fn view(&self) -> DownView {
        match self {
            Down::Ready { id } => DownView::Ready { id: id@ },
            Down::Full => DownView::Full,
            Down::Pull { r, file, s, e } => DownView::Pull { r: *r, file: file@, s: *s, e: *e },
            Down::Cancel { r } => DownView::Cancel { r: *r },
        }
    }
}

impl DownView {
    /// The JSON text of the message.
    pub open spec fn json(self) -> Seq<char> {
        match self {
            DownView::Ready { id } => "{\"t\":\"ready\",\"id\":\""@ + id + "\"}"@,
            DownView::Full => "{\"t\":\"full\"}"@,
            DownView::Pull { r, file, s, e } => "{\"t\":\"pull\",\"r\":"@ + decimal_digits(r as nat)
                + ",\"f\":\""@ + file + "\",\"s\":"@ + decimal_digits(s as nat) + ",\"e\":"@
                + decimal_digits(e as nat) + "}"@,
            DownView::Cancel { r } => "{\"t\":\"cancel\",\"r\":"@ + decimal_digits(r as nat)
                + "}"@,
        }
    }
}

impl Down {
    /// Writes the message as JSON.
    pub fn text(&self) -> (text: String)
        ensures
            text@ == self@.json(),
    {
        match self {
            Down::Ready { id } => {
                "{\"t\":\"ready\",\"id\":\"".to_owned().concat(id.as_str()).concat("\"}")
            },
            Down::Full => "{\"t\":\"full\"}".to_owned(),
            Down::Pull { r, file, s, e } => {
                "{\"t\":\"pull\",\"r\":".to_owned().concat(decimal(*r as u64).as_str()).concat(
                    ",\"f\":\"",
                ).concat(file.as_str()).concat("\",\"s\":").concat(decimal(*s).as_str()).concat(
                    ",\"e\":",
                ).concat(decimal(*e).as_str()).concat("}")
            },
            Down::Cancel { r } => {
                "{\"t\":\"cancel\",\"r\":".to_owned().concat(decimal(*r as u64).as_str()).concat(
                    "}",
                )
            },
        }
    }
}

/// What the server sends to a tab.
pub enum Out {
    /// A text message.
    Text(Down),
    /// A keepalive ping.
    Ping,
}

/// What an `Out` says.
pub enum OutView {
    Text(DownView),
    Ping,
}

impl View for Out {
    type V = OutView;

    open spec fn view(&self) -> OutView {
        match self {
            Out::Text(d) => OutView::Text(d@),
            Out::Ping => OutView::Ping,
        }
    }
}

/// What a list of outgoing messages says.
pub open spec fn outs(v: Seq<Out>) -> Seq<OutView> {
    v.map_values(|o: Out| o@)
}

/// Whether `digits` write the number `n` plainly.
pub open spec fn writes(digits: Seq<char>, n: u64) -> bool {
    &&& u64_of(digits) == Some(n)
    &&& digits.len() == 1 || digits[0] != '0'
    &&& '0' <= digits[0] <= '9'
}

/// A number that is written, is written plainly.
proof fn lemma_writes(n: u64)
    ensures
        writes(decimal_digits(n as nat), n),
{
    law_decimal_round_trip(n);
    law_decimal_is_plain(n as nat);
}

/// Law: what a message says can be read off its text: the text is the JSON of an
/// object whose field `t` says which message it is, and whose other fields hold
/// its id, its numbers, and its share.
pub proof fn law_messages_say_what_they_hold(id: Seq<char>, r: u32, s: u64, e: u64)
    ensures
        (DownView::Ready { id }).json() == "{\"t\":\"ready\",\"id\":\""@ + id + "\"}"@,
        DownView::Full.json() == "{\"t\":\"full\"}"@,
        exists|n: Seq<char>| #[trigger]
            writes(n, r as u64) && (DownView::Cancel { r }).json() == "{\"t\":\"cancel\",\"r\":"@
                + n + "}"@,
        exists|n: Seq<char>, from: Seq<char>, to: Seq<char>|
            {
                &&& #[trigger] writes(n, r as u64)
                &&& #[trigger] writes(from, s)
                &&& #[trigger] writes(to, e)
                &&& (DownView::Pull { r, file: id, s, e }).json() == "{\"t\":\"pull\",\"r\":"@ + n
                    + ",\"f\":\""@ + id + "\",\"s\":"@ + from + ",\"e\":"@ + to + "}"@
            },
{
    lemma_writes(r as u64);
    lemma_writes(s);
    lemma_writes(e);
}

} // verus!
