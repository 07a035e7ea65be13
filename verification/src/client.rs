//! The `share` subcommand: a client that plays the browser tab's role for one
//! local file. It connects to a running server, offers the file, and answers
//! pulls straight off the disk. The link works while this process is running.

use crate::delivery::answer;
use crate::frame::{encode_frame, frame_bytes, law_frames_are_little_endian};
use crate::protocol::{Down, DownView, OutView};
use crate::text::{
    chars_of, same_text, slice_chars, starts_with, string_of, trim_back, trimmed_back, Trim,
};
use vstd::prelude::*;
use vstd::string::StringExecFns;

verus! {

/// The server to which a file is offered where no other is given.
pub const DEFAULT_SERVER: &'static str = "p2p.autos:8080";

/// A server to which a file is offered.
pub struct Server {
    /// Its host, and its port where one is given.
    pub host: String,
    /// Whether the connection is encrypted.
    pub secure: bool,
}

/// What a `Server` says.
pub struct ServerView {
    pub host: Seq<char>,
    pub secure: bool,
}

impl View for Server {
    type V = ServerView;

    open spec fn view(&self) -> ServerView {
        ServerView { host: self.host@, secure: self.secure }
    }
}

impl ServerView {
    /// Where the socket is.
    pub open spec fn ws_url(self) -> Seq<char> {
        (if self.secure {
            "wss"@
        } else {
            "ws"@
        }) + "://"@ + self.host + "/ws"@
    }

    /// The link to the share `id`.
    pub open spec fn link(self, id: Seq<char>) -> Seq<char> {
        (if self.secure {
            "https"@
        } else {
            "http"@
        }) + "://"@ + self.host + "/d/"@ + id
    }
}

impl Server {
    /// The scheme of the server's socket.
    pub fn ws_scheme(&self) -> (s: &'static str)
        ensures
            s@ == if self.secure {
                "wss"@
            } else {
                "ws"@
            },
    {
        if self.secure {
            "wss"
        } else {
            "ws"
        }
    }

    /// The scheme of the server's links.
    pub fn link_scheme(&self) -> (s: &'static str)
        ensures
            s@ == if self.secure {
                "https"@
            } else {
                "http"@
            },
    {
        if self.secure {
            "https"
        } else {
            "http"
        }
    }

    /// Where the socket is.
    pub fn ws_url(&self) -> (url: String)
        ensures
            url@ == self@.ws_url(),
    {
        self.ws_scheme().to_owned().concat("://").concat(self.host.as_str()).concat("/ws")
    }

    /// The link to the share `id`.
    pub fn link(&self, id: &str) -> (url: String)
        ensures
            url@ == self@.link(id@),
    {
        self.link_scheme().to_owned().concat("://").concat(self.host.as_str()).concat("/d/").concat(
            id,
        )
    }
}

/// What is left of `raw` without the scheme `prefix`, and without slashes at its
/// end.
pub open spec fn server_behind(raw: Seq<char>, prefix: Seq<char>, secure: bool) -> ServerView {
    ServerView {
        host: trimmed_back(raw.skip(prefix.len() as int), Trim::Only('/')),
        secure,
    }
}

/// The server that `raw` names, with a scheme or without.
pub open spec fn server_of(raw: Seq<char>) -> ServerView {
    if "wss://"@.is_prefix_of(raw) {
        server_behind(raw, "wss://"@, true)
    } else if "https://"@.is_prefix_of(raw) {
        server_behind(raw, "https://"@, true)
    } else if "ws://"@.is_prefix_of(raw) {
        server_behind(raw, "ws://"@, false)
    } else if "http://"@.is_prefix_of(raw) {
        server_behind(raw, "http://"@, false)
    } else {
        server_behind(raw, Seq::empty(), false)
    }
}

/// Reads what is left of `raw` without the scheme `prefix`.
fn read_behind(raw: &Vec<char>, prefix: &str, secure: bool) -> (s: Server)
    requires
        prefix@.is_prefix_of(raw@),
    ensures
        s@ == server_behind(raw@, prefix@, secure),
{
    let n: usize = chars_of(prefix).len();
    let rest: Vec<char> = slice_chars(raw, n, raw.len());
    assert(rest@ =~= raw@.skip(prefix@.len() as int));
    Server { host: string_of(&trim_back(&rest, Trim::Only('/'))), secure }
}

/// Reads the name of a server.
pub fn parse_server(raw: &str) -> (server: Server)
    ensures
        server@ == server_of(raw@),
{
    let v: Vec<char> = chars_of(raw);
    if starts_with(&v, "wss://") {
        read_behind(&v, "wss://", true)
    } else if starts_with(&v, "https://") {
        read_behind(&v, "https://", true)
    } else if starts_with(&v, "ws://") {
        read_behind(&v, "ws://", false)
    } else if starts_with(&v, "http://") {
        read_behind(&v, "http://", false)
    } else {
        proof {
            reveal_strlit("");
            assert(""@ =~= Seq::empty());
            assert(v@.subrange(0, 0) =~= Seq::empty());
        }
        read_behind(&v, "", false)
    }
}

/// Why the arguments of the subcommand cannot be used.
pub enum ArgsError {
    /// `--server` stands last, without a value.
    NoServer,
    /// An argument is neither the file nor an option.
    Unknown(String),
    /// There is no file.
    NoFile,
}

/// What an `ArgsError` says.
pub enum ArgsErrorView {
    NoServer,
    Unknown(Seq<char>),
    NoFile,
}

impl View for ArgsError {
    type V = ArgsErrorView;

    open spec fn view(&self) -> ArgsErrorView {
        match self {
            ArgsError::NoServer => ArgsErrorView::NoServer,
            ArgsError::Unknown(arg) => ArgsErrorView::Unknown(arg@),
            ArgsError::NoFile => ArgsErrorView::NoFile,
        }
    }
}

impl ArgsErrorView {
    /// What to tell the user.
    pub open spec fn message(self) -> Seq<char> {
        match self {
            ArgsErrorView::NoServer => "--server needs a value"@,
            ArgsErrorView::Unknown(arg) => "unknown argument: "@ + arg
                + " (expected a file path and/or --server)"@,
            ArgsErrorView::NoFile => "usage: p2p-autos share <file> [--server host[:port]]"@,
        }
    }
}

/// Law: the message about an argument that is not understood names it.
pub proof fn law_unknown_arguments_are_named(arg: Seq<char>)
    ensures
        (ArgsErrorView::Unknown(arg)).message().subrange(18, 18 + arg.len() as int) == arg,
{
    reveal_strlit("unknown argument: ");
    assert((ArgsErrorView::Unknown(arg)).message().subrange(18, 18 + arg.len() as int) =~= arg);
}

impl ArgsError {
    /// What to tell the user.
    pub fn message(&self) -> (m: String)
        ensures
            m@ == self@.message(),
    {
        match self {
            ArgsError::NoServer => "--server needs a value".to_owned(),
            ArgsError::Unknown(arg) => "unknown argument: ".to_owned().concat(arg.as_str()).concat(
                " (expected a file path and/or --server)",
            ),
            ArgsError::NoFile =>
                "usage: p2p-autos share <file> [--server host[:port]]".to_owned(),
        }
    }
}

/// What a list of arguments says.
pub open spec fn words(args: Seq<String>) -> Seq<Seq<char>> {
    args.map_values(|arg: String| arg@)
}

/// The file and the server that `args` name, after `path` and `server` were
/// named before.
pub open spec fn args_from(
    args: Seq<Seq<char>>,
    path: Option<Seq<char>>,
    server: Seq<char>,
) -> Result<(Seq<char>, Seq<char>), ArgsErrorView>
    decreases args.len(),
{
    if args.len() == 0 {
        match path {
            Some(path) => Ok((path, server)),
            None => Err(ArgsErrorView::NoFile),
        }
    } else if args[0] == "--server"@ {
        if args.len() == 1 {
            Err(ArgsErrorView::NoServer)
        } else {
            args_from(args.skip(2), path, args[1])
        }
    } else {
        match path {
            None => args_from(args.skip(1), Some(args[0]), server),
            Some(_) => Err(ArgsErrorView::Unknown(args[0])),
        }
    }
}

/// The file and the server that the arguments name.
pub open spec fn args_of(args: Seq<Seq<char>>) -> Result<(Seq<char>, ServerView), ArgsErrorView> {
    match args_from(args, None, DEFAULT_SERVER@) {
        Ok((path, server)) => Ok((path, server_of(server))),
        Err(e) => Err(e),
    }
}

/// Reads the arguments of the subcommand: the file to share, and the server to
/// which it is offered.
pub fn parse_args(args: &Vec<String>) -> (r: Result<(String, Server), ArgsError>)
    ensures
        match (r, args_of(words(args@))) {
            (Ok((path, server)), Ok((p, s))) => path@ == p && server@ == s,
            (Err(e), Err(f)) => e@ == f,
            _ => false,
        },
{
    let mut path: Option<String> = None;
    let mut server: String = DEFAULT_SERVER.to_owned();
    let mut i: usize = 0;
    let ghost all = words(args@);
    assert(all.skip(0) =~= all);
    while i < args.len()
        invariant
            all == words(args@),
            i <= args@.len(),
            args_from(all, None, DEFAULT_SERVER@) == args_from(
                all.skip(i as int),
                match path {
                    Some(p) => Some(p@),
                    None => None,
                },
                server@,
            ),
        decreases args@.len() - i,
    {
        let ghost rest = all.skip(i as int);
        if same_text(args[i].as_str(), "--server") {
            if i + 1 >= args.len() {
                return Err(ArgsError::NoServer);
            }
            server = args[i + 1].clone();
            assert(rest.skip(2) =~= all.skip(i + 2));
            i = i + 2;
        } else {
            if path.is_some() {
                return Err(ArgsError::Unknown(args[i].clone()));
            }
            path = Some(args[i].clone());
            assert(rest.skip(1) =~= all.skip(i + 1));
            i = i + 1;
        }
    }
    match path {
        Some(path) => Ok((path, parse_server(server.as_str()))),
        None => Err(ArgsError::NoFile),
    }
}

/// The value of a field of a message.
pub enum Field {
    Text(String),
    Number(u64),
}

/// What a `Field` says.
pub enum FieldView {
    Text(Seq<char>),
    Number(u64),
}

impl View for Field {
    type V = FieldView;

    open spec fn view(&self) -> FieldView {
        match self {
            Field::Text(text) => FieldView::Text(text@),
            Field::Number(n) => FieldView::Number(*n),
        }
    }
}

/// What a list of fields says.
pub open spec fn field_views(fields: Seq<(String, Field)>) -> Seq<(Seq<char>, FieldView)> {
    fields.map_values(|field: (String, Field)| (field.0@, field.1@))
}

/// The JSON text of an object with these fields, put in one after the other.
pub uninterp spec fn json_object(fields: Seq<(Seq<char>, FieldView)>) -> Seq<char>;

/// `serde_json::Value::to_string` of an object into which the fields were put
/// one after the other. The text is settled by the fields.
#[verifier::external_body]
fn write_json(fields: Vec<(String, Field)>) -> (text: String)
    ensures
        text@ == json_object(field_views(fields@)),
{
    let mut object = serde_json::Map::new();
    for (key, field) in fields {
        let value = match field {
            Field::Text(text) => serde_json::Value::from(text),
            Field::Number(n) => serde_json::Value::from(n),
        };
        object.insert(key, value);
    }
    serde_json::Value::Object(object).to_string()
}

/// The fields of an offer. No MIME type is given: the server has a default.
pub open spec fn offer_fields(name: Seq<char>, size: u64) -> Seq<(Seq<char>, FieldView)> {
    seq![
        ("t"@, FieldView::Text("offer"@)),
        ("name"@, FieldView::Text(name)),
        ("size"@, FieldView::Number(size)),
        ("mime"@, FieldView::Text(""@)),
    ]
}

/// The fields of the message that a file could not be read.
pub open spec fn failure_fields(r: u32) -> Seq<(Seq<char>, FieldView)> {
    seq![("t"@, FieldView::Text("err"@)), ("r"@, FieldView::Number(r as u64))]
}

/// The name under which a file is offered.
pub open spec fn offer_name(name: Option<Seq<char>>) -> Seq<char> {
    match name {
        Some(name) => name,
        None => "download"@,
    }
}

/// Writes an offer of a file of `size` bytes, under its name where it has one.
pub fn offer_text(name: Option<String>, size: u64) -> (text: String)
    ensures
        text@ == json_object(
            offer_fields(
                offer_name(
                    match name {
                        Some(name) => Some(name@),
                        None => None,
                    },
                ),
                size,
            ),
        ),
{
    let name: String = match name {
        Some(name) => name,
        None => "download".to_owned(),
    };
    let ghost fields_view = offer_fields(name@, size);
    let mut fields: Vec<(String, Field)> = Vec::new();
    fields.push(("t".to_owned(), Field::Text("offer".to_owned())));
    fields.push(("name".to_owned(), Field::Text(name)));
    fields.push(("size".to_owned(), Field::Number(size)));
    fields.push(("mime".to_owned(), Field::Text("".to_owned())));
    assert(field_views(fields@) =~= fields_view);
    write_json(fields)
}

/// What the client sends back.
pub enum Answer {
    /// A binary frame.
    Binary(Vec<u8>),
    /// A text message.
    Text(String),
}

/// What an `Answer` says.
pub enum AnswerView {
    Binary(Seq<u8>),
    Text(Seq<char>),
}

impl View for Answer {
    type V = AnswerView;

    open spec fn view(&self) -> AnswerView {
        match self {
            Answer::Binary(f) => AnswerView::Binary(f@),
            Answer::Text(text) => AnswerView::Text(text@),
        }
    }
}

/// The answer to pull `r`, where these bytes were read, or none could be.
pub open spec fn pull_answer(r: u32, read: Option<Seq<u8>>) -> AnswerView {
    match read {
        Some(data) => AnswerView::Binary(frame_bytes(r, data)),
        None => AnswerView::Text(json_object(failure_fields(r))),
    }
}

/// Answers pull `r` with the bytes that were read, or says that they could not
/// be read.
pub fn answer_pull(r: u32, read: Option<Vec<u8>>) -> (a: Answer)
    ensures
        match (read, a) {
            (Some(data), Answer::Binary(f)) => f@ == frame_bytes(r, data@),
            (None, Answer::Text(text)) => text@ == json_object(failure_fields(r)),
            _ => false,
        },
        a@ == pull_answer(
            r,
            match read {
                Some(data) => Some(data@),
                None => None,
            },
        ),
{
    match read {
        Some(data) => Answer::Binary(encode_frame(r, &data)),
        None => {
            let mut fields: Vec<(String, Field)> = Vec::new();
            fields.push(("t".to_owned(), Field::Text("err".to_owned())));
            fields.push(("r".to_owned(), Field::Number(r as u64)));
            assert(field_views(fields@) =~= failure_fields(r));
            Answer::Text(write_json(fields))
        },
    }
}

/// What the client does about a message.
pub enum Action {
    /// Print a line.
    Print(String),
    /// Print a line on the error output and stop.
    Stop(String),
    /// Read the bytes `start .. end` of the file and answer pull `r` with them.
    Read { r: u32, start: u64, end: u64 },
    /// Nothing: pulls are answered one at a time, so there is nothing to cancel.
    Skip,
}

/// What an `Action` says.
pub enum ActionView {
    Print(Seq<char>),
    Stop(Seq<char>),
    Read { r: u32, start: u64, end: u64 },
    Skip,
}

impl View for Action {
    type V = ActionView;

    open spec fn view(&self) -> ActionView {
        match self {
            Action::Print(line) => ActionView::Print(line@),
            Action::Stop(line) => ActionView::Stop(line@),
            Action::Read { r, start, end } => ActionView::Read { r: *r, start: *start, end: *end },
            Action::Skip => ActionView::Skip,
        }
    }
}

/// What a message from `server` makes the client do.
pub open spec fn action_of(server: ServerView, down: DownView) -> ActionView {
    match down {
        DownView::Ready { id } => ActionView::Print(server.link(id)),
        DownView::Full => ActionView::Stop("server rejected the offer: too many shares already"@),
        DownView::Pull { r, file, s, e } => ActionView::Read { r, start: s, end: e },
        DownView::Cancel { r } => ActionView::Skip,
    }
}

/// Decides what to do about a message from the server.
pub fn on_down(server: &Server, down: Down) -> (a: Action)
    ensures
        a@ == action_of(server@, down@),
{
    match down {
        Down::Ready { id } => Action::Print(server.link(id.as_str())),
        Down::Full => Action::Stop("server rejected the offer: too many shares already".to_owned()),
        Down::Pull { r, file: _, s, e } => Action::Read { r, start: s, end: e },
        Down::Cancel { .. } => Action::Skip,
    }
}

/// A text that differs from `p` at a position of `p` does not begin with it.
proof fn lemma_not_prefix(p: Seq<char>, s: Seq<char>, i: int)
    requires
        0 <= i < p.len(),
        i >= s.len() || s[i] != p[i],
    ensures
        !p.is_prefix_of(s),
{
    if p.is_prefix_of(s) {
        assert(p[i] == s.subrange(0, p.len() as int)[i]);
    }
}

/// A scheme before a host, and slashes behind it, are cut off.
proof fn lemma_server_behind(prefix: Seq<char>, host: Seq<char>, secure: bool)
    requires
        !host.contains('/'),
    ensures
        prefix.is_prefix_of(prefix + host),
        server_behind(prefix + host, prefix, secure) == (ServerView { host, secure }),
        prefix.is_prefix_of(prefix + host + "/"@),
        server_behind(prefix + host + "/"@, prefix, secure) == (ServerView { host, secure }),
{
    reveal_strlit("/");
    let n = prefix.len() as int;
    assert((prefix + host).subrange(0, n) =~= prefix);
    assert((prefix + host + "/"@).subrange(0, n) =~= prefix);
    assert((prefix + host).skip(n) =~= host);
    let slashed = (prefix + host + "/"@).skip(n);
    assert(slashed =~= host.push('/'));
    assert(slashed.drop_last() =~= host);
    assert(slashed.last() == '/');
    if host.len() > 0 {
        assert(host.contains(host.last()));
    }
    let slash = Trim::Only('/');
    assert(trimmed_back(host, slash) == host);
    assert(trimmed_back(slashed, slash) == trimmed_back(slashed.drop_last(), slash));
    assert(trimmed_back(slashed, slash) == host);
}

/// Law: the scheme settles whether the connection to a server is encrypted;
/// without one it is not. A slash behind the host makes no difference.
pub proof fn law_schemes_settle_encryption(host: Seq<char>)
    requires
        !host.contains('/'),
    ensures
        server_of(host) == (ServerView { host, secure: false }),
        server_of("ws://"@ + host) == (ServerView { host, secure: false }),
        server_of("http://"@ + host) == (ServerView { host, secure: false }),
        server_of("wss://"@ + host) == (ServerView { host, secure: true }),
        server_of("https://"@ + host) == (ServerView { host, secure: true }),
        server_of("https://"@ + host + "/"@) == (ServerView { host, secure: true }),
{
    reveal_strlit("ws://");
    reveal_strlit("http://");
    reveal_strlit("wss://");
    reveal_strlit("https://");
    let (ws, http, wss, https) = ("ws://"@, "http://"@, "wss://"@, "https://"@);
    assert(forall|i: int| 0 <= i < host.len() ==> host.contains(#[trigger] host[i]));
    lemma_not_prefix(ws, host, 3);
    lemma_not_prefix(wss, host, 4);
    lemma_not_prefix(http, host, 5);
    lemma_not_prefix(https, host, 6);
    lemma_not_prefix(wss, ws + host, 2);
    lemma_not_prefix(https, ws + host, 0);
    lemma_not_prefix(wss, http + host, 0);
    lemma_not_prefix(https, http + host, 4);
    lemma_not_prefix(ws, http + host, 0);
    lemma_not_prefix(wss, https + host, 0);
    lemma_not_prefix(wss, https + host + "/"@, 0);
    lemma_server_behind(Seq::empty(), host, false);
    lemma_server_behind(ws, host, false);
    lemma_server_behind(http, host, false);
    lemma_server_behind(wss, host, true);
    lemma_server_behind(https, host, true);
    assert(Seq::<char>::empty() + host =~= host);
}

/// Law: the option can stand before the file or after it.
pub proof fn law_options_come_in_any_order(file: Seq<char>, server: Seq<char>)
    requires
        file != "--server"@,
    ensures
        args_of(seq![file]) == Ok::<(Seq<char>, ServerView), ArgsErrorView>(
            (file, server_of(DEFAULT_SERVER@)),
        ),
        args_of(seq![file, "--server"@, server]) == Ok::<(Seq<char>, ServerView), ArgsErrorView>(
            (file, server_of(server)),
        ),
        args_of(seq!["--server"@, server, file]) == Ok::<(Seq<char>, ServerView), ArgsErrorView>(
            (file, server_of(server)),
        ),
{
    reveal_with_fuel(args_from, 4);
    let a = seq![file];
    let b = seq![file, "--server"@, server];
    let c = seq!["--server"@, server, file];
    assert(a.skip(1) =~= Seq::empty());
    assert(b.skip(1) =~= seq!["--server"@, server]);
    assert(b.skip(1).skip(2) =~= Seq::empty());
    assert(c.skip(2) =~= seq![file]);
    assert(c.skip(2).skip(1) =~= Seq::empty());
}

/// Law: the client is an honest tab: it reads what a pull asks for, and answers
/// with a frame of just these bytes, however many they are, under the number of
/// the pull. Where they cannot be read, it says so in a text.
pub proof fn law_client_answers_honestly(server: ServerView, down: DownView, data: Seq<u8>)
    requires
        down is Pull,
    ensures
        action_of(server, down) matches ActionView::Read { r, start, end } && pull_answer(
            r,
            Some(data.subrange(start as int, end as int)),
        ) == AnswerView::Binary(answer(OutView::Text(down), data)),
        action_of(server, down) matches ActionView::Read { r, start, end } && {
            &&& pull_answer(r, Some(data)) matches AnswerView::Binary(f) && {
                &&& f.len() == data.len() + 4
                &&& f[0] + 256 * f[1] + 65536 * f[2] + 16777216 * f[3] == r
                &&& f.skip(4) == data
            }
            &&& pull_answer(r, None) is Text
        },
{
    if let DownView::Pull { r, .. } = down {
        law_frames_are_little_endian(r, data, frame_bytes(r, data));
    }
}

/// The value of the field `key`.
pub open spec fn field(fields: Seq<(Seq<char>, FieldView)>, key: Seq<char>) -> Option<FieldView>
    decreases fields.len(),
{
    if fields.len() == 0 {
        None
    } else if fields.last().0 == key {
        Some(fields.last().1)
    } else {
        field(fields.drop_last(), key)
    }
}

/// Law: an offer says what the file is: its field `size` is the number of bytes
/// of the file, whatever that is, and its field `name` the file's name. It is
/// marked as an offer, gives no MIME type, and has no other field.
pub proof fn law_offers_state_the_file(name: Seq<char>, size: u64, key: Seq<char>)
    ensures
        field(offer_fields(name, size), "size"@) == Some(FieldView::Number(size)),
        field(offer_fields(name, size), "name"@) == Some(FieldView::Text(name)),
        field(offer_fields(name, size), "t"@) == Some(FieldView::Text("offer"@)),
        field(offer_fields(name, size), "mime"@) == Some(FieldView::Text(""@)),
        field(offer_fields(name, size), key) is Some ==> key == "size"@ || key == "name"@ || key
            == "t"@ || key == "mime"@,
        offer_fields(name, size).len() == 4,
        offer_name(Some(name)) == name,
        offer_name(None) == "download"@,
{
    reveal_strlit("size");
    reveal_strlit("name");
    reveal_strlit("t");
    reveal_strlit("mime");
    reveal_with_fuel(field, 5);
    let f = offer_fields(name, size);
    assert("t"@.len() == 1 && "size"@.len() == 4 && "name"@.len() == 4 && "mime"@.len() == 4);
    assert("size"@[0] == 's' && "name"@[0] == 'n' && "mime"@[0] == 'm');
    assert(f.drop_last().last() == f[2]);
    assert(f.drop_last().drop_last().last() == f[1]);
    assert(f.drop_last().drop_last().drop_last().last() == f[0]);
}

/// Law: the report of a failed read names the pull that failed.
pub proof fn law_failures_name_their_pull(r: u32)
    ensures
        field(failure_fields(r), "t"@) == Some(FieldView::Text("err"@)),
        field(failure_fields(r), "r"@) == Some(FieldView::Number(r as u64)),
        failure_fields(r).len() == 2,
{
    reveal_strlit("t");
    reveal_strlit("r");
    reveal_with_fuel(field, 3);
    let f = failure_fields(r);
    assert("t"@[0] == 't' && "r"@[0] == 'r');
    assert(f.drop_last().last() == f[0]);
}

/// Law: the client prints the link under which the server has registered the
/// file, at the server that it was offered to; it stops where the offer is
/// refused, reads what is pulled, and has nothing to do about a cancellation.
pub proof fn law_client_does_as_told(server: ServerView, id: Seq<char>, r: u32, s: u64, e: u64)
    ensures
        action_of(server, DownView::Ready { id }) == ActionView::Print(
            (if server.secure {
                "https://"@
            } else {
                "http://"@
            }) + server.host + "/d/"@ + id,
        ),
        action_of(server, DownView::Full) is Stop,
        action_of(server, DownView::Pull { r, file: id, s, e }) == (ActionView::Read {
            r,
            start: s,
            end: e,
        }),
        action_of(server, DownView::Cancel { r }) is Skip,
        server.ws_url() == (if server.secure {
            "wss://"@
        } else {
            "ws://"@
        }) + server.host + "/ws"@,
{
    reveal_strlit("https");
    reveal_strlit("http");
    reveal_strlit("wss");
    reveal_strlit("ws");
    reveal_strlit("://");
    reveal_strlit("https://");
    reveal_strlit("http://");
    reveal_strlit("wss://");
    reveal_strlit("ws://");
    assert("https"@ + "://"@ =~= "https://"@);
    assert("http"@ + "://"@ =~= "http://"@);
    assert("wss"@ + "://"@ =~= "wss://"@);
    assert("ws"@ + "://"@ =~= "ws://"@);
}

/// Arguments that can be used, and more behind them.
proof fn lemma_args_append(
    args: Seq<Seq<char>>,
    more: Seq<Seq<char>>,
    path: Option<Seq<char>>,
    server: Seq<char>,
)
    requires
        args_from(args, path, server) is Ok,
    ensures
        args_from(args + more, path, server) == args_from(
            more,
            Some((args_from(args, path, server)->Ok_0).0),
            (args_from(args, path, server)->Ok_0).1,
        ),
    decreases args.len(),
{
    let all = args + more;
    if args.len() == 0 {
        assert(all =~= more);
    } else if args[0] == "--server"@ {
        assert(all[0] == args[0] && all[1] == args[1]);
        assert(all.skip(2) =~= args.skip(2) + more);
        lemma_args_append(args.skip(2), more, path, args[1]);
    } else {
        assert(all[0] == args[0]);
        assert(all.skip(1) =~= args.skip(1) + more);
        lemma_args_append(args.skip(1), more, Some(args[0]), server);
    }
}

/// Law: behind arguments that can be used, another server outweighs the one
/// before and leaves the file; the option without a value, and a second file,
/// are refused. Without a file there is nothing to share.
pub proof fn law_later_arguments_count(args: Seq<Seq<char>>, x: Seq<char>)
    requires
        args_of(args) is Ok,
    ensures
        args_of(args + seq!["--server"@, x]) == Ok::<(Seq<char>, ServerView), ArgsErrorView>(
            ((args_of(args)->Ok_0).0, server_of(x)),
        ),
        args_of(args + seq!["--server"@]) == Err::<(Seq<char>, ServerView), ArgsErrorView>(
            ArgsErrorView::NoServer,
        ),
        x != "--server"@ ==> args_of(args + seq![x]) == Err::<
            (Seq<char>, ServerView),
            ArgsErrorView,
        >(ArgsErrorView::Unknown(x)),
        args_of(Seq::empty()) == Err::<(Seq<char>, ServerView), ArgsErrorView>(
            ArgsErrorView::NoFile,
        ),
        args_of(seq!["--server"@, x]) == Err::<(Seq<char>, ServerView), ArgsErrorView>(
            ArgsErrorView::NoFile,
        ),
        args_of(seq!["--server"@]) == Err::<(Seq<char>, ServerView), ArgsErrorView>(
            ArgsErrorView::NoServer,
        ),
{
    let two = seq!["--server"@, x];
    let opt = seq!["--server"@];
    let one = seq![x];
    lemma_args_append(args, two, None, DEFAULT_SERVER@);
    lemma_args_append(args, opt, None, DEFAULT_SERVER@);
    lemma_args_append(args, one, None, DEFAULT_SERVER@);
    reveal_with_fuel(args_from, 3);
    assert(two.skip(2) =~= Seq::empty());
    assert(opt[0] == "--server"@ && opt.len() == 1);
}

/// Law: behind a scheme, or without one, stands the host, as it is, whatever it
/// is, but for slashes at its end.
pub proof fn law_hosts_are_kept(host: Seq<char>, slashes: Seq<char>)
    requires
        host.len() > 0 ==> host.last() != '/',
        forall|i: int| 0 <= i < slashes.len() ==> #[trigger] slashes[i] == '/',
    ensures
        server_of("wss://"@ + (host + slashes)) == (ServerView { host, secure: true }),
        server_of("https://"@ + (host + slashes)) == (ServerView { host, secure: true }),
        server_of("ws://"@ + (host + slashes)) == (ServerView { host, secure: false }),
        server_of("http://"@ + (host + slashes)) == (ServerView { host, secure: false }),
        !"wss://"@.is_prefix_of(host + slashes) && !"https://"@.is_prefix_of(host + slashes)
            && !"ws://"@.is_prefix_of(host + slashes) && !"http://"@.is_prefix_of(host + slashes)
            ==> server_of(host + slashes) == (ServerView { host, secure: false }),
{
    reveal_strlit("ws://");
    reveal_strlit("http://");
    reveal_strlit("wss://");
    reveal_strlit("https://");
    let (ws, http, wss, https) = ("ws://"@, "http://"@, "wss://"@, "https://"@);
    let rest = host + slashes;
    lemma_trimmed_slashes(host, slashes);
    lemma_not_prefix(wss, ws + rest, 2);
    lemma_not_prefix(https, ws + rest, 0);
    lemma_not_prefix(wss, http + rest, 0);
    lemma_not_prefix(https, http + rest, 4);
    lemma_not_prefix(ws, http + rest, 0);
    lemma_not_prefix(wss, https + rest, 0);
    assert((wss + rest).subrange(0, 6) =~= wss);
    assert((https + rest).subrange(0, 8) =~= https);
    assert((ws + rest).subrange(0, 5) =~= ws);
    assert((http + rest).subrange(0, 7) =~= http);
    assert((wss + rest).skip(6) =~= rest);
    assert((https + rest).skip(8) =~= rest);
    assert((ws + rest).skip(5) =~= rest);
    assert((http + rest).skip(7) =~= rest);
    assert(rest.skip(0) =~= rest);
}

/// Slashes at the end of a host are cut off.
proof fn lemma_trimmed_slashes(host: Seq<char>, slashes: Seq<char>)
    requires
        host.len() > 0 ==> host.last() != '/',
        forall|i: int| 0 <= i < slashes.len() ==> #[trigger] slashes[i] == '/',
    ensures
        trimmed_back(host + slashes, Trim::Only('/')) == host,
    decreases slashes.len(),
{
    let all = host + slashes;
    if slashes.len() == 0 {
        assert(all =~= host);
    } else {
        let fewer = slashes.drop_last();
        assert forall|i: int| 0 <= i < fewer.len() implies #[trigger] fewer[i] == '/' by {
            assert(fewer[i] == slashes[i]);
        }
        assert(all.last() == '/');
        assert(all.drop_last() =~= host + fewer);
        lemma_trimmed_slashes(host, fewer);
    }
}

} // verus!
