//! The command line of the program: the `share` subcommand, or the options of
//! the server.

use crate::client::words;
use crate::text::{
    chars_of, decimal_digits, law_decimal_round_trip, parse_u64, same_text, u64_of,
};
use vstd::prelude::*;
use vstd::string::StringExecFns;

verus! {

/// The address on which the server listens where none is given.
pub const DEFAULT_ADDRESS: &'static str = "0.0.0.0";

/// The port on which the server listens where none is given.
pub const DEFAULT_PORT: u16 = 8080;

/// The memory budget where none is given, in MiB. A chunk is one MiB.
pub const DEFAULT_BUDGET: usize = 256;

/// Where the server listens.
pub enum Bind {
    /// At `host:port`, as the environment gives it.
    Given(String),
    /// At an address and a port.
    At(String, u16),
}

/// What a `Bind` says.
pub enum BindView {
    Given(Seq<char>),
    At(Seq<char>, u16),
}

impl View for Bind {
    type V = BindView;

    open spec fn view(&self) -> BindView {
        match self {
            Bind::Given(text) => BindView::Given(text@),
            Bind::At(address, port) => BindView::At(address@, *port),
        }
    }
}

/// How the server is set up.
pub struct Config {
    /// Where it listens.
    pub bind: Bind,
    /// Its memory budget for all downloads, in chunks.
    pub budget_chunks: usize,
}

/// The options that were given.
pub struct Options {
    pub address: Option<String>,
    pub port: Option<u16>,
    pub budget: Option<usize>,
}

/// What `Options` say.
pub struct OptionsView {
    pub address: Option<Seq<char>>,
    pub port: Option<u16>,
    pub budget: Option<usize>,
}

impl View for Options {
    type V = OptionsView;

    open spec fn view(&self) -> OptionsView {
        OptionsView {
            address: match self.address {
                Some(address) => Some(address@),
                None => None,
            },
            port: self.port,
            budget: self.budget,
        }
    }
}

/// Why the options cannot be used.
pub enum OptionsError {
    /// An option stands last, without a value.
    NoValue(String),
    /// An option's value is not a number that it can have.
    BadValue(String),
    /// An argument is no option.
    Unknown(String),
}

/// What an `OptionsError` says.
pub enum OptionsErrorView {
    NoValue(Seq<char>),
    BadValue(Seq<char>),
    Unknown(Seq<char>),
}

impl View for OptionsError {
    type V = OptionsErrorView;

    open spec fn view(&self) -> OptionsErrorView {
        match self {
            OptionsError::NoValue(option) => OptionsErrorView::NoValue(option@),
            OptionsError::BadValue(option) => OptionsErrorView::BadValue(option@),
            OptionsError::Unknown(arg) => OptionsErrorView::Unknown(arg@),
        }
    }
}

impl OptionsErrorView {
    /// What to tell the user.
    pub open spec fn message(self) -> Seq<char> {
        match self {
            OptionsErrorView::NoValue(option) => option + " needs a value"@,
            OptionsErrorView::BadValue(option) => option + " needs a number"@,
            OptionsErrorView::Unknown(arg) => "unknown argument: "@ + arg
                + " (expected --address, --port and/or --memory-budget)"@,
        }
    }
}

/// Law: the message about an option or an argument names it.
pub proof fn law_messages_name_the_argument(arg: Seq<char>)
    ensures
        (OptionsErrorView::NoValue(arg)).message().take(arg.len() as int) == arg,
        (OptionsErrorView::BadValue(arg)).message().take(arg.len() as int) == arg,
        (OptionsErrorView::Unknown(arg)).message().subrange(18, 18 + arg.len() as int) == arg,
{
    reveal_strlit("unknown argument: ");
    assert((OptionsErrorView::NoValue(arg)).message().take(arg.len() as int) =~= arg);
    assert((OptionsErrorView::BadValue(arg)).message().take(arg.len() as int) =~= arg);
    assert((OptionsErrorView::Unknown(arg)).message().subrange(18, 18 + arg.len() as int) =~= arg);
}

impl OptionsError {
    /// What to tell the user.
    pub fn message(&self) -> (m: String)
        ensures
            m@ == self@.message(),
    {
        match self {
            OptionsError::NoValue(option) => option.clone().concat(" needs a value"),
            OptionsError::BadValue(option) => option.clone().concat(" needs a number"),
            OptionsError::Unknown(arg) => "unknown argument: ".to_owned().concat(
                arg.as_str(),
            ).concat(" (expected --address, --port and/or --memory-budget)"),
        }
    }
}

/// The number that `text` writes, if it is no larger than `max`.
pub open spec fn number_up_to(text: Seq<char>, max: nat) -> Option<u64> {
    match u64_of(text) {
        Some(n) => if n <= max {
            Some(n)
        } else {
            None
        },
        None => None,
    }
}

/// Whether `arg` is an option.
pub open spec fn is_option(arg: Seq<char>) -> bool {
    arg == "--address"@ || arg == "--port"@ || arg == "--memory-budget"@
}

/// The options with the value that `option` gives one of them.
pub open spec fn option_set(given: OptionsView, option: Seq<char>, value: Seq<char>) -> Result<
    OptionsView,
    OptionsErrorView,
> {
    if option == "--address"@ {
        Ok(OptionsView { address: Some(value), ..given })
    } else if option == "--port"@ {
        match number_up_to(value, u16::MAX as nat) {
            Some(n) => Ok(OptionsView { port: Some(n as u16), ..given }),
            None => Err(OptionsErrorView::BadValue(option)),
        }
    } else {
        match number_up_to(value, usize::MAX as nat) {
            Some(n) => Ok(OptionsView { budget: Some(n as usize), ..given }),
            None => Err(OptionsErrorView::BadValue(option)),
        }
    }
}

/// The options that `args` give, after `given` were given before.
pub open spec fn options_from(args: Seq<Seq<char>>, given: OptionsView) -> Result<
    OptionsView,
    OptionsErrorView,
>
    decreases args.len(),
{
    if args.len() == 0 {
        Ok(given)
    } else if !is_option(args[0]) {
        Err(OptionsErrorView::Unknown(args[0]))
    } else if args.len() == 1 {
        Err(OptionsErrorView::NoValue(args[0]))
    } else {
        match option_set(given, args[0], args[1]) {
            Ok(given) => options_from(args.skip(2), given),
            Err(e) => Err(e),
        }
    }
}

/// No options.
pub open spec fn no_options() -> OptionsView {
    OptionsView { address: None, port: None, budget: None }
}

/// Where the server listens: the environment has a say only where neither the
/// address nor the port is given.
pub open spec fn bind_of(given: OptionsView, env: Option<Seq<char>>) -> BindView {
    match (given.address, given.port, env) {
        (None, None, Some(text)) => BindView::Given(text),
        (address, port, _) => BindView::At(
            match address {
                Some(address) => address,
                None => DEFAULT_ADDRESS@,
            },
            match port {
                Some(port) => port,
                None => DEFAULT_PORT,
            },
        ),
    }
}

/// The memory budget of the server, in MiB.
pub open spec fn budget_of(given: OptionsView) -> usize {
    match given.budget {
        Some(mib) => mib,
        None => DEFAULT_BUDGET,
    }
}

/// Sets one option.
fn set_option(given: Options, option: &String, value: &String) -> (r: Result<Options, OptionsError>)
    requires
        is_option(option@),
    ensures
        match (r, option_set(given@, option@, value@)) {
            (Ok(o), Ok(v)) => o@ == v,
            (Err(e), Err(f)) => e@ == f,
            _ => false,
        },
{
    if same_text(option.as_str(), "--address") {
        return Ok(Options { address: Some(value.clone()), ..given });
    }
    let number: Option<u64> = parse_u64(&chars_of(value.as_str()));
    if same_text(option.as_str(), "--port") {
        match number {
            Some(n) => {
                if n <= u16::MAX as u64 {
                    return Ok(Options { port: Some(n as u16), ..given });
                }
            },
            None => {},
        }
    } else {
        match number {
            Some(n) => {
                if n <= usize::MAX as u64 {
                    return Ok(Options { budget: Some(n as usize), ..given });
                }
            },
            None => {},
        }
    }
    Err(OptionsError::BadValue(option.clone()))
}

/// Reads the options of the server.
pub fn parse_options(args: &Vec<String>) -> (r: Result<Options, OptionsError>)
    ensures
        match (r, options_from(words(args@), no_options())) {
            (Ok(o), Ok(v)) => o@ == v,
            (Err(e), Err(f)) => e@ == f,
            _ => false,
        },
{
    let mut given: Options = Options { address: None, port: None, budget: None };
    let mut i: usize = 0;
    let ghost all = words(args@);
    assert(all.skip(0) =~= all);
    while i < args.len()
        invariant
            all == words(args@),
            i <= args@.len(),
            options_from(all, no_options()) == options_from(all.skip(i as int), given@),
        decreases args@.len() - i,
    {
        let ghost rest = all.skip(i as int);
        let arg: &String = &args[i];
        if !same_text(arg.as_str(), "--address") && !same_text(arg.as_str(), "--port")
            && !same_text(arg.as_str(), "--memory-budget") {
            return Err(OptionsError::Unknown(arg.clone()));
        }
        if i + 1 >= args.len() {
            return Err(OptionsError::NoValue(arg.clone()));
        }
        match set_option(given, arg, &args[i + 1]) {
            Ok(set) => {
                given = set;
            },
            Err(e) => {
                return Err(e);
            },
        }
        assert(rest.skip(2) =~= all.skip(i + 2));
        i = i + 2;
    }
    Ok(given)
}

/// Sets the server up by its options and by what the environment gives as the
/// place to listen.
pub fn configure(given: Options, env: Option<String>) -> (c: Config)
    ensures
        c.bind@ == bind_of(
            given@,
            match env {
                Some(text) => Some(text@),
                None => None,
            },
        ),
        c.budget_chunks == budget_of(given@),
{
    let budget_chunks: usize = match given.budget {
        Some(mib) => mib,
        None => DEFAULT_BUDGET,
    };
    let bind: Bind = match (given.address, given.port, env) {
        (None, None, Some(text)) => Bind::Given(text),
        (address, port, _) => Bind::At(
            match address {
                Some(address) => address,
                None => DEFAULT_ADDRESS.to_owned(),
            },
            match port {
                Some(port) => port,
                None => DEFAULT_PORT,
            },
        ),
    };
    Config { bind, budget_chunks }
}

/// What the program is to do.
pub enum Task {
    /// Share a file; these are the arguments.
    Share(Vec<String>),
    /// Run the server; these are the arguments.
    Serve(Vec<String>),
}

/// What a `Task` says.
pub enum TaskView {
    Share(Seq<Seq<char>>),
    Serve(Seq<Seq<char>>),
}

impl View for Task {
    type V = TaskView;

    open spec fn view(&self) -> TaskView {
        match self {
            Task::Share(rest) => TaskView::Share(words(rest@)),
            Task::Serve(rest) => TaskView::Serve(words(rest@)),
        }
    }
}

/// What these arguments tell the program to do.
pub open spec fn task_of(args: Seq<Seq<char>>) -> TaskView {
    if args.len() > 0 && args[0] == "share"@ {
        TaskView::Share(args.skip(1))
    } else {
        TaskView::Serve(args)
    }
}

/// Law: the word share, and it alone, makes what follows the arguments of the
/// subcommand; otherwise all arguments are the server's.
pub proof fn law_share_is_told_apart(rest: Seq<Seq<char>>, first: Seq<char>)
    ensures
        task_of(seq!["share"@] + rest) == TaskView::Share(rest),
        first != "share"@ ==> task_of(seq![first] + rest) == TaskView::Serve(seq![first] + rest),
        task_of(Seq::empty()) == TaskView::Serve(Seq::empty()),
{
    assert((seq!["share"@] + rest).skip(1) =~= rest);
    assert((seq![first] + rest)[0] == first);
}

/// Tells the subcommand from the server's options.
pub fn parse_task(args: &Vec<String>) -> (task: Task)
    ensures
        match task {
            Task::Share(rest) => {
                &&& args@.len() > 0
                &&& args@[0]@ == "share"@
                &&& words(rest@) == words(args@).skip(1)
            },
            Task::Serve(rest) => {
                &&& args@.len() > 0 ==> args@[0]@ != "share"@
                &&& words(rest@) == words(args@)
            },
        },
        task@ == task_of(words(args@)),
{
    let share: bool = args.len() > 0 && same_text(args[0].as_str(), "share");
    let from: usize = if share {
        1
    } else {
        0
    };
    let mut rest: Vec<String> = Vec::new();
    let mut i: usize = from;
    while i < args.len()
        invariant
            from <= i <= args@.len(),
            words(rest@) =~= words(args@).subrange(from as int, i as int),
        decreases args@.len() - i,
    {
        let ghost before = rest@;
        rest.push(args[i].clone());
        assert(words(rest@) =~= words(before).push(words(args@)[i as int]));
        i = i + 1;
    }
    if share {
        assert(words(rest@) =~= words(args@).skip(1));
        Task::Share(rest)
    } else {
        assert(words(rest@) =~= words(args@));
        Task::Serve(rest)
    }
}

/// Law: without options the server listens on every address at its default
/// port; an address or a port that is given outweighs the environment.
pub proof fn law_options_outweigh_the_environment(given: OptionsView, env: Seq<char>)
    ensures
        bind_of(no_options(), None) == BindView::At(DEFAULT_ADDRESS@, DEFAULT_PORT),
        bind_of(no_options(), Some(env)) == BindView::Given(env),
        given.address is Some || given.port is Some ==> bind_of(given, Some(env)) == bind_of(
            given,
            None,
        ),
{
}

/// Options that can be used, and more behind them.
proof fn lemma_options_append(args: Seq<Seq<char>>, more: Seq<Seq<char>>, given: OptionsView)
    requires
        options_from(args, given) is Ok,
    ensures
        options_from(args + more, given) == options_from(more, options_from(args, given)->Ok_0),
    decreases args.len(),
{
    let all = args + more;
    if args.len() == 0 {
        assert(all =~= more);
    } else {
        assert(all[0] == args[0] && all[1] == args[1]);
        assert(all.skip(2) =~= args.skip(2) + more);
        lemma_options_append(args.skip(2), more, option_set(given, args[0], args[1])->Ok_0);
    }
}

/// Law: each option sets what it is named after to the value behind it, and
/// nothing else, whatever was given before; an option without a value, a port
/// that is too large, and what is no option, are refused.
pub proof fn law_options_set_what_they_name(
    args: Seq<Seq<char>>,
    given: OptionsView,
    address: Seq<char>,
    port: u64,
    budget: usize,
    x: Seq<char>,
)
    requires
        options_from(args, no_options()) == Ok::<OptionsView, OptionsErrorView>(given),
        x != "--address"@,
        x != "--port"@,
        x != "--memory-budget"@,
    ensures
        options_from(args + seq!["--address"@, address], no_options()) == Ok::<
            OptionsView,
            OptionsErrorView,
        >(OptionsView { address: Some(address), port: given.port, budget: given.budget }),
        options_from(args + seq!["--port"@, decimal_digits(port as nat)], no_options()) == if port
            <= 65535 {
            Ok::<OptionsView, OptionsErrorView>(
                OptionsView {
                    address: given.address,
                    port: Some(port as u16),
                    budget: given.budget,
                },
            )
        } else {
            Err(OptionsErrorView::BadValue("--port"@))
        },
        options_from(
            args + seq!["--memory-budget"@, decimal_digits(budget as nat)],
            no_options(),
        ) == Ok::<OptionsView, OptionsErrorView>(
            OptionsView { address: given.address, port: given.port, budget: Some(budget) },
        ),
        options_from(args + seq![x], no_options()) == Err::<OptionsView, OptionsErrorView>(
            OptionsErrorView::Unknown(x),
        ),
        options_from(args + seq!["--port"@], no_options()) == Err::<OptionsView, OptionsErrorView>(
            OptionsErrorView::NoValue("--port"@),
        ),
{
    reveal_strlit("--address");
    reveal_strlit("--port");
    reveal_strlit("--memory-budget");
    assert("--address"@.len() == 9 && "--port"@.len() == 6 && "--memory-budget"@.len() == 15);
    law_decimal_round_trip(port);
    law_decimal_round_trip(budget as u64);
    let a = seq!["--address"@, address];
    let p = seq!["--port"@, decimal_digits(port as nat)];
    let m = seq!["--memory-budget"@, decimal_digits(budget as nat)];
    lemma_options_append(args, a, no_options());
    lemma_options_append(args, p, no_options());
    lemma_options_append(args, m, no_options());
    lemma_options_append(args, seq![x], no_options());
    lemma_options_append(args, seq!["--port"@], no_options());
    assert(a.skip(2) =~= Seq::empty());
    assert(p.skip(2) =~= Seq::empty());
    assert(m.skip(2) =~= Seq::empty());
    reveal_with_fuel(options_from, 2);
}

/// Law: the server listens where it is told to, and at its defaults for what it
/// is not told; it has the budget that it is given, or 256 MiB.
pub proof fn law_server_listens_where_told(
    given: OptionsView,
    env: Option<Seq<char>>,
    address: Seq<char>,
    port: u16,
    budget: usize,
)
    ensures
        bind_of(OptionsView { address: Some(address), port: Some(port), ..given }, env)
            == BindView::At(address, port),
        bind_of(OptionsView { address: Some(address), port: None, ..given }, env) == BindView::At(
            address,
            8080,
        ),
        bind_of(OptionsView { address: None, port: Some(port), ..given }, env) == BindView::At(
            "0.0.0.0"@,
            port,
        ),
        budget_of(OptionsView { budget: Some(budget), ..given }) == budget,
        budget_of(OptionsView { budget: None, ..given }) == 256,
{
}

} // verus!
