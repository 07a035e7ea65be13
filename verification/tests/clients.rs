use p2p_autos::client::{
    answer_pull, offer_text, on_down, parse_args, parse_server, Action, Answer, ArgsError, Server,
    DEFAULT_SERVER,
};
use p2p_autos::config::{configure, parse_options, parse_task, Bind, OptionsError, Task};
use p2p_autos::protocol::Down;

fn args(list: &[&str]) -> Vec<String> {
    list.iter().map(|s| s.to_string()).collect()
}

fn server(raw: &str) -> (String, bool) {
    let s = parse_server(raw);
    (s.host, s.secure)
}

#[test]
fn servers_are_read() {
    let plain = ("h:1".to_string(), false);
    let safe = ("h:1".to_string(), true);
    assert_eq!(server("h:1"), plain);
    assert_eq!(server("ws://h:1"), plain);
    assert_eq!(server("http://h:1/"), plain);
    assert_eq!(server("wss://h:1"), safe);
    assert_eq!(server("https://h:1///"), safe);
    assert_eq!(server("https://wss://h"), ("wss://h".to_string(), true));
    assert_eq!(server("HTTPS://h"), ("HTTPS://h".to_string(), false));
    assert_eq!(server(""), ("".to_string(), false));
    assert_eq!(server("///"), ("".to_string(), false));
}

#[test]
fn schemes_follow_encryption() {
    let plain = Server { host: "h".to_string(), secure: false };
    let safe = Server { host: "h:2".to_string(), secure: true };
    assert_eq!((plain.ws_scheme(), plain.link_scheme()), ("ws", "http"));
    assert_eq!((safe.ws_scheme(), safe.link_scheme()), ("wss", "https"));
    assert_eq!(plain.ws_url(), "ws://h/ws");
    assert_eq!(safe.ws_url(), "wss://h:2/ws");
    assert_eq!(plain.link("abcdefgh"), "http://h/d/abcdefgh");
    assert_eq!(safe.link("abcdefgh"), "https://h:2/d/abcdefgh");
}

#[test]
fn arguments_are_read() {
    let (path, s) = parse_args(&args(&["./video.mp4"])).ok().unwrap();
    assert_eq!((path.as_str(), s.host.as_str(), s.secure), ("./video.mp4", DEFAULT_SERVER, false));
    for list in [
        ["f", "--server", "https://p2p.example.com:8080"],
        ["--server", "https://p2p.example.com:8080", "f"],
    ] {
        let (path, s) = parse_args(&args(&list)).ok().unwrap();
        assert_eq!(path, "f");
        assert_eq!((s.host.as_str(), s.secure), ("p2p.example.com:8080", true));
    }
    // The last one counts, and a value may look like an option.
    let list = ["--server", "a", "f", "--server", "--server"];
    let (path, s) = parse_args(&args(&list)).ok().unwrap();
    assert_eq!((path.as_str(), s.host.as_str()), ("f", "--server"));
}

#[test]
fn bad_arguments_are_named() {
    let message = |list: &[&str]| parse_args(&args(list)).err().unwrap().message();
    assert_eq!(message(&["f", "--server"]), "--server needs a value");
    assert_eq!(
        message(&["f", "g"]),
        "unknown argument: g (expected a file path and/or --server)"
    );
    assert_eq!(
        message(&[]),
        "usage: p2p-autos share <file> [--server host[:port]]"
    );
    assert_eq!(
        message(&["--server", "h"]),
        "usage: p2p-autos share <file> [--server host[:port]]"
    );
    assert!(matches!(
        parse_args(&args(&["f", "g", "--server"])),
        Err(ArgsError::Unknown(g)) if g == "g"
    ));
}

#[test]
fn offers_are_written_as_json() {
    let text = offer_text(Some("a\"b\\é\n".to_string()), u64::MAX);
    assert_eq!(
        text,
        "{\"mime\":\"\",\"name\":\"a\\\"b\\\\é\\n\",\"size\":18446744073709551615,\"t\":\"offer\"}"
    );
    let read: serde_json::Value = serde_json::from_str(&offer_text(None, 0)).unwrap();
    assert_eq!(read["t"], "offer");
    assert_eq!(read["name"], "download");
    assert_eq!(read["size"], 0);
    assert_eq!(read["mime"], "");
}

#[test]
fn pulls_are_answered() {
    match answer_pull(258, Some(vec![7, 8])) {
        Answer::Binary(f) => assert_eq!(f, vec![2, 1, 0, 0, 7, 8]),
        Answer::Text(_) => panic!("no frame"),
    }
    match answer_pull(258, None) {
        Answer::Text(text) => assert_eq!(text, "{\"r\":258,\"t\":\"err\"}"),
        Answer::Binary(_) => panic!("no text"),
    }
}

#[test]
fn messages_lead_to_actions() {
    let s = parse_server("https://h");
    let ready = on_down(&s, Down::Ready { id: "abcdefgh".to_string() });
    assert!(matches!(ready, Action::Print(line) if line == "https://h/d/abcdefgh"));
    let full = on_down(&s, Down::Full);
    assert!(matches!(
        full,
        Action::Stop(line) if line == "server rejected the offer: too many shares already"
    ));
    let pull = Down::Pull { r: 3, file: "abcdefgh".to_string(), s: 10, e: 20 };
    assert!(matches!(
        on_down(&s, pull),
        Action::Read { r: 3, start: 10, end: 20 }
    ));
    assert!(matches!(on_down(&s, Down::Cancel { r: 3 }), Action::Skip));
}

fn bind(list: &[&str], env: Option<&str>) -> String {
    let given = parse_options(&args(list)).ok().unwrap();
    match configure(given, env.map(|s| s.to_string())).bind {
        Bind::Given(text) => format!("given {text}"),
        Bind::At(address, port) => format!("{address} {port}"),
    }
}

#[test]
fn the_server_is_configured() {
    assert_eq!(bind(&[], None), "0.0.0.0 8080");
    assert_eq!(bind(&[], Some("h:1")), "given h:1");
    assert_eq!(bind(&["--port", "3000"], Some("h:1")), "0.0.0.0 3000");
    assert_eq!(bind(&["--address", "::1"], Some("h:1")), "::1 8080");
    assert_eq!(
        bind(&["--address", "0.0.0.0", "--port", "3000"], None),
        "0.0.0.0 3000"
    );
    assert_eq!(bind(&["--memory-budget", "8"], Some("h:1")), "given h:1");
    let budget = |list: &[&str]| {
        configure(parse_options(&args(list)).ok().unwrap(), None).budget_chunks
    };
    assert_eq!(budget(&[]), 256);
    assert_eq!(budget(&["--memory-budget", "8"]), 8);
    assert_eq!(budget(&["--memory-budget", "8", "--memory-budget", "0"]), 0);
}

#[test]
fn bad_options_are_named() {
    let message = |list: &[&str]| parse_options(&args(list)).err().unwrap().message();
    assert_eq!(message(&["--port"]), "--port needs a value");
    assert_eq!(message(&["--port", "65536"]), "--port needs a number");
    assert_eq!(message(&["--port", "x"]), "--port needs a number");
    assert_eq!(
        message(&["--memory-budget", "-1"]),
        "--memory-budget needs a number"
    );
    assert_eq!(
        message(&["x"]),
        "unknown argument: x (expected --address, --port and/or --memory-budget)"
    );
    assert!(matches!(
        parse_options(&args(&["--memory-budget", "1", "share"])),
        Err(OptionsError::Unknown(arg)) if arg == "share"
    ));
}

#[test]
fn the_subcommand_is_told_from_options() {
    match parse_task(&args(&["share", "f", "--server", "h"])) {
        Task::Share(rest) => assert_eq!(rest, args(&["f", "--server", "h"])),
        Task::Serve(_) => panic!("not told apart"),
    }
    match parse_task(&args(&["--port", "1"])) {
        Task::Serve(rest) => assert_eq!(rest, args(&["--port", "1"])),
        Task::Share(_) => panic!("not told apart"),
    }
    assert!(matches!(parse_task(&args(&[])), Task::Serve(rest) if rest.is_empty()));
}
