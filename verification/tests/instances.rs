//! The registry of servers, and what is asked of it.
use snap::commands::{self, Source, Start, Stop, StopError};
use snap::instances::{
    after_wait, cmdline_is_serve, confirmed, file_for, fmt_uptime, health, is_record, is_stale, list, on_port,
    probe_host, run_dir, state_of, Ended, Info, Instance, RunDir, State, DEFAULT_PORT,
};
use snap::server;
use snap::value::Value;

fn instance(pid: u32, port: u16, state: State) -> Instance {
    Instance {
        info: Info {
            pid,
            host: "127.0.0.1".to_string(),
            port,
            model: "m".to_string(),
            started: 100,
            version: "t".to_string(),
        },
        state,
    }
}

fn serving(pid: u32, port: u16) -> Instance {
    instance(pid, port, State::Serving { uptime_s: 7380, model: "spark-4b".to_string() })
}

#[test]
fn serve_cmdline() {
    assert!(cmdline_is_serve("/usr/local/bin/snap serve --port 8018"));
    assert!(cmdline_is_serve("snap serve"));
    assert!(cmdline_is_serve("C:\\bin\\snap.exe serve --model x"));
    assert!(!cmdline_is_serve("/usr/bin/snapshot serve"));
    assert!(!cmdline_is_serve("snap evaluate f.jsonl"));
    assert!(!cmdline_is_serve("vim"));
    assert!(!cmdline_is_serve(""));
    assert!(!cmdline_is_serve("serve snap"));
}

#[test]
fn uptime_fmt() {
    assert_eq!(fmt_uptime(45), "45s");
    assert_eq!(fmt_uptime(720), "12m");
    assert_eq!(fmt_uptime(7380), "2h 3m");
    assert_eq!(fmt_uptime(90000), "1d 1h");
}

#[test]
fn records_are_files_by_pid() {
    assert_eq!(file_for(4711), "4711.json");
}

#[test]
fn a_live_pid_that_does_not_answer_is_starting_then_unresponsive() {
    assert!(matches!(state_of(None, 399, 100), State::Starting));
    assert!(matches!(state_of(None, 400, 100), State::Unresponsive));
    // a clock that went back is no reason to call it wedged
    assert!(matches!(state_of(None, 50, 100), State::Starting));
    match state_of(Some(("m".to_string(), 9)), 400, 100) {
        State::Serving { uptime_s, model } => assert_eq!((uptime_s, model.as_str()), (9, "m")),
        _ => panic!("not serving"),
    }
}

#[test]
fn wildcard_binds_are_probed_on_loopback() {
    assert_eq!(probe_host("0.0.0.0"), "127.0.0.1");
    assert_eq!(probe_host("::"), "127.0.0.1");
    assert_eq!(probe_host(""), "127.0.0.1");
    assert_eq!(probe_host("10.0.0.7"), "10.0.0.7");
}

#[test]
fn a_probe_reads_what_the_server_writes() {
    let v = server::healthz("snap-minicpm", "minicpm5-2b", 42);
    assert_eq!(health(&v), Some(("minicpm5-2b".to_string(), 42)));
    assert_eq!(health(&Value::Null), None);
    let sick = Value::Object(vec![("status".to_string(), Value::Str("loading".to_string()))]);
    assert_eq!(health(&sick), None);
    let bare = Value::Object(vec![
        ("status".to_string(), Value::Str("ok".to_string())),
        ("model".to_string(), Value::Str("old".to_string())),
    ]);
    assert_eq!(health(&bare), Some(("old".to_string(), 0)));
}

#[test]
fn listing_is_by_port_and_knows_strays() {
    let l = list(vec![serving(3, 9000), serving(1, 8000), serving(2, 9000)], None);
    let seen: Vec<(u32, u16)> = l.iter().map(|i| (i.info.pid, i.info.port)).collect();
    assert_eq!(seen, [(1, 8000), (3, 9000), (2, 9000)]);
    let l = list(vec![serving(1, 9000)], Some(("spark-4b".to_string(), 5)));
    let seen: Vec<(u32, u16)> = l.iter().map(|i| (i.info.pid, i.info.port)).collect();
    assert_eq!(seen, [(0, DEFAULT_PORT), (1, 9000)]);
    // a recorded server on the default port is no stray
    let l = list(vec![serving(1, DEFAULT_PORT)], Some(("spark-4b".to_string(), 5)));
    assert_eq!(l.len(), 1);
    assert_eq!(on_port(&l, DEFAULT_PORT).map(|i| i.info.pid), Some(1));
    assert!(on_port(&l, 1).is_none());
}

#[test]
fn only_known_servers_are_stopped() {
    let wedged = instance(7, 8000, State::Unresponsive);
    assert!(confirmed(&serving(1, 1), false));
    assert!(confirmed(&wedged, true));
    assert!(!confirmed(&wedged, false));
    assert!(matches!(commands::stop(&wedged, true, false), Stop::End));
    match commands::stop(&wedged, false, false) {
        Stop::Leave(m) => {
            assert_eq!(m, "pid 7 isn't verified as a snap server (pid reuse?) — `--force` to kill anyway")
        }
        _ => panic!("stopped a stranger"),
    }
    match commands::stop(&serving(0, 8018), true, true) {
        Stop::Leave(m) => {
            assert_eq!(m, ":8018 is serving but not tracked (started outside this snap) — kill it manually")
        }
        _ => panic!("pid 0"),
    }
    assert_eq!(after_wait(true, false, true), Ended::Gone);
    assert_eq!(after_wait(false, false, true), Ended::Force);
    assert_eq!(after_wait(false, true, true), Ended::Alive);
    assert_eq!(after_wait(false, false, false), Ended::Alive);
    assert_eq!(commands::stopped(&serving(4, 8018), true), "stopped :8018 (pid 4)");
    assert_eq!(commands::stopped(&serving(4, 8018), false), "pid 4 still alive — retry with `--force`");
}

#[test]
fn stop_targets() {
    let live = vec![serving(5, 8000), serving(3, 8001)];
    let pick = |all: bool, ports: &[u16], pids: &[u32]| {
        commands::targets(&live, all, &ports.to_vec(), &pids.to_vec()).map_err(|e| e.message())
    };
    assert_eq!(pick(true, &[], &[]), Ok(vec![3, 5]));
    assert_eq!(pick(false, &[8000], &[3]), Ok(vec![3, 5]));
    assert_eq!(pick(false, &[8000, 8000], &[]), Ok(vec![5]));
    assert_eq!(pick(false, &[9], &[1]), Err("no snap server on :9".to_string()));
    assert_eq!(pick(false, &[], &[1]), Err("no snap server with pid 1".to_string()));
    assert_eq!(
        pick(false, &[], &[]),
        Err("multiple snap servers — `snap stop --all`, or pick one with --port/--pid".to_string())
    );
    assert!(matches!(commands::targets(&live, false, &vec![], &vec![]), Err(StopError::Many)));
    assert!(matches!(commands::targets(&Vec::new(), false, &vec![], &vec![]), Ok(t) if t.is_empty()));
    assert!(matches!(commands::targets(&vec![serving(5, 1)], false, &vec![], &vec![]), Ok(t) if t == [5]));
}

#[test]
fn listings_line_up() {
    let live = vec![serving(12, 8018), instance(13, 9000, State::Starting), serving(0, 1)];
    let l = commands::print_ps(&live, 145);
    assert_eq!(l[0], "PID     MODEL           ADDRESS                UPTIME   STATE");
    assert_eq!(l[1], "12      spark-4b        127.0.0.1:8018         2h 3m    serving");
    assert_eq!(l[2], "13      m               127.0.0.1:9000         45s      starting");
    assert!(l[3].starts_with("-       spark-4b"));
    assert_eq!(commands::model_lines()[2], "  spark-4b       XHToken/Spark-X2.5-4B-GGUF/Spark-X2.5-4B-Q8_0.gguf");
    assert_eq!(
        commands::port_taken(&serving(12, 8018), 8018),
        "snap is already serving on :8018 (pid 12) — `snap stop --port 8018` or pick another --port"
    );
    assert!(commands::port_taken(&serving(0, 8018), 8018).contains("(untracked)"));
}

#[test]
fn starts() {
    assert_eq!(commands::start(false, false, false, true, false), Start::Help);
    assert_eq!(commands::start(false, true, true, true, true), Start::Print);
    assert_eq!(commands::start(true, false, false, true, false), Start::Command);
    let said = |c, p, r, t, f| commands::start(c, p, r, t, f).error();
    assert_eq!(said(false, false, false, false, false), Some("piped input detected — did you mean `snap -p`?"));
    assert_eq!(said(false, false, true, true, false), Some("a request requires -p"));
    assert_eq!(said(true, true, false, true, false), Some("-p/--print takes no subcommand"));
    assert_eq!(
        said(true, false, false, true, true),
        Some("model flags belong after the subcommand (top-level is -p only)")
    );
    assert_eq!(said(true, false, false, true, false), None);
    assert!(!commands::flags_given("minicpm5-2b", 8192, 0, false, false));
    assert!(commands::flags_given("spark-4b", 8192, 0, false, false));
    assert!(commands::flags_given("minicpm5-2b", 4096, 0, false, false));
    assert!(commands::flags_given("minicpm5-2b", 8192, 0, false, true));
}

#[test]
fn requests_come_inline_from_files_or_from_stdin() {
    assert!(matches!(commands::read_request(None), Source::Stdin));
    assert!(matches!(commands::read_request(Some("-")), Source::Stdin));
    assert!(matches!(commands::read_request(Some("  {\"a\": 1} ")), Source::Inline(t) if t == "{\"a\": 1} "));
    assert!(
        matches!(commands::read_request(Some(" r.json")), Source::File { path, text } if path == "r.json" && text == " r.json")
    );
}

#[test]
fn pidfiles_go_where_they_are_told() {
    let s = |t: &str| Some(t.to_string());
    assert!(matches!(run_dir(s("/a"), s("/b"), s("/c"), s("/d")), RunDir::Named(d) if d == "/a"));
    assert!(matches!(run_dir(None, s("/b"), s("/c"), s("/d")), RunDir::Runtime(d) if d == "/b"));
    assert!(matches!(run_dir(None, None, s("/c"), s("/d")), RunDir::Home(d) if d == "/c"));
    assert!(matches!(run_dir(None, None, None, s("/d")), RunDir::Home(d) if d == "/d"));
    assert!(matches!(run_dir(None, None, None, None), RunDir::Temporary));
}

#[test]
fn stale_records_are_removed() {
    assert!(is_record(Some("json")));
    assert!(is_record(None));
    assert!(!is_record(Some("tmp")));
    assert!(!is_stale(Some(7), true));
    assert!(is_stale(Some(7), false)); // dead
    assert!(is_stale(None, false)); // corrupt
}
