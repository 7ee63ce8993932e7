//! What the command line asks for: where a request comes from, which servers to
//! stop, what a listing shows.
use vstd::prelude::*;

use crate::instances;
use crate::instances::{fmt_uptime, Instance, State};
use crate::lines;
use crate::models;
use crate::models::{Model, DEFAULT_MODEL};
use crate::text;

verus! {

/// Context size unless another is asked for.
pub const DEFAULT_CTX: i32 = 8192;

/// What the program is to do.
#[derive(Debug, Clone, Copy, PartialEq, Eq, Structural)]
pub enum Start {
    /// Show how it is used.
    Help,
    /// Answer one request and exit.
    Print,
    /// Run a subcommand.
    Command,
    /// Input is piped in, but nothing reads it.
    Piped,
    /// A request without print mode.
    LooseRequest,
    /// Print mode with a subcommand.
    PrintWithCommand,
    /// Model flags before the subcommand.
    LooseFlags,
}

/// What the program is to do, by what it was given.
pub open spec fn started(command: bool, print: bool, request: bool, terminal: bool, flags: bool) -> Start {
    if command {
        if print || request {
            Start::PrintWithCommand
        } else if flags {
            Start::LooseFlags
        } else {
            Start::Command
        }
    } else if print {
        Start::Print
    } else if request {
        Start::LooseRequest
    } else if terminal {
        Start::Help
    } else {
        Start::Piped
    }
}

/// What the program is to do: whether a subcommand, print mode, a request and
/// model flags before the subcommand were given, and whether a terminal is
/// where its input comes from.
pub fn start(command: bool, print: bool, request: bool, terminal: bool, flags: bool) -> (r: Start)
    ensures
        r == started(command, print, request, terminal, flags),
{
    if command {
        if print || request {
            Start::PrintWithCommand
        } else if flags {
            Start::LooseFlags
        } else {
            Start::Command
        }
    } else if print {
        Start::Print
    } else if request {
        Start::LooseRequest
    } else if terminal {
        Start::Help
    } else {
        Start::Piped
    }
}

/// What a refused start is told.
pub open spec fn start_error(s: Start) -> Option<Seq<char>> {
    match s {
        Start::Piped => Some("piped input detected — did you mean `snap -p`?"@),
        Start::LooseRequest => Some("a request requires -p"@),
        Start::PrintWithCommand => Some("-p/--print takes no subcommand"@),
        Start::LooseFlags => Some("model flags belong after the subcommand (top-level is -p only)"@),
        _ => None,
    }
}

impl Start {
    /// What a refused start is told.
    pub fn error(self) -> (r: Option<&'static str>)
        ensures
            match r {
                Some(m) => start_error(self) == Some(m@),
                None => start_error(self) is None,
            },
    {
        match self {
            Start::Piped => Some("piped input detected — did you mean `snap -p`?"),
            Start::LooseRequest => Some("a request requires -p"),
            Start::PrintWithCommand => Some("-p/--print takes no subcommand"),
            Start::LooseFlags => Some("model flags belong after the subcommand (top-level is -p only)"),
            _ => None,
        }
    }
}

/// Whether any model flag differs from what it is unless given.
pub fn flags_given(model: &str, ctx: i32, threads: i32, debug: bool, calibration: bool) -> (r: bool)
    ensures
        r == (model@ != DEFAULT_MODEL@ || ctx != DEFAULT_CTX || threads != 0 || debug || calibration),
{
    !text::same(model, DEFAULT_MODEL) || ctx != DEFAULT_CTX || threads != 0 || debug || calibration
}

/// Where a request comes from.
pub enum Source {
    Stdin,
    /// The text itself.
    Inline(String),
    /// The file of this name; where there is none, the text itself.
    File { path: String, text: String },
}

/// Inline JSON wins, then a path that exists, then stdin.
pub fn read_request(given: Option<&str>) -> (r: Source)
    ensures
        match given {
            None => r is Stdin,
            Some(s) => {
                let t = text::trimmed_start(s@);
                if s@ == "-"@ {
                    r is Stdin
                } else if t.len() > 0 && t[0] == '{' {
                    r matches Source::Inline(x) && x@ == t
                } else {
                    r matches Source::File { path, text } && path@ == t && text@ == s@
                }
            },
        },
{
    match given {
        None => Source::Stdin,
        Some(s) => {
            if text::same(s, "-") {
                return Source::Stdin;
            }
            let cs: Vec<char> = text::chars_of(s);
            let t: &[char] = text::trim_start(cs.as_slice());
            let path: String = text::string_of(t);
            if t.len() > 0 && t[0] == '{' {
                Source::Inline(path)
            } else {
                Source::File { path, text: s.to_owned() }
            }
        },
    }
}

/// In order, none twice.
pub open spec fn increasing(v: Seq<u32>) -> bool {
    forall|i: int, j: int| 0 <= i < j < v.len() ==> (#[trigger] v[i]) < (#[trigger] v[j])
}

fn insert(v: &mut Vec<u32>, x: u32)
    requires
        increasing(old(v)@),
    ensures
        increasing(final(v)@),
        forall|y: u32| #[trigger] final(v)@.contains(y) <==> old(v)@.contains(y) || y == x,
{
    let ghost o = v@;
    let mut i: usize = 0;
    while i < v.len() && v[i] < x
        invariant
            i <= v@.len(),
            v@ == o,
            forall|k: int| 0 <= k < i ==> (#[trigger] v@[k]) < x,
        decreases v@.len() - i,
    {
        i += 1;
    }
    if i < v.len() && v[i] == x {
        proof {
            assert(o[i as int] == x);
        }
        return;
    }
    v.insert(i, x);
    proof {
        let n = v@;
        assert(n =~= o.insert(i as int, x));
        assert forall|a: int, b: int| 0 <= a < b < n.len() implies (#[trigger] n[a]) < (#[trigger] n[b]) by {
            if a == i && b > i + 1 {
                assert(o[i as int] < o[b - 1]);
            }
        }
        assert forall|y: u32| #[trigger] n.contains(y) <==> o.contains(y) || y == x by {
            if n.contains(y) {
                let j = choose|j: int| 0 <= j < n.len() && n[j] == y;
                if j < i {
                    assert(o[j] == y);
                } else if j > i {
                    assert(o[j - 1] == y);
                }
            }
            if o.contains(y) {
                let j = choose|j: int| 0 <= j < o.len() && o[j] == y;
                if j < i {
                    assert(n[j] == y);
                } else {
                    assert(n[j + 1] == y);
                }
            }
            assert(n[i as int] == x);
        }
    }
}

/// The first instance with a pid.
pub open spec fn pid_place(is: Seq<Instance>, pid: u32) -> Option<int>
    decreases is.len(),
{
    if is.len() == 0 {
        None
    } else if is[0].info.pid == pid {
        Some(0)
    } else {
        match pid_place(is.skip(1), pid) {
            Some(i) => Some(i + 1),
            None => None,
        }
    }
}

/// The instance with a pid.
pub fn with_pid(is: &Vec<Instance>, pid: u32) -> (r: Option<&Instance>)
    ensures
        match r {
            Some(i) => pid_place(is@, pid) is Some && *i == is@[pid_place(is@, pid)->0] && i.info.pid == pid,
            None => pid_place(is@, pid) is None,
        },
{
    let mut i: usize = 0;
    proof {
        assert(is@.skip(0) =~= is@);
    }
    while i < is.len()
        invariant
            i <= is@.len(),
            pid_place(is@, pid) == match pid_place(is@.skip(i as int), pid) {
                Some(k) => Some(k + i),
                None => None,
            },
        decreases is@.len() - i,
    {
        proof {
            assert(is@.skip(i as int).skip(1) =~= is@.skip(i + 1));
        }
        if is[i].info.pid == pid {
            return Some(&is[i]);
        }
        i += 1;
    }
    None
}

/// Why servers cannot be picked.
pub enum StopError {
    /// No server on this port.
    Port(u16),
    /// No server with this pid.
    Pid(u32),
    /// More than one server, and none was named.
    Many,
}

impl StopError {
    pub open spec fn text(self) -> Seq<char> {
        match self {
            StopError::Port(p) => "no snap server on :"@ + text::digits(p as nat),
            StopError::Pid(p) => "no snap server with pid "@ + text::digits(p as nat),
            StopError::Many => "multiple snap servers — `snap stop --all`, or pick one with --port/--pid"@,
        }
    }

    pub fn message(&self) -> (r: String)
        ensures
            r@ == self.text(),
    {
        match self {
            StopError::Port(p) => "no snap server on :".to_owned().concat(text::decimal(*p as u64).as_str()),
            StopError::Pid(p) => "no snap server with pid ".to_owned().concat(text::decimal(*p as u64).as_str()),
            StopError::Many => "multiple snap servers — `snap stop --all`, or pick one with --port/--pid".to_owned(),
        }
    }
}

/// A server asked for by its pid: any where all are asked for, one named by port
/// or pid, the only one where none is named.
pub open spec fn wanted(live: Seq<Instance>, all: bool, ports: Seq<u16>, pids: Seq<u32>, pid: u32) -> bool {
    if all {
        exists|i: int| 0 <= i < live.len() && (#[trigger] live[i]).info.pid == pid
    } else if ports.len() == 0 && pids.len() == 0 {
        live.len() == 1 && live[0].info.pid == pid
    } else {
        by_ports(live, ports, pid) || pids.contains(pid)
    }
}

/// The pid of the first server on one of the ports.
pub open spec fn by_ports(live: Seq<Instance>, ports: Seq<u16>, pid: u32) -> bool {
    exists|k: int|
        0 <= k < ports.len() && instances::port_place(live, #[trigger] ports[k]) is Some && live[instances::port_place(
            live,
            ports[k],
        )->0].info.pid == pid
}

/// What is wrong with how servers were named: the first port, else the first
/// pid, that no server has; else that several run and none was named.
pub open spec fn stop_refused(live: Seq<Instance>, all: bool, ports: Seq<u16>, pids: Seq<u32>) -> bool {
    !all && ((exists|k: int| 0 <= k < ports.len() && instances::port_place(live, #[trigger] ports[k]) is None) || (
    exists|k: int| 0 <= k < pids.len() && pid_place(live, #[trigger] pids[k]) is None) || (ports.len() == 0
        && pids.len() == 0 && live.len() > 1))
}

/// The error is the first that is wrong.
pub open spec fn stop_says(
    e: StopError,
    live: Seq<Instance>,
    ports: Seq<u16>,
    pids: Seq<u32>,
) -> bool {
    match e {
        StopError::Port(p) => exists|k: int|
            0 <= k < ports.len() && #[trigger] ports[k] == p && instances::port_place(live, p) is None && forall|j: int|
                0 <= j < k ==> instances::port_place(live, #[trigger] ports[j]) is Some,
        StopError::Pid(p) => (forall|j: int|
            0 <= j < ports.len() ==> instances::port_place(live, #[trigger] ports[j]) is Some) && exists|k: int|
            0 <= k < pids.len() && #[trigger] pids[k] == p && pid_place(live, p) is None && forall|j: int|
                0 <= j < k ==> pid_place(live, #[trigger] pids[j]) is Some,
        StopError::Many => ports.len() == 0 && pids.len() == 0 && live.len() > 1,
    }
}

/// Add the pids of all instances.
fn all_pids(live: &Vec<Instance>) -> (r: Vec<u32>)
    ensures
        increasing(r@),
        forall|y: u32|
            #[trigger] r@.contains(y) <==> exists|i: int| 0 <= i < live@.len() && (#[trigger] live@[i]).info.pid == y,
{
    let mut r: Vec<u32> = Vec::new();
    let mut i: usize = 0;
    while i < live.len()
        invariant
            i <= live@.len(),
            increasing(r@),
            forall|y: u32|
                #[trigger] r@.contains(y) <==> exists|k: int| 0 <= k < i && (#[trigger] live@[k]).info.pid == y,
        decreases live@.len() - i,
    {
        let ghost r0 = r@;
        insert(&mut r, live[i].info.pid);
        proof {
            assert forall|y: u32| #[trigger] r@.contains(y) <==> exists|k: int|
                0 <= k < i + 1 && (#[trigger] live@[k]).info.pid == y by {
                if r0.contains(y) {
                    let k = choose|k: int| 0 <= k < i && (#[trigger] live@[k]).info.pid == y;
                    assert(live@[k].info.pid == y);
                }
                if exists|k: int| 0 <= k < i + 1 && (#[trigger] live@[k]).info.pid == y {
                    let k = choose|k: int| 0 <= k < i + 1 && (#[trigger] live@[k]).info.pid == y;
                    if k < i {
                        assert(live@[k].info.pid == y);
                        assert(r0.contains(y));
                    }
                }
                assert(live@[i as int].info.pid == live@[i as int].info.pid);
            }
        }
        i += 1;
    }
    r
}

/// Pick the servers to stop, by pid.
pub fn targets(live: &Vec<Instance>, all: bool, ports: &Vec<u16>, pids: &Vec<u32>) -> (r: Result<Vec<u32>, StopError>)
    ensures
        match r {
            Ok(ts) => {
                &&& !stop_refused(live@, all, ports@, pids@)
                &&& increasing(ts@)
                &&& forall|y: u32| #[trigger] ts@.contains(y) <==> wanted(live@, all, ports@, pids@, y)
            },
            Err(e) => stop_refused(live@, all, ports@, pids@) && stop_says(e, live@, ports@, pids@),
        },
{
    if all {
        return Ok(all_pids(live));
    }
    let mut ts: Vec<u32> = Vec::new();
    let mut i: usize = 0;
    while i < ports.len()
        invariant
            i <= ports@.len(),
            !all,
            increasing(ts@),
            forall|k: int| 0 <= k < i ==> instances::port_place(live@, #[trigger] ports@[k]) is Some,
            forall|y: u32| #[trigger] ts@.contains(y) <==> by_ports(live@, ports@.take(i as int), y),
        decreases ports@.len() - i,
    {
        let ghost (t0, a, b) = (ts@, ports@.take(i as int), ports@.take(i + 1));
        match instances::on_port(live, ports[i]) {
            Some(x) => {
                insert(&mut ts, x.info.pid);
                proof {
                    assert(b[i as int] == ports@[i as int]);
                    assert forall|y: u32| #[trigger] ts@.contains(y) <==> by_ports(live@, b, y) by {
                        assert(t0.contains(y) <==> by_ports(live@, a, y));
                        if by_ports(live@, a, y) {
                            let k = choose|k: int|
                                0 <= k < a.len() && instances::port_place(live@, #[trigger] a[k]) is Some
                                    && live@[instances::port_place(live@, a[k])->0].info.pid == y;
                            assert(b[k] == a[k]);
                        }
                        if by_ports(live@, b, y) {
                            let k = choose|k: int|
                                0 <= k < b.len() && instances::port_place(live@, #[trigger] b[k]) is Some
                                    && live@[instances::port_place(live@, b[k])->0].info.pid == y;
                            if k < i {
                                assert(a[k] == b[k]);
                                assert(by_ports(live@, a, y));
                            }
                        }
                    }
                }
            },
            None => {
                proof {
                    assert(instances::port_place(live@, ports@[i as int]) is None);
                }
                return Err(StopError::Port(ports[i]));
            },
        }
        i += 1;
    }
    proof {
        assert(ports@.take(i as int) =~= ports@);
    }
    let mut j: usize = 0;
    while j < pids.len()
        invariant
            j <= pids@.len(),
            !all,
            increasing(ts@),
            forall|k: int| 0 <= k < ports@.len() ==> instances::port_place(live@, #[trigger] ports@[k]) is Some,
            forall|k: int| 0 <= k < j ==> pid_place(live@, #[trigger] pids@[k]) is Some,
            forall|y: u32|
                #[trigger] ts@.contains(y) <==> by_ports(live@, ports@, y) || pids@.take(j as int).contains(y),
        decreases pids@.len() - j,
    {
        let ghost (t0, a, b) = (ts@, pids@.take(j as int), pids@.take(j + 1));
        match with_pid(live, pids[j]) {
            Some(x) => {
                insert(&mut ts, x.info.pid);
                proof {
                    assert(b =~= a.push(pids@[j as int]));
                    assert forall|y: u32| #[trigger] ts@.contains(y) <==> by_ports(live@, ports@, y) || b.contains(y) by {
                        assert(b[j as int] == pids@[j as int]);
                        if a.contains(y) {
                            let k = choose|k: int| 0 <= k < a.len() && a[k] == y;
                            assert(b[k] == y);
                        }
                        if b.contains(y) {
                            let k = choose|k: int| 0 <= k < b.len() && b[k] == y;
                            if k < j {
                                assert(a[k] == y);
                            }
                        }
                    }
                }
            },
            None => {
                proof {
                    assert(pid_place(live@, pids@[j as int]) is None);
                }
                return Err(StopError::Pid(pids[j]));
            },
        }
        j += 1;
    }
    proof {
        assert(pids@.take(j as int) =~= pids@);
    }
    if ports.len() == 0 && pids.len() == 0 {
        if live.len() > 1 {
            return Err(StopError::Many);
        }
        if live.len() == 1 {
            insert(&mut ts, live[0].info.pid);
        }
        proof {
            assert forall|y: u32| #[trigger] ts@.contains(y) <==> wanted(live@, all, ports@, pids@, y) by {}
        }
    }
    Ok(ts)
}

/// What to do with a server that is to be stopped.
pub enum Stop {
    /// Leave it, and say why.
    Leave(String),
    /// End its process.
    End,
}

/// Why a server is left alone.
pub open spec fn left_alone(i: Instance, force: bool, is_snap: bool) -> Option<Seq<char>> {
    if i.info.pid == 0 {
        Some(
            ":"@ + text::digits(i.info.port as nat)
                + " is serving but not tracked (started outside this snap) — kill it manually"@,
        )
    } else if !force && !(i.state is Serving || is_snap) {
        Some(
            "pid "@ + text::digits(i.info.pid as nat)
                + " isn't verified as a snap server (pid reuse?) — `--force` to kill anyway"@,
        )
    } else {
        None
    }
}

/// What to do with a server: one that no record tells of is left, and so is one
/// that is not known to be a server, unless forced.
pub fn stop(i: &Instance, force: bool, is_snap: bool) -> (r: Stop)
    ensures
        match r {
            Stop::Leave(m) => left_alone(*i, force, is_snap) == Some(m@),
            Stop::End => left_alone(*i, force, is_snap) is None,
        },
{
    if i.info.pid == 0 {
        Stop::Leave(
            ":".to_owned().concat(text::decimal(i.info.port as u64).as_str()).concat(
                " is serving but not tracked (started outside this snap) — kill it manually",
            ),
        )
    } else if !force && !instances::confirmed(i, is_snap) {
        Stop::Leave(
            "pid ".to_owned().concat(text::decimal(i.info.pid as u64).as_str()).concat(
                " isn't verified as a snap server (pid reuse?) — `--force` to kill anyway",
            ),
        )
    } else {
        Stop::End
    }
}

/// No process but that of a confirmed server ends without force, and pid 0 never.
pub proof fn law_stop_is_safe(i: Instance, force: bool, is_snap: bool)
    requires
        left_alone(i, force, is_snap) is None,
    ensures
        i.info.pid != 0,
        force || i.state is Serving || is_snap,
{
}

/// What a stop says of how it went.
pub open spec fn stopped_text(i: Instance, gone: bool) -> Seq<char> {
    if gone {
        "stopped :"@ + text::digits(i.info.port as nat) + " (pid "@ + text::digits(i.info.pid as nat) + ")"@
    } else {
        "pid "@ + text::digits(i.info.pid as nat) + " still alive — retry with `--force`"@
    }
}

/// What a stop says of how it went.
pub fn stopped(i: &Instance, gone: bool) -> (r: String)
    ensures
        r@ == stopped_text(*i, gone),
{
    if gone {
        "stopped :".to_owned().concat(text::decimal(i.info.port as u64).as_str()).concat(" (pid ").concat(
            text::decimal(i.info.pid as u64).as_str(),
        ).concat(")")
    } else {
        "pid ".to_owned().concat(text::decimal(i.info.pid as u64).as_str()).concat(
            " still alive — retry with `--force`",
        )
    }
}

/// What a second server on a port is told.
pub open spec fn taken_text(i: Instance, port: u16) -> Seq<char> {
    "snap is already serving on :"@ + text::digits(port as nat) + " ("@ + (if i.info.pid == 0 {
        "untracked"@
    } else {
        "pid "@ + text::digits(i.info.pid as nat)
    }) + ") — `snap stop --port "@ + text::digits(port as nat) + "` or pick another --port"@
}

/// What a second server on a port is told.
pub fn port_taken(i: &Instance, port: u16) -> (r: String)
    ensures
        r@ == taken_text(*i, port),
{
    let who: String = if i.info.pid == 0 {
        "untracked".to_owned()
    } else {
        "pid ".to_owned().concat(text::decimal(i.info.pid as u64).as_str())
    };
    let p: String = text::decimal(port as u64);
    "snap is already serving on :".to_owned().concat(p.as_str()).concat(" (").concat(who.as_str()).concat(
        ") — `snap stop --port ",
    ).concat(p.as_str()).concat("` or pick another --port")
}

/// A text and the spaces that fill it up to a width.
pub open spec fn column(s: Seq<char>, width: int) -> Seq<char> {
    s + lines::fill(s, width) + " "@
}

/// How long a server has been up, by itself or by its record.
pub open spec fn up(i: Instance, now: u64) -> int {
    match i.state {
        State::Serving { uptime_s, .. } => uptime_s as int,
        _ => if now > i.info.started {
            now - i.info.started
        } else {
            0
        },
    }
}

/// The model that a server runs, by itself or by its record.
pub open spec fn shown_model(i: Instance) -> Seq<char> {
    match i.state {
        State::Serving { model, .. } => model@,
        _ => i.info.model@,
    }
}

/// The state of a server in one word.
pub open spec fn state_word(s: State) -> Seq<char> {
    match s {
        State::Serving { .. } => "serving"@,
        State::Starting => "starting"@,
        State::Unresponsive => "unresponsive"@,
    }
}

/// The line of a server in a listing.
pub open spec fn ps_line(i: Instance, now: u64) -> Seq<char> {
    let pid = if i.info.pid == 0 {
        "-"@
    } else {
        text::digits(i.info.pid as nat)
    };
    column(pid, 7) + column(shown_model(i), 15) + column(i.info.host@ + ":"@ + text::digits(i.info.port as nat), 22)
        + column(instances::uptime(up(i, now)), 8) + state_word(i.state)
}

/// The lines of a listing, its head first.
pub open spec fn ps_lines(live: Seq<Instance>, now: u64) -> Seq<Seq<char>> {
    seq![column("PID"@, 7) + column("MODEL"@, 15) + column("ADDRESS"@, 22) + column("UPTIME"@, 8) + "STATE"@]
        + live.map_values(|i: Instance| ps_line(i, now))
}

fn cell(s: &str, width: usize) -> (r: String)
    ensures
        r@ == column(s@, width as int),
{
    lines::pad_right(s, width).concat(" ")
}

fn show_instance(i: &Instance, now: u64) -> (r: String)
    ensures
        r@ == ps_line(*i, now),
{
    let since: u64 = if now > i.info.started {
        now - i.info.started
    } else {
        0
    };
    let (secs, model, word): (u64, &str, &str) = match &i.state {
        State::Serving { uptime_s, model } => (*uptime_s, model.as_str(), "serving"),
        State::Starting => (since, i.info.model.as_str(), "starting"),
        State::Unresponsive => (since, i.info.model.as_str(), "unresponsive"),
    };
    let pid: String = if i.info.pid == 0 {
        "-".to_owned()
    } else {
        text::decimal(i.info.pid as u64)
    };
    let address: String = i.info.host.clone().concat(":").concat(text::decimal(i.info.port as u64).as_str());
    cell(pid.as_str(), 7).concat(cell(model, 15).as_str()).concat(cell(address.as_str(), 22).as_str()).concat(
        cell(fmt_uptime(secs).as_str(), 8).as_str(),
    ).concat(word)
}

/// The lines of a listing, its head first.
pub fn print_ps(live: &Vec<Instance>, now: u64) -> (r: Vec<String>)
    ensures
        text::views(r@) == ps_lines(live@, now),
{
    let ghost all = ps_lines(live@, now);
    let mut r: Vec<String> = Vec::new();
    r.push(
        cell("PID", 7).concat(cell("MODEL", 15).as_str()).concat(cell("ADDRESS", 22).as_str()).concat(
            cell("UPTIME", 8).as_str(),
        ).concat("STATE"),
    );
    proof {
        assert(text::views(r@) =~= all.take(1));
    }
    let mut i: usize = 0;
    while i < live.len()
        invariant
            i <= live@.len(),
            all == ps_lines(live@, now),
            text::views(r@) == all.take(i + 1),
        decreases live@.len() - i,
    {
        let ghost r0 = text::views(r@);
        let l: String = show_instance(&live[i], now);
        let ghost lv = l@;
        r.push(l);
        proof {
            assert(text::views(r@) =~= r0.push(lv));
            assert(all[i + 1] == ps_line(live@[i as int], now));
            assert(all.take(i + 2) =~= all.take(i + 1).push(all[i + 1]));
        }
        i += 1;
    }
    proof {
        assert(all.take(i + 1) =~= all);
    }
    r
}

/// The line of a model in a listing.
pub open spec fn model_line(m: (Seq<char>, Seq<char>, Seq<char>)) -> Seq<char> {
    "  "@ + column(m.0, 14) + m.1 + "/"@ + m.2
}

/// The lines of the tested models.
pub fn model_lines() -> (r: Vec<String>)
    ensures
        text::views(r@) == models::tested().map_values(|m: (Seq<char>, Seq<char>, Seq<char>)| model_line(m)),
{
    let ms: Vec<Model> = models::models();
    let ghost all = models::tested().map_values(|m: (Seq<char>, Seq<char>, Seq<char>)| model_line(m));
    let mut r: Vec<String> = Vec::new();
    let mut i: usize = 0;
    proof {
        assert(text::views(r@) =~= all.take(0));
    }
    while i < ms.len()
        invariant
            i <= ms@.len(),
            models::listed(ms@) == models::tested(),
            all == models::tested().map_values(|m: (Seq<char>, Seq<char>, Seq<char>)| model_line(m)),
            text::views(r@) == all.take(i as int),
        decreases ms@.len() - i,
    {
        let m: &Model = &ms[i];
        let ghost r0 = text::views(r@);
        let l: String = "  ".to_owned().concat(cell(m.name, 14).as_str()).concat(m.repo).concat("/").concat(m.file);
        let ghost lv = l@;
        r.push(l);
        proof {
            assert(models::listed(ms@)[i as int] == (m.name@, m.repo@, m.file@));
            assert(text::views(r@) =~= r0.push(lv));
            assert(all.take(i + 1) =~= all.take(i as int).push(all[i as int]));
        }
        i += 1;
    }
    proof {
        assert(models::listed(ms@).len() == all.len());
        assert(all.take(i as int) =~= all);
    }
    r
}

} // verus!
