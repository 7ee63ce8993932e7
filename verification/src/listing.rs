//! What the registry and the command line promise: which process is a server,
//! which one is meant, and what a listing tells of it.
use vstd::prelude::*;

use crate::commands;
use crate::commands::Start;
use crate::instances;
use crate::instances::{Instance, State};
use crate::lines;
use crate::text;

verus! {

/// A port finds the first server that is on it, and none where none is.
pub proof fn law_on_port(is: Seq<Instance>, port: u16)
    ensures
        match instances::port_place(is, port) {
            Some(i) => 0 <= i < is.len() && is[i].info.port == port && forall|k: int|
                0 <= k < i ==> (#[trigger] is[k]).info.port != port,
            None => forall|k: int| 0 <= k < is.len() ==> (#[trigger] is[k]).info.port != port,
        },
    decreases is.len(),
{
    if is.len() > 0 && is[0].info.port != port {
        let r = is.skip(1);
        law_on_port(r, port);
        assert forall|k: int| 0 < k < is.len() implies is[k] == r[k - 1] by {}
        match instances::port_place(r, port) {
            Some(i) => {
                assert(is[i + 1] == r[i]);
                assert forall|k: int| 0 <= k < i + 1 implies (#[trigger] is[k]).info.port != port by {
                    if k > 0 {
                        assert(r[k - 1].info.port != port);
                    }
                }
            },
            None => {
                assert forall|k: int| 0 <= k < is.len() implies (#[trigger] is[k]).info.port != port by {
                    if k > 0 {
                        assert(r[k - 1].info.port != port);
                    }
                }
            },
        }
    }
}

/// A pid finds the first server that has it, and none where none has.
pub proof fn law_with_pid(is: Seq<Instance>, pid: u32)
    ensures
        match commands::pid_place(is, pid) {
            Some(i) => 0 <= i < is.len() && is[i].info.pid == pid && forall|k: int|
                0 <= k < i ==> (#[trigger] is[k]).info.pid != pid,
            None => forall|k: int| 0 <= k < is.len() ==> (#[trigger] is[k]).info.pid != pid,
        },
    decreases is.len(),
{
    if is.len() > 0 && is[0].info.pid != pid {
        let r = is.skip(1);
        law_with_pid(r, pid);
        match commands::pid_place(r, pid) {
            Some(i) => {
                assert(is[i + 1] == r[i]);
                assert forall|k: int| 0 <= k < i + 1 implies (#[trigger] is[k]).info.pid != pid by {
                    if k > 0 {
                        assert(r[k - 1].info.pid != pid);
                    }
                }
            },
            None => {
                assert forall|k: int| 0 <= k < is.len() implies (#[trigger] is[k]).info.pid != pid by {
                    if k > 0 {
                        assert(r[k - 1].info.pid != pid);
                    }
                }
            },
        }
    }
}

/// Only servers that run are stopped: whichever pid is wanted is that of one,
/// unless what was asked for is refused.
pub proof fn law_targets_run(live: Seq<Instance>, all: bool, ports: Seq<u16>, pids: Seq<u32>, pid: u32)
    requires
        !commands::stop_refused(live, all, ports, pids),
        commands::wanted(live, all, ports, pids, pid),
    ensures
        exists|i: int| 0 <= i < live.len() && (#[trigger] live[i]).info.pid == pid,
        !all ==> (ports.len() == 0 && pids.len() == 0 && live.len() == 1) || pids.contains(pid) || exists|i: int|
            0 <= i < live.len() && (#[trigger] live[i]).info.pid == pid && ports.contains(live[i].info.port),
{
    if !all && !(ports.len() == 0 && pids.len() == 0) {
        if commands::by_ports(live, ports, pid) {
            let k = choose|k: int|
                0 <= k < ports.len() && instances::port_place(live, #[trigger] ports[k]) is Some
                    && live[instances::port_place(live, ports[k])->0].info.pid == pid;
            law_on_port(live, ports[k]);
            let i = instances::port_place(live, ports[k])->0;
            assert(live[i].info.pid == pid);
            assert(ports.contains(live[i].info.port));
        } else {
            let k = choose|k: int| 0 <= k < pids.len() && pids[k] == pid;
            law_with_pid(live, pids[k]);
            assert(commands::pid_place(live, pids[k]) is Some);
            assert(live[commands::pid_place(live, pid)->0].info.pid == pid);
        }
    } else if !all {
        assert(live[0].info.pid == pid);
    }
}

/// A server that is tracked and known to be one ends when told to; one that is
/// not known ends by force alone, and one that is not tracked never.
pub proof fn law_stop(i: Instance, force: bool, is_snap: bool)
    ensures
        commands::left_alone(i, force, is_snap) is None <==> i.info.pid != 0 && (force || i.state is Serving || is_snap),
{
}

/// A host that servers are asked at can be connected to: it is the one that was
/// bound, unless that stands for all of them.
pub proof fn law_reachable(host: Seq<char>)
    ensures
        instances::reachable(host) != "0.0.0.0"@,
        instances::reachable(host) != "::"@,
        instances::reachable(host).len() > 0,
        host.len() > 0 && host != "0.0.0.0"@ && host != "::"@ ==> instances::reachable(host) == host,
        instances::reachable(instances::reachable(host)) == instances::reachable(host),
{
    reveal_strlit("0.0.0.0");
    reveal_strlit("::");
    reveal_strlit("");
    reveal_strlit("127.0.0.1");
    assert("0.0.0.0"@.len() == 7 && "::"@.len() == 2 && ""@.len() == 0 && "127.0.0.1"@.len() == 9);
    if host.len() == 0 {
        assert(host =~= ""@);
    }
}

/// The words of a text hold no white space, none is empty, and each stands in
/// the text.
pub proof fn law_words(s: Seq<char>, i: int)
    requires
        0 <= i < instances::words(s).len(),
    ensures
        instances::words(s)[i].len() > 0,
        forall|k: int| 0 <= k < instances::words(s)[i].len() ==> !text::space(#[trigger] instances::words(s)[i][k]),
        text::holds(s, instances::words(s)[i]),
    decreases s.len(),
{
    let t = text::trimmed_start(s);
    instances::lemma_trimmed(s);
    instances::lemma_trimmed(t);
    let n = instances::word_end(t);
    let w = instances::words(s);
    lemma_tail(s);
    let lead = s.take(s.len() - t.len());
    assert(s =~= lead + t);
    if i == 0 {
        assert(w[0] == t.take(n));
        lemma_word(t);
        assert(s =~= lead + t.take(n) + t.skip(n));
        text::lemma_holds(lead, t.take(n), t.skip(n));
    } else {
        assert(w[i] == instances::words(t.skip(n))[i - 1]);
        law_words(t.skip(n), i - 1);
        assert(s =~= (lead + t.take(n)) + t.skip(n) + Seq::empty());
        text::lemma_holds_in(lead + t.take(n), t.skip(n), Seq::empty(), w[i]);
    }
}

proof fn lemma_tail(s: Seq<char>)
    ensures
        text::trimmed_start(s).len() <= s.len(),
        text::trimmed_start(s) == s.skip(s.len() - text::trimmed_start(s).len()),
    decreases s.len(),
{
    if s.len() > 0 && text::space(s[0]) {
        lemma_tail(s.skip(1));
        let t = text::trimmed_start(s.skip(1));
        assert(s.skip(1).skip(s.len() - 1 - t.len()) =~= s.skip(s.len() - t.len()));
    } else {
        assert(s.skip(0) =~= s);
    }
}

proof fn lemma_word(t: Seq<char>)
    ensures
        0 <= instances::word_end(t) <= t.len(),
        forall|k: int| 0 <= k < instances::word_end(t) ==> !text::space(#[trigger] t[k]),
        instances::word_end(t) < t.len() ==> text::space(t[instances::word_end(t)]),
    decreases t.len(),
{
    if t.len() > 0 && !text::space(t[0]) {
        let r = t.skip(1);
        lemma_word(r);
        assert forall|k: int| 0 <= k < instances::word_end(t) implies !text::space(#[trigger] t[k]) by {
            if k > 0 {
                assert(t[k] == r[k - 1]);
            }
        }
        if instances::word_end(t) < t.len() {
            assert(t[instances::word_end(t)] == r[instances::word_end(r)]);
        }
    }
}

/// The last part of a path is what follows its last separator, and holds none.
pub proof fn law_base_name(s: Seq<char>)
    ensures
        instances::base_name(s).is_suffix_of(s),
        !instances::base_name(s).contains('/'),
        !instances::base_name(s).contains('\\'),
        instances::base_name(s).len() < s.len() ==> {
            let c = s[s.len() - instances::base_name(s).len() - 1];
            c == '/' || c == '\\'
        },
    decreases s.len(),
{
    let b = instances::base_name(s);
    if s.len() == 0 {
        assert(s.subrange(0, 0) =~= s);
    } else if s.last() == '/' || s.last() == '\\' {
        assert(b =~= s.subrange(s.len() as int, s.len() as int));
    } else {
        let d = s.drop_last();
        law_base_name(d);
        let p = instances::base_name(d);
        assert(p =~= d.subrange(d.len() - p.len(), d.len() as int));
        assert(b =~= s.subrange(s.len() - b.len(), s.len() as int));
        assert forall|k: int| 0 <= k < b.len() implies b[k] != '/' && b[k] != '\\' by {
            if k < p.len() {
                assert(p.contains(p[k]));
            }
        }
    }
}

proof fn lemma_exe()
    ensures
        text::holds("snap.exe"@, "snap"@),
        text::holds("snap"@, "snap"@),
{
    reveal_strlit("snap.exe");
    reveal_strlit("snap");
    let e = Seq::<char>::empty();
    let x = "snap.exe"@;
    assert(x =~= e + "snap"@ + x.skip(4));
    text::lemma_holds(e, "snap"@, x.skip(4));
    assert("snap"@ =~= e + "snap"@ + e);
    text::lemma_holds(e, "snap"@, e);
}

/// The end of a text stands in it.
proof fn lemma_suffix_holds(p: Seq<char>, b: Seq<char>)
    requires
        b.is_suffix_of(p),
    ensures
        text::holds(p, b),
{
    let (lead, e) = (p.take(p.len() - b.len()), Seq::<char>::empty());
    assert(p =~= lead + b + e);
    text::lemma_holds(lead, b, e);
}

/// The program that a server's command line runs.
proof fn lemma_program(p: Seq<char>)
    requires
        instances::base_name(p) == "snap"@ || instances::base_name(p) == "snap.exe"@,
    ensures
        "snap"@.is_suffix_of(p) || "snap.exe"@.is_suffix_of(p),
        text::holds(p, "snap"@),
{
    law_base_name(p);
    let b = instances::base_name(p);
    lemma_suffix_holds(p, b);
    lemma_exe();
    text::lemma_holds_through(p, b, "snap"@);
}

/// A command line that runs no program of this name, or asks it for anything but
/// to serve, is not taken for a server's.
pub proof fn law_serves(cmd: Seq<char>)
    requires
        instances::serves(cmd),
    ensures
        instances::words(cmd).len() > 1,
        instances::words(cmd).contains("serve"@),
        "snap"@.is_suffix_of(instances::words(cmd)[0]) || "snap.exe"@.is_suffix_of(instances::words(cmd)[0]),
        text::holds(cmd, "snap"@),
        text::holds(cmd, "serve"@),
{
    let w = instances::words(cmd);
    let i = choose|i: int| 0 < i < w.len() && #[trigger] w[i] == "serve"@;
    assert(w[i] == "serve"@);
    law_words(cmd, i);
    law_words(cmd, 0);
    lemma_program(w[0]);
    text::lemma_holds_through(cmd, w[0], "snap"@);
}

/// An uptime tells how long it has been in its two largest units, rounded down.
pub proof fn law_uptime(s: nat)
    ensures
        s < 60 ==> instances::uptime(s as int) == text::digits(s) + "s"@,
        60 <= s < 3600 ==> exists|m: nat|
            instances::uptime(s as int) == #[trigger] text::digits(m) + "m"@ && m * 60 <= s < m * 60 + 60,
        3600 <= s < 86400 ==> exists|h: nat, m: nat|
            instances::uptime(s as int) == #[trigger] text::digits(h) + "h "@ + #[trigger] text::digits(m) + "m"@ && m < 60
                && h * 3600 + m * 60 <= s < h * 3600 + m * 60 + 60,
        86400 <= s ==> exists|d: nat, h: nat|
            instances::uptime(s as int) == #[trigger] text::digits(d) + "d "@ + #[trigger] text::digits(h) + "h"@ && h < 24
                && d * 86400 + h * 3600 <= s < d * 86400 + h * 3600 + 3600,
{
    if 60 <= s < 3600 {
        let m = s / 60;
        assert(instances::uptime(s as int) == text::digits(m) + "m"@);
    } else if 3600 <= s < 86400 {
        let (h, m) = (s / 3600, s % 3600 / 60);
        assert(instances::uptime(s as int) == text::digits(h) + "h "@ + text::digits(m) + "m"@);
    } else if 86400 <= s {
        let (d, h) = (s / 86400, s % 86400 / 3600);
        assert(instances::uptime(s as int) == text::digits(d) + "d "@ + text::digits(h) + "h"@);
    }
}

/// Each part of a text in five stands in it, the first at its start and the last
/// at its end.
proof fn lemma_five(a: Seq<char>, b: Seq<char>, c: Seq<char>, d: Seq<char>, e: Seq<char>)
    ensures
        ({
            let t = a + b + c + d + e;
            &&& a.is_prefix_of(t)
            &&& text::holds(t, b)
            &&& text::holds(t, c)
            &&& text::holds(t, d)
            &&& e.is_suffix_of(t)
        }),
{
    let t = a + b + c + d + e;
    assert(a =~= t.subrange(0, a.len() as int));
    assert(t =~= a + b + (c + d + e));
    text::lemma_holds(a, b, c + d + e);
    assert(t =~= (a + b) + c + (d + e));
    text::lemma_holds(a + b, c, d + e);
    text::lemma_holds(a + b + c, d, e);
    assert(e =~= t.subrange(t.len() - e.len(), t.len() as int));
}

/// A cell starts with what it shows.
proof fn lemma_cell(s: Seq<char>, width: int)
    ensures
        s.is_prefix_of(commands::column(s, width)),
        text::holds(commands::column(s, width), s),
{
    let c = commands::column(s, width);
    let rest = lines::fill(s, width) + " "@;
    assert(c =~= Seq::empty() + s + rest);
    text::lemma_holds(Seq::empty(), s, rest);
    assert(s =~= c.subrange(0, s.len() as int));
}

/// A server is known by the model that it says it runs, for as long as it says
/// it has been up; one that does not answer, by its record.
pub proof fn law_known(i: Instance, now: u64)
    ensures
        i.state matches State::Serving { uptime_s, model } ==> commands::up(i, now) == uptime_s && commands::shown_model(i)
            == model@ && commands::state_word(i.state) == "serving"@,
        !(i.state is Serving) ==> commands::shown_model(i) == i.info.model@,
        !(i.state is Serving) && now >= i.info.started ==> commands::up(i, now) == now - i.info.started,
        i.state is Starting ==> commands::state_word(i.state) == "starting"@,
        i.state is Unresponsive ==> commands::state_word(i.state) == "unresponsive"@,
{
}

/// The line of a server shows its pid first, its model, its address, how long it
/// has been up, and its state last.
pub proof fn law_listed(i: Instance, now: u64)
    ensures
        ({
            let l = commands::ps_line(i, now);
            &&& i.info.pid != 0 ==> text::digits(i.info.pid as nat).is_prefix_of(l)
            &&& text::holds(l, commands::shown_model(i))
            &&& text::holds(l, i.info.host@ + ":"@ + text::digits(i.info.port as nat))
            &&& text::holds(l, instances::uptime(commands::up(i, now)))
            &&& commands::state_word(i.state).is_suffix_of(l)
        }),
{
    let l = commands::ps_line(i, now);
    let pid = if i.info.pid == 0 {
        "-"@
    } else {
        text::digits(i.info.pid as nat)
    };
    let (m, a, u, w) = (
        commands::shown_model(i),
        i.info.host@ + ":"@ + text::digits(i.info.port as nat),
        instances::uptime(commands::up(i, now)),
        commands::state_word(i.state),
    );
    let (c1, c2, c3, c4) = (
        commands::column(pid, 7),
        commands::column(m, 15),
        commands::column(a, 22),
        commands::column(u, 8),
    );
    lemma_cell(pid, 7);
    lemma_cell(m, 15);
    lemma_cell(a, 22);
    lemma_cell(u, 8);
    lemma_five(c1, c2, c3, c4, w);
    text::lemma_holds_through(l, c2, m);
    text::lemma_holds_through(l, c3, a);
    text::lemma_holds_through(l, c4, u);
    lemma_prefix(pid, c1, l);
}

proof fn lemma_prefix(a: Seq<char>, b: Seq<char>, c: Seq<char>)
    requires
        a.is_prefix_of(b),
        b.is_prefix_of(c),
    ensures
        a.is_prefix_of(c),
{
    assert(a =~= c.subrange(0, a.len() as int));
}

/// Every server has its line in a listing, below the head, in order.
pub proof fn law_ps(live: Seq<Instance>, now: u64)
    ensures
        commands::ps_lines(live, now).len() == live.len() + 1,
        forall|k: int| 0 <= k < live.len() ==> commands::ps_lines(live, now)[k + 1] == commands::ps_line(#[trigger] live[k], now),
{
}

/// A stop that went well names what it stopped; one that did not, what is still
/// there. A port that is taken is named, with who has it.
pub proof fn law_told(i: Instance, port: u16)
    ensures
        text::holds(commands::stopped_text(i, true), text::digits(i.info.port as nat)),
        text::holds(commands::stopped_text(i, true), text::digits(i.info.pid as nat)),
        text::holds(commands::stopped_text(i, false), text::digits(i.info.pid as nat)),
        text::holds(commands::taken_text(i, port), text::digits(port as nat)),
        i.info.pid != 0 ==> text::holds(commands::taken_text(i, port), text::digits(i.info.pid as nat)),
        commands::stopped_text(i, true) != commands::stopped_text(i, false),
{
    let (p, d) = (text::digits(i.info.port as nat), text::digits(i.info.pid as nat));
    let t = commands::stopped_text(i, true);
    assert(t =~= "stopped :"@ + p + (" (pid "@ + d + ")"@));
    text::lemma_holds("stopped :"@, p, " (pid "@ + d + ")"@);
    assert(t =~= ("stopped :"@ + p + " (pid "@) + d + ")"@);
    text::lemma_holds("stopped :"@ + p + " (pid "@, d, ")"@);
    let u = commands::stopped_text(i, false);
    text::lemma_holds("pid "@, d, " still alive — retry with `--force`"@);
    reveal_strlit("stopped :");
    reveal_strlit("pid ");
    assert(t[0] == 's' && u[0] == 'p');
    let q = text::digits(port as nat);
    let who = if i.info.pid == 0 {
        "untracked"@
    } else {
        "pid "@ + d
    };
    let (h, e) = ("snap is already serving on :"@, ") — `snap stop --port "@ + q + "` or pick another --port"@);
    let k = commands::taken_text(i, port);
    assert(k =~= h + q + (" ("@ + who + e));
    text::lemma_holds(h, q, " ("@ + who + e);
    if i.info.pid != 0 {
        assert(k =~= (h + q + " ("@ + "pid "@) + d + e);
        text::lemma_holds(h + q + " ("@ + "pid "@, d, e);
    }
}

/// What the program does follows from what it was given: it runs a subcommand
/// only where nothing is mixed in, answers a request only in print mode, and
/// whatever it refuses it gives a reason for.
pub proof fn law_start(command: bool, print: bool, request: bool, terminal: bool, flags: bool)
    ensures
        ({
            let s = commands::started(command, print, request, terminal, flags);
            &&& s == Start::Command <==> command && !print && !request && !flags
            &&& s == Start::Print <==> !command && print
            &&& s == Start::Help <==> !command && !print && !request && terminal
            &&& commands::start_error(s) is Some <==> s != Start::Command && s != Start::Print && s != Start::Help
            &&& command && (print || request) ==> s == Start::PrintWithCommand
            &&& !command && !print && request ==> s == Start::LooseRequest
            &&& !command && !print && !request && !terminal ==> s == Start::Piped
            &&& command && !print && !request && flags ==> s == Start::LooseFlags
        }),
{
}

} // verus!
