//! Instance registry: a server drops a record at startup so that others can
//! find it from another terminal. Records self-clean: a dead pid means a dead
//! server, so stale records are removed on every read. Files, sockets and
//! signals are handled elsewhere; what they mean is decided here.
use vstd::prelude::*;
use vstd::slice::slice_subrange;

use crate::text;
use crate::value;
use crate::value::Value;

verus! {

pub const DEFAULT_PORT: u16 = 8018;

/// How long a server may take to start, in seconds.
pub const STARTUP_S: u64 = 300;

/// A record: enough to render a listing without touching the socket.
pub struct Info {
    pub pid: u32,
    pub host: String,
    pub port: u16,
    pub model: String,
    /// unix seconds at start
    pub started: u64,
    pub version: String,
}

/// What a live record resolves to right now.
pub enum State {
    /// answers: uptime and model from the server itself (hot-swap aware)
    Serving { uptime_s: u64, model: String },
    /// pid alive, port not answering yet: model still loading
    Starting,
    /// pid alive but port has not answered for too long: wedged
    Unresponsive,
}

pub struct Instance {
    pub info: Info,
    pub state: State,
}

/// Where pidfiles live.
pub enum RunDir {
    /// the directory that was named for it
    Named(String),
    /// `snap` under the user's runtime directory, which is gone after a reboot
    Runtime(String),
    /// `.snap/run` under the user's home
    Home(String),
    /// `snap` under the directory for temporary files
    Temporary,
}

/// The directory of pidfiles, from SNAP_RUN_DIR, XDG_RUNTIME_DIR, HOME and
/// USERPROFILE: the first that is set.
pub fn run_dir(named: Option<String>, runtime: Option<String>, home: Option<String>, profile: Option<String>) -> (r: RunDir)
    ensures
        r == match (named, runtime, home, profile) {
            (Some(d), _, _, _) => RunDir::Named(d),
            (None, Some(d), _, _) => RunDir::Runtime(d),
            (None, None, Some(d), _) => RunDir::Home(d),
            (None, None, None, Some(d)) => RunDir::Home(d),
            (None, None, None, None) => RunDir::Temporary,
        },
{
    if let Some(d) = named {
        return RunDir::Named(d);
    }
    if let Some(d) = runtime {
        return RunDir::Runtime(d);
    }
    if let Some(d) = home {
        return RunDir::Home(d);
    }
    match profile {
        Some(d) => RunDir::Home(d),
        None => RunDir::Temporary,
    }
}

/// The name of a record's file.
pub fn file_for(pid: u32) -> (r: String)
    ensures
        r@ == text::digits(pid as nat) + ".json"@,
{
    text::decimal(pid as u64).concat(".json")
}

/// Whether a file may be a record, by the extension of its name.
pub fn is_record(extension: Option<&str>) -> (r: bool)
    ensures
        r == match extension {
            Some(x) => x@ == "json"@,
            None => true,
        },
{
    match extension {
        Some(x) => text::same(x, "json"),
        None => true,
    }
}

/// A record that cannot be read, or whose process is gone, is removed.
pub fn is_stale(pid: Option<u32>, alive: bool) -> (r: bool)
    ensures
        r == (pid is None || !alive),
{
    pid.is_none() || !alive
}

/// A process that started then may still be loading.
pub open spec fn may_load(now: int, started: int) -> bool {
    now < started + STARTUP_S
}

/// A process that does not answer is starting at first, unresponsive in the end,
/// and does not go back.
pub proof fn law_may_load(now: int, later: int, started: int)
    requires
        now <= later,
    ensures
        may_load(started, started),
        may_load(later, started) ==> may_load(now, started),
        may_load(started + 5 * 60 - 1, started),
        !may_load(started + 5 * 60, started),
{
}

/// What a live process is: serving where it answered, else starting for as long
/// as that may take.
pub fn state_of(answer: Option<(String, u64)>, now: u64, started: u64) -> (r: State)
    ensures
        r is Serving <==> answer is Some,
        r is Starting <==> answer is None && may_load(now as int, started as int),
        match answer {
            Some((model, uptime_s)) => r == (State::Serving { uptime_s, model }),
            None => if now - started < STARTUP_S {
                r is Starting
            } else {
                r is Unresponsive
            },
        },
{
    match answer {
        Some((model, uptime_s)) => State::Serving { uptime_s, model },
        None => if now < started || now - started < STARTUP_S {
            State::Starting
        } else {
            State::Unresponsive
        },
    }
}

/// A wildcard bind cannot be connected to: loopback stands in for it.
pub open spec fn reachable(host: Seq<char>) -> Seq<char> {
    if host == "0.0.0.0"@ || host == "::"@ || host == ""@ {
        "127.0.0.1"@
    } else {
        host
    }
}

/// The host to ask for a server bound to `host`.
pub fn probe_host<'a>(host: &'a str) -> (r: &'a str)
    ensures
        r@ == reachable(host@),
{
    if text::same(host, "0.0.0.0") || text::same(host, "::") || text::same(host, "") {
        "127.0.0.1"
    } else {
        host
    }
}

/// The model that a health answer names: by name, else by model, else unknown.
pub open spec fn health_model(v: value::Json) -> Seq<char> {
    let j = match value::lookup(v, "name"@) {
        Some(x) => x,
        None => value::index(v, "model"@),
    };
    match value::text_in(j) {
        Some(t) => t,
        None => "?"@,
    }
}

/// What a health answer says: model and uptime; nothing unless all is well.
pub fn health(v: &Value) -> (r: Option<(String, u64)>)
    ensures
        match r {
            Some((model, uptime)) => {
                &&& value::text_in(value::index(v@, "status"@)) == Some("ok"@)
                &&& model@ == health_model(v@)
                &&& uptime == match value::unsigned_in(value::index(v@, "uptime_s"@)) {
                    Some(n) => n,
                    None => 0,
                }
            },
            None => value::text_in(value::index(v@, "status"@)) != Some("ok"@),
        },
{
    let ok: bool = match value::str_at(v, "status") {
        Some(s) => text::same(s, "ok"),
        None => false,
    };
    if !ok {
        return None;
    }
    let named: Option<&Value> = match value::look(v, "name") {
        Some(x) => Some(x),
        None => value::look(v, "model"),
    };
    let model: String = match named {
        Some(x) => match x {
            Value::Str(s) => s.clone(),
            _ => "?".to_owned(),
        },
        None => "?".to_owned(),
    };
    let uptime: u64 = match value::unsigned_at(v, "uptime_s") {
        Some(n) => n,
        None => 0,
    };
    Some((model, uptime))
}

/// The place of the first instance on a port.
pub open spec fn port_place(is: Seq<Instance>, port: u16) -> Option<int>
    decreases is.len(),
{
    if is.len() == 0 {
        None
    } else if is[0].info.port == port {
        Some(0)
    } else {
        match port_place(is.skip(1), port) {
            Some(i) => Some(i + 1),
            None => None,
        }
    }
}

/// Live server already holding `port`? Checked before the slow model
/// load so a double-start fails in milliseconds, not minutes.
pub fn on_port(is: &Vec<Instance>, port: u16) -> (r: Option<&Instance>)
    ensures
        match r {
            Some(i) => port_place(is@, port) is Some && *i == is@[port_place(is@, port)->0] && i.info.port == port,
            None => port_place(is@, port) is None && forall|k: int|
                0 <= k < is@.len() ==> (#[trigger] is@[k]).info.port != port,
        },
{
    let mut i: usize = 0;
    proof {
        assert(is@.skip(0) =~= is@);
    }
    while i < is.len()
        invariant
            i <= is@.len(),
            forall|k: int| 0 <= k < i ==> (#[trigger] is@[k]).info.port != port,
            port_place(is@, port) == match port_place(is@.skip(i as int), port) {
                Some(k) => Some(k + i),
                None => None,
            },
        decreases is@.len() - i,
    {
        proof {
            assert(is@.skip(i as int).skip(1) =~= is@.skip(i + 1));
        }
        if is[i].info.port == port {
            return Some(&is[i]);
        }
        i += 1;
    }
    None
}

/// A server found on the default port that no record tells of: pid 0, it
/// cannot be stopped.
pub open spec fn is_stray(i: Instance, model: Seq<char>, uptime: u64) -> bool {
    &&& i.info.pid == 0
    &&& i.info.host@ == "127.0.0.1"@
    &&& i.info.port == DEFAULT_PORT
    &&& i.info.model@ == model
    &&& i.info.started == 0
    &&& i.info.version@ == "?"@
    &&& match i.state {
        State::Serving { uptime_s, model: m } => uptime_s == uptime && m@ == model,
        _ => false,
    }
}

/// `is` with `x` after those on its port or a lower one.
pub open spec fn placed(is: Seq<Instance>, x: Instance) -> Seq<Instance>
    decreases is.len(),
{
    if is.len() == 0 || is.last().info.port <= x.info.port {
        is.push(x)
    } else {
        placed(is.drop_last(), x).push(is.last())
    }
}

/// Instances in the order of their ports, those of one port in the order given.
pub open spec fn by_port(is: Seq<Instance>) -> Seq<Instance>
    decreases is.len(),
{
    if is.len() == 0 {
        Seq::empty()
    } else {
        placed(by_port(is.drop_last()), is.last())
    }
}

/// In the order of ports.
pub open spec fn ascending(is: Seq<Instance>) -> bool {
    forall|i: int, j: int| 0 <= i < j < is.len() ==> (#[trigger] is[i]).info.port <= (#[trigger] is[j]).info.port
}

proof fn lemma_placed(is: Seq<Instance>, x: Instance)
    requires
        ascending(is),
    ensures
        ascending(placed(is, x)),
        placed(is, x).to_multiset() =~= is.to_multiset().insert(x),
        placed(is, x).len() == is.len() + 1,
        is.len() > 0 ==> placed(is, x).last().info.port == if is.last().info.port <= x.info.port {
            x.info.port
        } else {
            is.last().info.port
        },
    decreases is.len(),
{
    broadcast use vstd::seq_lib::group_to_multiset_ensures;

    let r = placed(is, x);
    if is.len() == 0 || is.last().info.port <= x.info.port {
        assert forall|i: int, j: int| 0 <= i < j < r.len() implies (#[trigger] r[i]).info.port <= (
        #[trigger] r[j]).info.port by {
            if j == is.len() && i < is.len() - 1 {
                assert(is[i].info.port <= is[is.len() - 1].info.port);
            }
        }
    } else {
        let d = is.drop_last();
        assert(ascending(d)) by {
            assert forall|i: int, j: int| 0 <= i < j < d.len() implies (#[trigger] d[i]).info.port <= (
            #[trigger] d[j]).info.port by {
                assert(is[i].info.port <= is[j].info.port);
            }
        }
        lemma_placed(d, x);
        let p = placed(d, x);
        assert forall|i: int| 0 <= i < p.len() implies (#[trigger] p[i]).info.port <= is.last().info.port by {
            if i < p.len() - 1 {
                assert(p[i].info.port <= p[p.len() - 1].info.port);
            }
            if d.len() > 0 {
                assert(is[d.len() - 1].info.port <= is[is.len() - 1].info.port);
            }
        }
        assert(is =~= d.push(is.last()));
    }
}

/// Ordering by port loses nothing and adds nothing, and no port stands before a
/// lower one.
pub proof fn law_by_port(is: Seq<Instance>)
    ensures
        ascending(by_port(is)),
        by_port(is).to_multiset() =~= is.to_multiset(),
        by_port(is).len() == is.len(),
    decreases is.len(),
{
    broadcast use vstd::seq_lib::group_to_multiset_ensures;

    if is.len() > 0 {
        law_by_port(is.drop_last());
        lemma_placed(by_port(is.drop_last()), is.last());
        assert(is =~= is.drop_last().push(is.last()));
    }
}

fn place(is: &mut Vec<Instance>, x: Instance)
    ensures
        final(is)@ == placed(old(is)@, x),
{
    let ghost o = is@;
    let mut i: usize = is.len();
    proof {
        assert(o.take(i as int) =~= o);
        assert(placed(o, x) =~= placed(o.take(i as int), x) + o.skip(i as int));
    }
    while i > 0 && is[i - 1].info.port > x.info.port
        invariant
            i <= is@.len(),
            is@ == o,
            placed(o, x) == placed(o.take(i as int), x) + o.skip(i as int),
        decreases i,
    {
        proof {
            let t = o.take(i as int);
            assert(t.last() == o[i - 1]);
            assert(t.drop_last() =~= o.take(i - 1));
            assert(placed(t, x) + o.skip(i as int) =~= placed(o.take(i - 1), x) + o.skip(i - 1));
        }
        i -= 1;
    }
    proof {
        let t = o.take(i as int);
        if i > 0 {
            assert(t.last() == o[i - 1]);
        }
        assert(o.insert(i as int, x) =~= t.push(x) + o.skip(i as int));
    }
    is.insert(i, x);
}

/// All registered servers with a live pid, sorted by port. A stray answering on
/// the default port (started before the registry existed) is listed too.
pub fn list(found: Vec<Instance>, stray: Option<(String, u64)>) -> (r: Vec<Instance>)
    ensures
        port_place(found@, DEFAULT_PORT) is Some || stray is None ==> r@ == by_port(found@),
        port_place(found@, DEFAULT_PORT) is None && stray is Some ==> exists|x: Instance|
            #[trigger] is_stray(x, (stray->0).0@, (stray->0).1) && r@ == by_port(found@.push(x)),
{
    let mut found: Vec<Instance> = found;
    let ghost f0 = found@;
    let missing: bool = on_port(&found, DEFAULT_PORT).is_none();
    let mut all: Vec<Instance> = Vec::new();
    let ghost mut whole = f0;
    if missing {
        if let Some((model, uptime_s)) = stray {
            let name: String = model.clone();
            let x: Instance = Instance {
                info: Info {
                    pid: 0,
                    host: "127.0.0.1".to_owned(),
                    port: DEFAULT_PORT,
                    model: name,
                    started: 0,
                    version: "?".to_owned(),
                },
                state: State::Serving { uptime_s, model },
            };
            proof {
                assert(is_stray(x, (stray->0).0@, (stray->0).1));
                whole = f0.push(x);
            }
            found.push(x);
        }
    }
    let n: usize = found.len();
    let mut i: usize = 0;
    proof {
        assert(whole.take(0) =~= Seq::empty());
        assert(whole.skip(0) =~= whole);
    }
    while i < n
        invariant
            i <= n,
            n == whole.len(),
            found@ == whole.skip(i as int),
            all@ == by_port(whole.take(i as int)),
        decreases n - i,
    {
        let x: Instance = found.remove(0);
        proof {
            assert(whole.take(i + 1).drop_last() =~= whole.take(i as int));
            assert(whole.take(i + 1).last() == x);
            assert(found@ =~= whole.skip(i + 1));
        }
        place(&mut all, x);
        i += 1;
    }
    proof {
        assert(whole.take(i as int) =~= whole);
    }
    all
}

/// Where the first word ends.
pub open spec fn word_end(s: Seq<char>) -> int
    decreases s.len(),
{
    if s.len() == 0 || text::space(s[0]) {
        0
    } else {
        1 + word_end(s.skip(1))
    }
}

proof fn lemma_word_end(s: Seq<char>, i: int)
    requires
        0 <= i <= s.len(),
        forall|k: int| 0 <= k < i ==> !text::space(#[trigger] s[k]),
        i < s.len() ==> text::space(s[i]),
    ensures
        word_end(s) == i,
    decreases s.len(),
{
    if i > 0 {
        assert(!text::space(s[0]));
        lemma_word_end(s.skip(1), i - 1);
    }
}

pub proof fn lemma_trimmed(s: Seq<char>)
    ensures
        text::trimmed_start(s).len() <= s.len(),
        text::trimmed_start(s).len() > 0 ==> !text::space(text::trimmed_start(s)[0]),
        0 <= word_end(s) <= s.len(),
        s.len() > 0 && !text::space(s[0]) ==> word_end(s) > 0,
    decreases s.len(),
{
    if s.len() > 0 {
        lemma_trimmed(s.skip(1));
    }
}

/// The words of a text: what stands between white space.
pub open spec fn words(s: Seq<char>) -> Seq<Seq<char>>
    decreases s.len(),
{
    let t = text::trimmed_start(s);
    if t.len() == 0 {
        Seq::empty()
    } else {
        proof {
            lemma_trimmed(s);
            lemma_trimmed(t);
        }
        let n = word_end(t);
        seq![t.take(n)] + words(t.skip(n))
    }
}

/// The words of a text.
pub fn words_of(s: &str) -> (r: Vec<String>)
    ensures
        text::views(r@) == words(s@),
{
    let v: Vec<char> = text::chars_of(s);
    let n: usize = v.len();
    let mut r: Vec<String> = Vec::new();
    let mut at: usize = 0;
    proof {
        assert(v@.skip(0) =~= v@);
        assert(text::views(r@) + words(v@) =~= words(v@));
    }
    loop
        invariant
            at <= n,
            n == v@.len(),
            v@ == s@,
            text::views(r@) + words(v@.skip(at as int)) == words(s@),
        decreases n - at,
    {
        let ghost rest = v@.skip(at as int);
        let t: &[char] = text::trim_start(slice_subrange(v.as_slice(), at, n));
        proof {
            assert(v@.subrange(at as int, n as int) =~= rest);
            lemma_trimmed(rest);
        }
        let m: usize = t.len();
        if m == 0 {
            proof {
                assert(text::views(r@) + words(rest) =~= text::views(r@));
            }
            return r;
        }
        let mut e: usize = 0;
        while e < m && !text::is_space(t[e])
            invariant
                e <= m,
                m == t@.len(),
                forall|k: int| 0 <= k < e ==> !text::space(#[trigger] t@[k]),
            decreases m - e,
        {
            e += 1;
        }
        let ghost r0 = text::views(r@);
        let w: &[char] = slice_subrange(t, 0, e);
        proof {
            lemma_word_end(t@, e as int);
            lemma_trimmed(t@);
            assert(w@ =~= t@.take(e as int));
            lemma_suffix(rest);
            assert(v@.skip(n - m + e) =~= t@.skip(e as int));
        }
        r.push(text::string_of(w));
        proof {
            assert(text::views(r@) =~= r0.push(w@));
            assert(r0.push(w@) + words(t@.skip(e as int)) =~= r0 + (seq![w@] + words(t@.skip(e as int))));
        }
        at = n - m + e;
    }
}

/// What is left of the start of a text is its end.
proof fn lemma_suffix(s: Seq<char>)
    ensures
        text::trimmed_start(s).len() <= s.len(),
        text::trimmed_start(s) == s.skip(s.len() - text::trimmed_start(s).len()),
    decreases s.len(),
{
    if s.len() > 0 && text::space(s[0]) {
        lemma_suffix(s.skip(1));
        let t = text::trimmed_start(s.skip(1));
        assert(s.skip(1).skip(s.len() - 1 - t.len()) =~= s.skip(s.len() - t.len()));
    } else {
        assert(s.skip(0) =~= s);
    }
}

/// A path's last part.
pub open spec fn base_name(s: Seq<char>) -> Seq<char>
    decreases s.len(),
{
    if s.len() == 0 {
        s
    } else if s.last() == '/' || s.last() == '\\' {
        Seq::empty()
    } else {
        base_name(s.drop_last()).push(s.last())
    }
}

fn base_of(s: &[char]) -> (r: &[char])
    ensures
        r@ == base_name(s@),
{
    let mut i: usize = s.len();
    proof {
        assert(s@.take(i as int) =~= s@);
        assert(base_name(s@) =~= base_name(s@.take(i as int)) + s@.skip(i as int));
    }
    while i > 0 && s[i - 1] != '/' && s[i - 1] != '\\'
        invariant
            i <= s@.len(),
            base_name(s@) == base_name(s@.take(i as int)) + s@.skip(i as int),
        decreases i,
    {
        proof {
            let t = s@.take(i as int);
            assert(t.last() == s@[i - 1]);
            assert(t.drop_last() =~= s@.take(i - 1));
            assert(base_name(t) + s@.skip(i as int) =~= base_name(s@.take(i - 1)) + s@.skip(i - 1));
        }
        i -= 1;
    }
    let r: &[char] = slice_subrange(s, i, s.len());
    proof {
        let t = s@.take(i as int);
        if i > 0 {
            assert(t.last() == s@[i - 1]);
        }
        assert(base_name(t) =~= Seq::empty());
        assert(r@ =~= s@.skip(i as int));
    }
    r
}

/// A command line that runs the server: the program is this one, and one of its
/// arguments is `serve`.
pub open spec fn serves(cmd: Seq<char>) -> bool {
    let w = words(cmd);
    &&& w.len() > 0
    &&& base_name(w[0]) == "snap"@ || base_name(w[0]) == "snap.exe"@
    &&& exists|i: int| 0 < i < w.len() && #[trigger] w[i] == "serve"@
}

/// Is this a server's command line? Guards stopping against pid reuse: a stale
/// record pointing at an innocent process must not get it killed.
pub fn cmdline_is_serve(cmd: &str) -> (r: bool)
    ensures
        r == serves(cmd@),
{
    let ws: Vec<String> = words_of(cmd);
    let ghost w = text::views(ws@);
    if ws.len() == 0 {
        return false;
    }
    let bin: Vec<char> = text::chars_of(ws[0].as_str());
    let base: String = text::string_of(base_of(bin.as_slice()));
    proof {
        assert(w[0] == ws@[0]@);
    }
    if !text::same(base.as_str(), "snap") && !text::same(base.as_str(), "snap.exe") {
        return false;
    }
    let mut i: usize = 1;
    while i < ws.len()
        invariant
            1 <= i <= ws@.len(),
            w == text::views(ws@),
            w == words(cmd@),
            base_name(w[0]) == "snap"@ || base_name(w[0]) == "snap.exe"@,
            forall|k: int| 0 < k < i ==> #[trigger] w[k] != "serve"@,
        decreases ws@.len() - i,
    {
        proof {
            assert(w[i as int] == ws@[i as int]@);
        }
        if text::same(ws[i].as_str(), "serve") {
            return true;
        }
        i += 1;
    }
    false
}

/// Servers that answered are known; unresponsive ones need their command line
/// looked at. Anything else requires force to stop.
pub fn confirmed(i: &Instance, is_snap: bool) -> (r: bool)
    ensures
        r == (i.state is Serving || is_snap),
{
    match i.state {
        State::Serving { .. } => true,
        _ => is_snap,
    }
}

/// What to do once a process has been told to end and given its time.
#[derive(Debug, Clone, Copy, PartialEq, Eq, Structural)]
pub enum Ended {
    /// It is gone.
    Gone,
    /// It ignored the polite way: end it by force.
    Force,
    /// It is still there, and nothing is left to try.
    Alive,
}

/// Graceful stop: the polite signal, time to drain, then force where there are
/// signals. Force skips the drain.
pub fn after_wait(gone: bool, forced: bool, signals: bool) -> (r: Ended)
    ensures
        r == if gone {
            Ended::Gone
        } else if !forced && signals {
            Ended::Force
        } else {
            Ended::Alive
        },
{
    if gone {
        Ended::Gone
    } else if !forced && signals {
        Ended::Force
    } else {
        Ended::Alive
    }
}

/// An uptime in its two largest units.
pub open spec fn uptime(s: int) -> Seq<char> {
    if s < 60 {
        text::digits(s as nat) + "s"@
    } else if s < 3600 {
        text::digits((s / 60) as nat) + "m"@
    } else if s < 86400 {
        text::digits((s / 3600) as nat) + "h "@ + text::digits((s % 3600 / 60) as nat) + "m"@
    } else {
        text::digits((s / 86400) as nat) + "d "@ + text::digits((s % 86400 / 3600) as nat) + "h"@
    }
}

pub fn fmt_uptime(s: u64) -> (r: String)
    ensures
        r@ == uptime(s as int),
{
    if s < 60 {
        text::decimal(s).concat("s")
    } else if s < 3600 {
        text::decimal(s / 60).concat("m")
    } else if s < 86400 {
        text::decimal(s / 3600).concat("h ").concat(text::decimal(s % 3600 / 60).as_str()).concat("m")
    } else {
        text::decimal(s / 86400).concat("d ").concat(text::decimal(s % 86400 / 3600).as_str()).concat("h")
    }
}

} // verus!
