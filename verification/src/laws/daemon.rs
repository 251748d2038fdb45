//! What the agent on a node promises of the servers that it runs.
use crate::archive::EntryKind;
use crate::node_daemon;
use crate::node_daemon::config;
use crate::node_daemon::error::DaemonError;
use crate::node_daemon::process;
use crate::node_daemon::process::{
    ConsoleLine, Delivery, Launch, LaunchPhase, ManagedProcess, RunState, StopAction, StopOrder,
    StopPhase,
};
use crate::node_daemon::snapshot;
use crate::node_daemon::snapshot::SnapshotPhase;
use crate::node_daemon::usage;
use crate::laws::texts;
use crate::paths;
use crate::services::pull::Ip;
use crate::text;
use vstd::prelude::*;

verus! {

/// A byte that begins no character comes out as the replacement character, and
/// what follows it as it would without it.
pub proof fn law_stray_byte_is_replaced(b: u8, rest: Seq<u8>)
    requires
        0x80 <= b <= 0xc1 || b >= 0xf5,
    ensures
        node_daemon::lossy(seq![b] + rest).0 == seq!['\u{FFFD}'] + node_daemon::lossy(rest).0,
        node_daemon::lossy(seq![b] + rest).1 == node_daemon::lossy(rest).1,
{
    let s = seq![b] + rest;
    assert(s.skip(1) =~= rest);
    assert(s[0] == b);
    if s.len() > 1 {
        let b1 = s[1];
        assert(0xc0 <= b <= 0xc1 ==> ((((b & 0x1f) as u32) << 6) | ((b1 & 0x3f) as u32)) < 0x80)
            by (bit_vector);
        if s.len() > 3 {
            let b2 = s[2];
            let b3 = s[3];
            assert(0xf5 <= b <= 0xf7 ==> ((((b & 0x07) as u32) << 18) | (((b1 & 0x3f) as u32) << 12)
                | (((b2 & 0x3f) as u32) << 6) | ((b3 & 0x3f) as u32)) > 0x10ffff) by (bit_vector);
        }
    }
}

/// A character that breaks off comes out as the replacement character, and the
/// plain character that stands in its way comes out too.
pub proof fn law_broken_character_is_replaced(b: u8, c: u8, rest: Seq<u8>)
    requires
        0xc2 <= b <= 0xf4,
        c <= 0x7f,
    ensures
        node_daemon::lossy(seq![b, c] + rest).0 == seq!['\u{FFFD}'] + node_daemon::lossy(
            seq![c] + rest,
        ).0,
        node_daemon::lossy(seq![b, c] + rest).1 == node_daemon::lossy(seq![c] + rest).1,
{
    let s = seq![b, c] + rest;
    assert(s.skip(1) =~= seq![c] + rest);
    assert(s[0] == b && s[1] == c);
}

/// A console holds the new line behind those that it had: all of them while
/// there is room, all but the oldest when it is full.
pub proof fn law_console_drops_the_oldest_alone(
    lines: Seq<ConsoleLine>,
    after: Seq<ConsoleLine>,
    cursor: u64,
    line: Seq<char>,
)
    requires
        process::appended(lines, after, cursor, line),
    ensures
        lines.len() < 1000 ==> after.len() == lines.len() + 1 && forall|i: int|
            0 <= i < lines.len() ==> #[trigger] after[i] == lines[i],
        lines.len() >= 1000 ==> after.len() == lines.len() && forall|i: int|
            0 <= i < lines.len() - 1 ==> #[trigger] after[i] == lines[i + 1],
        after.len() > 0 && after[after.len() - 1].text@ == line && after[after.len() - 1].cursor
            == cursor,
{
    assert forall|i: int| 0 <= i < after.len() - 1 implies #[trigger] after[i]
        == after.drop_last()[i] by {}
}

/// Whoever has read up to a line sees the lines behind it, every one and in order.
pub proof fn law_viewer_sees_the_rest(lines: Seq<ConsoleLine>, cursor: u64, n: int)
    requires
        process::console_ok(lines, cursor),
        0 <= n < lines.len(),
    ensures
        process::texts(lines.filter(process::behind(lines[n].cursor))) == process::texts(
            lines.skip(n + 1),
        ),
{
    let f = process::behind(lines[n].cursor);
    let a = lines.take(n + 1);
    let b = lines.skip(n + 1);
    assert(lines =~= a + b);
    lemma_filter_adds(a, b, f);
    lemma_filter_none(a, f);
    lemma_filter_all(b, f);
    assert(lines.filter(f) =~= b);
}

/// A part that keeps nothing and one that keeps all are joined by filtering.
proof fn lemma_filter_adds(a: Seq<ConsoleLine>, b: Seq<ConsoleLine>, f: spec_fn(ConsoleLine) -> bool)
    ensures
        (a + b).filter(f) == a.filter(f) + b.filter(f),
{
    Seq::filter_distributes_over_add(a, b, f);
}

/// What no element passes leaves nothing.
proof fn lemma_filter_none(a: Seq<ConsoleLine>, f: spec_fn(ConsoleLine) -> bool)
    requires
        forall|i: int| 0 <= i < a.len() ==> !f(#[trigger] a[i]),
    ensures
        a.filter(f) == Seq::<ConsoleLine>::empty(),
    decreases a.len(),
{
    reveal(Seq::filter);
    if a.len() > 0 {
        let d = a.drop_last();
        assert forall|i: int| 0 <= i < d.len() implies !f(#[trigger] d[i]) by {
            assert(d[i] == a[i]);
        }
        lemma_filter_none(d, f);
    }
}

/// What every element passes leaves all.
proof fn lemma_filter_all(a: Seq<ConsoleLine>, f: spec_fn(ConsoleLine) -> bool)
    requires
        forall|i: int| 0 <= i < a.len() ==> f(#[trigger] a[i]),
    ensures
        a.filter(f) == a,
    decreases a.len(),
{
    reveal(Seq::filter);
    if a.len() > 0 {
        let d = a.drop_last();
        assert forall|i: int| 0 <= i < d.len() implies f(#[trigger] d[i]) by {
            assert(d[i] == a[i]);
        }
        lemma_filter_all(d, f);
        assert(a =~= d.push(a.last()));
    }
}

/// A command is written with one line end behind it, its own or another.
pub proof fn law_command_ends_its_line(command: Seq<char>)
    ensures
        process::as_line(command + seq!['\n']) == command + seq!['\n'],
        !(command.len() > 0 && command[command.len() - 1] == '\n') ==> process::as_line(command)
            == command + seq!['\n'],
{
    assert((command + seq!['\n']).last() == '\n');
    assert(command.push('\n') =~= command + seq!['\n']);
}

/// A server that is down needs no order. One that is up is killed where force is
/// asked for, and else asked by its own command where that holds more than white
/// space.
pub proof fn law_stop_order(p: ManagedProcess, force: bool, order: StopOrder)
    requires
        process::is_order(p, force, order),
    ensures
        p.pid is None ==> (order matches StopOrder::Down { kill_group } && kill_group == force),
        p.pid is Some && force ==> (order matches StopOrder::Kill { victim } && Some(victim)
            == p.pid),
        p.pid is Some && !force ==> (order matches StopOrder::Ask { asked, line } && Some(asked)
            == p.pid && (line is Some <==> exists|i: int|
            0 <= i < p.spec.stop_command@.len() && !text::is_space(
                #[trigger] p.spec.stop_command@[i],
            ))),
{
    let c = p.spec.stop_command@;
    let _ = texts::law_trimmed_text_is_the_middle(c);
}

/// A stop that is asked for is remembered; it leaves alone what the server is and
/// what it has said.
pub proof fn law_asking_for_a_stop(p: ManagedProcess)
    ensures
        ({
            let q = process::stop_asked(p);
            &&& q.stopping && q.pid == p.pid && q.spec == p.spec && q.operation == p.operation
            &&& p.pid is Some ==> q.state == RunState::Stopping
            &&& p.pid is None ==> q.state == RunState::Offline
            &&& q.restart_count == p.restart_count && q.console == p.console && q.console_cursor
                == p.console_cursor
            &&& q.rx_bytes == p.rx_bytes && q.tx_bytes == p.tx_bytes && q.started == p.started
                && q.exit_code == p.exit_code
        }),
{
}

/// A process that ends leaves its exit code, or -1 where a signal ended it. It was
/// asked to stop, or it crashed.
pub proof fn law_end_is_recorded(p: ManagedProcess, code: Option<i32>)
    ensures
        ({
            let q = process::ended(p, code);
            &&& q.pid is None
            &&& code is Some ==> q.exit_code == code
            &&& code is None ==> q.exit_code == Some(-1i32)
            &&& p.stopping ==> q.state == RunState::Offline
            &&& !p.stopping ==> q.state == RunState::Crashed
            &&& q.stopping == p.stopping && q.spec == p.spec && q.operation == p.operation
            &&& q.restart_count == p.restart_count && q.console == p.console && q.console_cursor
                == p.console_cursor
            &&& q.rx_bytes == p.rx_bytes && q.tx_bytes == p.tx_bytes && q.started == p.started
        }),
{
}

/// A process that was launched runs from then on, with no exit code of an earlier
/// run and no operation under way.
pub proof fn law_launch_is_recorded(p: ManagedProcess, pid: u32, now: u64)
    ensures
        ({
            let q = process::launched(p, pid, now);
            &&& q.pid == Some(pid) && q.state == RunState::Running && q.started == Some(now)
            &&& q.exit_code is None && !q.operation
            &&& q.stopping == p.stopping && q.spec == p.spec && q.restart_count == p.restart_count
            &&& q.console == p.console && q.console_cursor == p.console_cursor
            &&& q.rx_bytes == p.rx_bytes && q.tx_bytes == p.tx_bytes
        }),
{
}

/// A server starts if and only if it is there, is not busy, was not asked to stop,
/// is down, and has a valid name.
pub proof fn law_server_may_start(m: Map<Seq<char>, ManagedProcess>, uuid: Seq<char>)
    ensures
        process::start_fault(m, uuid) is None <==> m.contains_key(uuid) && !m[uuid].operation
            && !m[uuid].stopping && m[uuid].pid is None && config::is_server_uuid(uuid),
        !m.contains_key(uuid) <==> process::start_fault(m, uuid) == Some(
            DaemonError::NotProvisioned,
        ),
        m.contains_key(uuid) && m[uuid].operation ==> process::start_fault(m, uuid) == Some(
            DaemonError::Busy,
        ),
        m.contains_key(uuid) && !m[uuid].operation && m[uuid].stopping ==> process::start_fault(
            m,
            uuid,
        ) == Some(DaemonError::StopRequested),
        m.contains_key(uuid) && !m[uuid].operation && !m[uuid].stopping && m[uuid].pid is Some
            ==> process::start_fault(m, uuid) == Some(DaemonError::AlreadyRunning),
{
}

/// A server is launched in its own directory with its own variables and, behind
/// them, its name, its identity and its memory. Its memory counts in mebibytes.
pub proof fn law_launch_sets_the_server_up(
    l: Launch,
    cfg: config::DaemonConfig,
    uuid: Seq<char>,
    spec: crate::node_protocol::ServerSpec,
)
    requires
        process::is_launch(l, cfg, uuid, spec),
    ensures
        l.root@ == paths::joined(paths::joined(cfg.data_dir@, "servers"@), uuid),
        l.memory_bytes == spec.memory_mb * (1024 * 1024),
        l.cpu_percent == spec.cpu_percent && l.startup@ == spec.startup@,
        l.env@.len() == spec.env@.len() + 3,
        forall|i: int|
            0 <= i < spec.env@.len() ==> (#[trigger] l.env@[i]).0@ == spec.env@[i].0@
                && l.env@[i].1@ == spec.env@[i].1@,
        ({
            let n = spec.env@.len() as int;
            &&& l.env@[n].0@ == "SERVER_UUID"@ && l.env@[n].1@ == spec.uuid@
            &&& l.env@[n + 1].0@ == "SERVER_NAME"@ && l.env@[n + 1].1@ == spec.name@
            &&& l.env@[n + 2].0@ == "SERVER_MEMORY"@ && text::number_of(l.env@[n + 2].1@) == Some(
                spec.memory_mb,
            )
        }),
        spec.ports@.len() > 0 ==> l.ports@ == spec.ports@,
        spec.ports@.len() == 0 && spec.port is None ==> l.ports@.len() == 0,
        spec.ports@.len() == 0 && spec.port is Some ==> l.ports@ == seq![spec.port->0],
{
    let n = spec.env@.len() as int;
    let want = process::pairs(spec.env@) + seq![
        ("SERVER_UUID"@, spec.uuid@),
        ("SERVER_NAME"@, spec.name@),
        ("SERVER_MEMORY"@, text::decimal(spec.memory_mb as int)),
    ];
    let got = process::pairs(l.env@);
    assert(got == want);
    assert(got.len() == n + 3);
    assert forall|i: int| 0 <= i < n implies (#[trigger] l.env@[i]).0@ == spec.env@[i].0@
        && l.env@[i].1@ == spec.env@[i].1@ by {
        assert(got[i] == want[i]);
    }
    assert(got[n] == want[n] && got[n + 1] == want[n + 1] && got[n + 2] == want[n + 2]);
    texts::law_written_number_is_read(spec.memory_mb as int);
}

/// A line is delivered if and only if it was written.
pub proof fn law_only_a_written_line_is_delivered(d: Delivery)
    ensures
        process::delivery_fault(d) is None <==> d is Written,
        d is NoWriter || d is Closed ==> process::delivery_fault(d) == Some(DaemonError::NoStdin),
        d is Full ==> process::delivery_fault(d) == Some(DaemonError::Backlog),
        d is Lost ==> process::delivery_fault(d) == Some(DaemonError::WriterGone),
        d is TimedOut ==> process::delivery_fault(d) == Some(DaemonError::WriteTimedOut),
        d is Failed ==> (process::delivery_fault(d) matches Some(DaemonError::WriteFailed { reason })
            && reason == d->reason),
{
}

/// A launch whose eight steps succeed ends in a running server; one that fails
/// before it has a process ends at once, and a later one takes its process down.
pub proof fn law_launch_goes_through(oks: Seq<bool>, k: int)
    requires
        0 <= k <= 8,
        oks.len() >= k,
        forall|i: int| 0 <= i < k ==> #[trigger] oks[i],
    ensures
        k == 8 ==> process::launch_after(oks.take(8)) == LaunchPhase::Running,
        k < 4 ==> process::launch_after(oks.take(k).push(false)) == LaunchPhase::Failed,
        4 <= k < 8 ==> process::launch_after(oks.take(k).push(false)) == LaunchPhase::Reap
            && process::launch_after(oks.take(k).push(false).push(true)) == LaunchPhase::Failed,
{
    lemma_launch(oks, k);
    let t = oks.take(k);
    assert(t.push(false).drop_last() =~= t);
    assert(t.push(false).push(true).drop_last() =~= t.push(false));
}

/// How far a launch is whose steps succeeded so far.
proof fn lemma_launch(oks: Seq<bool>, k: int)
    requires
        0 <= k <= 8,
        oks.len() >= k,
        forall|i: int| 0 <= i < k ==> #[trigger] oks[i],
    ensures
        process::launch_after(oks.take(k)) == seq![
            LaunchPhase::Prepare,
            LaunchPhase::Group,
            LaunchPhase::Sandbox,
            LaunchPhase::Spawn,
            LaunchPhase::Attach,
            LaunchPhase::Stdout,
            LaunchPhase::Stderr,
            LaunchPhase::Network,
            LaunchPhase::Running,
        ][k],
    decreases k,
{
    if k > 0 {
        lemma_launch(oks, k - 1);
        assert(oks.take(k).drop_last() =~= oks.take(k - 1));
        assert(oks.take(k).last() == oks[k - 1]);
    }
}

/// A server that does not go is asked by its command, waited for, terminated,
/// waited for and killed; one that has gone gets no signal.
pub proof fn law_stop_goes_from_asking_to_killing(alive: bool, ms: u64)
    ensures
        process::first_stop_phase(true) == StopPhase::Deliver,
        process::first_stop_phase(false) == StopPhase::Terminate,
        process::stop_behind(StopPhase::Deliver, alive, ms) == (
            StopAction::Write { within_ms: 5000 },
            StopPhase::Grace,
        ),
        ms < 5000 && alive ==> process::stop_behind(StopPhase::Grace, alive, ms) == (
            StopAction::Sleep { ms: 300 },
            StopPhase::Grace,
        ),
        ms < 5000 && !alive ==> process::stop_behind(StopPhase::Grace, alive, ms) == (
            StopAction::Nothing,
            StopPhase::Done,
        ),
        ms >= 5000 ==> process::stop_behind(StopPhase::Grace, alive, ms) == (
            StopAction::Nothing,
            StopPhase::Terminate,
        ),
        process::stop_behind(StopPhase::Terminate, true, ms) == (
            StopAction::Terminate,
            StopPhase::Settle,
        ),
        process::stop_behind(StopPhase::Settle, alive, ms) == (
            StopAction::Sleep { ms: 10_000 },
            StopPhase::LastResort,
        ),
        process::stop_behind(StopPhase::LastResort, true, ms) == (
            StopAction::Kill,
            StopPhase::Done,
        ),
        process::stop_behind(StopPhase::Terminate, false, ms).0 == StopAction::Nothing,
        process::stop_behind(StopPhase::LastResort, false, ms).0 == StopAction::Nothing,
        process::stop_behind(StopPhase::Done, alive, ms) == (StopAction::Nothing, StopPhase::Done),
{
}

/// Whether a character may stand in the name of a server.
pub open spec fn uuid_char(c: char) -> bool {
    'a' <= c <= 'z' || 'A' <= c <= 'Z' || '0' <= c <= '9' || c == '-' || c == '_'
}

/// A name of a server has one to 64 characters, each a letter, a digit, a hyphen or
/// an underscore.
pub proof fn law_names_of_servers(s: Seq<char>)
    ensures
        config::is_server_uuid(s) <==> 1 <= s.len() <= 64 && forall|i: int|
            0 <= i < s.len() ==> uuid_char(#[trigger] s[i]),
{
    assert forall|i: int| 0 <= i < s.len() implies uuid_char(#[trigger] s[i]) == (text::is_alnum(
        s[i],
    ) || s[i] == '-' || s[i] == '_') by {}
}

/// Each wait before a restart is twice the one before, from five seconds to two
/// minutes.
pub proof fn law_waits_double(attempt: int)
    ensures
        attempt <= 1 ==> config::backoff(attempt) == 5,
        attempt >= 1 && 2 * config::backoff(attempt) <= 120 ==> config::backoff(attempt + 1) == 2
            * config::backoff(attempt),
        attempt >= 1 && 2 * config::backoff(attempt) > 120 ==> config::backoff(attempt + 1) == 120,
{
}

/// An address is this machine's own if it is in 127.0.0.0/8 or is ::1, and no
/// other is.
pub proof fn law_own_addresses(a: u8, b: u8, c: u8, d: u8, s: [u16; 8])
    ensures
        config::is_loopback(Ip::V4(a, b, c, d)) <==> a == 127,
        config::is_loopback(Ip::V6(s)) <==> s@[7] == 1 && forall|i: int|
            0 <= i < 7 ==> #[trigger] s@[i] == 0,
{
    let one = seq![0u16, 0, 0, 0, 0, 0, 0, 1];
    if config::is_loopback(Ip::V6(s)) {
        assert(s@ == one);
    }
    if s@[7] == 1 && forall|i: int| 0 <= i < 7 ==> #[trigger] s@[i] == 0 {
        assert(s@ =~= one);
    }
}

/// The host of an address to listen on is what stands before its port, without
/// the brackets of an address of six parts.
pub proof fn law_host_stands_before_the_port(host: Seq<char>, port: Seq<char>)
    requires
        forall|i: int| 0 <= i < port.len() ==> #[trigger] port[i] != ':',
        host.len() > 0 ==> host[0] != '[' && host[host.len() - 1] != ']',
    ensures
        config::host_part(host + seq![':'] + port) == host,
        config::host_part(seq!['['] + host + seq![']', ':'] + port) == host,
{
    let b = seq!['['] + host + seq![']'];
    lemma_before_colon(host, port);
    lemma_before_colon(b, port);
    assert(b + seq![':'] + port =~= seq!['['] + host + seq![']', ':'] + port);
    assert(b.drop_first() =~= host + seq![']']);
    assert((host + seq![']']).drop_last() =~= host);
    if host.len() > 0 {
        assert((host + seq![']'])[0] == host[0]);
        assert(config::unopened(host + seq![']']) == host + seq![']']);
    } else {
        assert(host + seq![']'] =~= seq![']']);
        assert(config::unopened(seq![']']) == seq![']']);
    }
    assert(config::unopened(b) == host + seq![']']);
    assert(config::unclosed(host + seq![']']) == config::unclosed(host));
}

/// What stands before the last colon.
proof fn lemma_before_colon(a: Seq<char>, port: Seq<char>)
    requires
        forall|i: int| 0 <= i < port.len() ==> #[trigger] port[i] != ':',
    ensures
        config::before_colon(a + seq![':'] + port) == a,
    decreases port.len(),
{
    let s = a + seq![':'] + port;
    assert(s[a.len() as int] == ':');
    assert(text::mentions(s, ':'));
    if port.len() == 0 {
        assert(s.drop_last() =~= a);
    } else {
        let t = port.drop_last();
        assert forall|i: int| 0 <= i < t.len() implies #[trigger] t[i] != ':' by {
            assert(t[i] == port[i]);
        }
        assert(s.drop_last() =~= a + seq![':'] + t);
        assert(s.last() == port.last());
        lemma_before_colon(a, t);
    }
}

/// An entry of an archive is refused if and only if it is a link, or its path has a
/// root or leads up.
pub proof fn law_archive_entry_is_refused(kind: EntryKind, path: Seq<char>)
    ensures
        kind == EntryKind::Link ==> snapshot::entry_fault(kind, path) == Some(
            DaemonError::LinkEntry,
        ),
        kind != EntryKind::Link && (paths::has_root(path) || paths::parts(path).contains(seq!['.', '.']))
            ==> snapshot::entry_fault(kind, path) == Some(DaemonError::EntryTraversal),
        kind != EntryKind::Link && !paths::has_root(path) && !paths::parts(path).contains(
            seq!['.', '.'],
        ) ==> snapshot::entry_fault(kind, path) is None,
{
}

/// An archive is refused for the first of its entries that is refused, whatever
/// follows it.
pub proof fn law_first_bad_entry_decides(
    front: Seq<(u8, Seq<char>)>,
    bad: (u8, Seq<char>),
    rest: Seq<(u8, Seq<char>)>,
    problem: Option<Seq<char>>,
    r: Result<(), DaemonError>,
)
    requires
        forall|i: int|
            0 <= i < front.len() ==> snapshot::entry_fault(
                crate::archive::kind_of_type((#[trigger] front[i]).0),
                front[i].1,
            ) is None,
        snapshot::entry_fault(crate::archive::kind_of_type(bad.0), bad.1) is Some,
        snapshot::is_listing_answer(front + seq![bad] + rest, problem, r),
    ensures
        r == Err::<(), DaemonError>(
            snapshot::entry_fault(crate::archive::kind_of_type(bad.0), bad.1)->0,
        ),
{
    let all = front + seq![bad] + rest;
    let k = front.len() as int;
    lemma_no_fault(all, k);
    assert(all[k] == bad);
    assert(snapshot::listing_fault(all, k + 1) is Some);
    lemma_fault_stays(all, k + 1, all.len() as int);
}

/// Entries of which none is refused are refused for none.
proof fn lemma_no_fault(all: Seq<(u8, Seq<char>)>, n: int)
    requires
        0 <= n <= all.len(),
        forall|i: int|
            0 <= i < n ==> snapshot::entry_fault(
                crate::archive::kind_of_type((#[trigger] all[i]).0),
                all[i].1,
            ) is None,
    ensures
        snapshot::listing_fault(all, n) is None,
    decreases n,
{
    if n > 0 {
        lemma_no_fault(all, n - 1);
        assert(all[n - 1] == all[n - 1]);
    }
}

/// What refuses an archive is not changed by later entries.
proof fn lemma_fault_stays(all: Seq<(u8, Seq<char>)>, k: int, n: int)
    requires
        0 <= k <= n,
        snapshot::listing_fault(all, k) is Some,
    ensures
        snapshot::listing_fault(all, n) == snapshot::listing_fault(all, k),
    decreases n - k,
{
    if k < n {
        lemma_fault_stays(all, k, n - 1);
    }
}

/// An archive all of whose entries are good, and which could be read to its end, is
/// accepted.
pub proof fn law_good_archive_is_accepted(
    all: Seq<(u8, Seq<char>)>,
    problem: Option<Seq<char>>,
    r: Result<(), DaemonError>,
)
    requires
        forall|i: int|
            0 <= i < all.len() ==> snapshot::entry_fault(
                crate::archive::kind_of_type((#[trigger] all[i]).0),
                all[i].1,
            ) is None,
        snapshot::is_listing_answer(all, problem, r),
    ensures
        r is Ok <==> problem is None,
        problem is Some ==> (r matches Err(DaemonError::Unreadable { flaw }) && flaw@ == problem->0),
{
    lemma_no_fault(all, all.len() as int);
}

/// A snapshot holds every directory and every file below the server's directory,
/// and nothing else.
pub proof fn law_snapshot_holds_files_and_directories(
    kind: crate::services::files::NodeKind,
    rel: Seq<char>,
)
    ensures
        snapshot::member_of(kind, rel) == snapshot::Member::Dir <==> rel.len() > 0
            && kind == crate::services::files::NodeKind::Directory,
        snapshot::member_of(kind, rel) == snapshot::Member::File <==> rel.len() > 0
            && kind == crate::services::files::NodeKind::File,
{
}

/// Files of a server are reached if and only if the server is there, is down, and
/// has a valid name.
pub proof fn law_files_of_a_server_that_is_down(
    m: Map<Seq<char>, ManagedProcess>,
    uuid: Seq<char>,
    running: DaemonError,
)
    ensures
        snapshot::files_fault(m, uuid, running) is None <==> m.contains_key(uuid)
            && m[uuid].pid is None && config::is_server_uuid(uuid),
        m.contains_key(uuid) && m[uuid].pid is Some ==> snapshot::files_fault(m, uuid, running)
            == Some(running),
        !m.contains_key(uuid) ==> snapshot::files_fault(m, uuid, running) == Some(
            DaemonError::NotProvisioned,
        ),
{
}

/// An archive is taken if and only if it is within the bound, in mebibytes, and has
/// the digest that was promised.
pub proof fn law_archive_is_taken(mb: u64, bytes: Seq<u8>, checksum: Seq<char>)
    ensures
        snapshot::archive_fault(mb, bytes, checksum) is None <==> bytes.len() <= mb * (1024 * 1024)
            && crate::digest::sha256_hex_of(bytes) == checksum,
        bytes.len() > mb * (1024 * 1024) ==> (snapshot::archive_fault(mb, bytes, checksum) matches Some(
            DaemonError::ArchiveLimit { archive_mib },
        ) && archive_mib == mb),
        bytes.len() <= mb * (1024 * 1024) && crate::digest::sha256_hex_of(bytes) != checksum
            ==> snapshot::archive_fault(mb, bytes, checksum) == Some(DaemonError::ChecksumMismatch),
{
}

/// A snapshot is unpacked within ten thousand entries, half a gibibyte a file and
/// two gibibytes in all.
pub proof fn law_bounds_of_a_snapshot()
    ensures
        snapshot::snapshot_limits().max_entries == 10_000,
        snapshot::snapshot_limits().max_file == 512 * 1024 * 1024,
        snapshot::snapshot_limits().max_total == 2 * 1024 * 1024 * 1024,
{
}

/// A restore whose steps all succeed goes through in order: a stream is verified
/// before the directories trade places, and a server with a directory keeps it
/// until then.
pub proof fn law_good_restore_goes_through(live: bool, streamed: bool)
    ensures
        snapshot::snapshot_behind(SnapshotPhase::Stage, true, live, streamed)
            == SnapshotPhase::Unpack,
        streamed ==> snapshot::snapshot_behind(SnapshotPhase::Unpack, true, live, streamed)
            == SnapshotPhase::Verify,
        !streamed ==> snapshot::snapshot_behind(SnapshotPhase::Unpack, true, live, streamed)
            == SnapshotPhase::Prepare,
        snapshot::snapshot_behind(SnapshotPhase::Verify, true, live, streamed)
            == SnapshotPhase::Prepare,
        snapshot::snapshot_behind(SnapshotPhase::Prepare, true, live, streamed)
            == SnapshotPhase::Own,
        live ==> snapshot::snapshot_behind(SnapshotPhase::Own, true, live, streamed)
            == SnapshotPhase::Exchange,
        !live ==> snapshot::snapshot_behind(SnapshotPhase::Own, true, live, streamed)
            == SnapshotPhase::MoveIn,
        snapshot::snapshot_behind(SnapshotPhase::MoveIn, true, live, streamed)
            == SnapshotPhase::Restored,
        snapshot::snapshot_behind(SnapshotPhase::Exchange, true, live, streamed)
            == SnapshotPhase::Sweep,
        forall|ok: bool|
            snapshot::snapshot_behind(SnapshotPhase::Sweep, ok, live, streamed)
                == SnapshotPhase::Restored,
{
}

/// The bytes of some files, all of them decoded.
pub open spec fn bytes_in(contents: Seq<Option<Seq<u8>>>) -> int
    decreases contents.len(),
{
    if contents.len() == 0 {
        0
    } else {
        bytes_in(contents.drop_last()) + (match contents.last() {
            Some(b) => b.len() as int,
            None => 0,
        })
    }
}

/// Files are taken if and only if each can be decoded and all of them together are
/// within the bound.
pub proof fn law_uploads_are_taken(contents: Seq<Option<Seq<u8>>>, mb: u64)
    requires
        mb * 1_048_576 < u64::MAX,
    ensures
        snapshot::first_fault(contents, snapshot::upload_bound(mb), contents.len() as int) is None
            <==> bytes_in(contents) <= mb * (1024 * 1024) && forall|i: int|
            0 <= i < contents.len() ==> #[trigger] contents[i] is Some,
{
    lemma_uploads(contents, mb * 1_048_576, contents.len() as int);
    assert(contents.take(contents.len() as int) =~= contents);
}

/// The files so far are taken, or the first that is not is found.
proof fn lemma_uploads(contents: Seq<Option<Seq<u8>>>, bound: int, n: int)
    requires
        0 <= n <= contents.len(),
        0 <= bound < u64::MAX,
    ensures
        snapshot::first_fault(contents, bound, n) is None <==> bytes_in(contents.take(n)) <= bound
            && forall|i: int| 0 <= i < n ==> #[trigger] contents[i] is Some,
        snapshot::uploaded(contents.take(n)) <= bound <==> bytes_in(contents.take(n)) <= bound,
        snapshot::uploaded(contents.take(n)) <= bound ==> snapshot::uploaded(contents.take(n))
            == bytes_in(contents.take(n)),
        snapshot::uploaded(contents.take(n)) >= 0,
        bytes_in(contents.take(n)) >= 0,
    decreases n,
{
    if n > 0 {
        lemma_uploads(contents, bound, n - 1);
        let t = contents.take(n);
        assert(t.drop_last() =~= contents.take(n - 1));
        assert(t.last() == contents[n - 1]);
        assert(contents.take(n - 1 + 1) =~= t);
        if contents[n - 1] is None {
            assert(!(forall|i: int| 0 <= i < n ==> #[trigger] contents[i] is Some));
        } else {
            assert((forall|i: int| 0 <= i < n ==> #[trigger] contents[i] is Some) <==> (forall|
                i: int,
            |
                0 <= i < n - 1 ==> #[trigger] contents[i] is Some)) by {
                if forall|i: int| 0 <= i < n - 1 ==> #[trigger] contents[i] is Some {
                    assert forall|i: int| 0 <= i < n implies #[trigger] contents[i] is Some by {}
                }
            }
        }
    } else {
        assert(contents.take(0).len() == 0);
    }
}

/// Words are what white space parts: two texts with a space between have the words
/// of both, and a text without white space is one word.
pub proof fn law_words(a: Seq<char>, b: Seq<char>)
    ensures
        usage::words(a + seq![' '] + b) == usage::words(a) + usage::words(b),
        a.len() > 0 && (forall|i: int| 0 <= i < a.len() ==> !text::is_space(#[trigger] a[i]))
            ==> usage::words(a) == seq![a],
{
    lemma_words(a, b);
    if a.len() > 0 && (forall|i: int| 0 <= i < a.len() ==> !text::is_space(#[trigger] a[i])) {
        lemma_one_word(a);
    }
}

/// The words of two texts with a space between.
proof fn lemma_words(a: Seq<char>, b: Seq<char>)
    ensures
        usage::words(a + seq![' '] + b) == usage::words(a) + usage::words(b),
        b.len() > 0 && !text::is_space(b.last()) ==> usage::words(b).len() > 0,
    decreases b.len(),
{
    let s = a + seq![' '] + b;
    if b.len() == 0 {
        assert(s.drop_last() =~= a);
        assert(s.last() == ' ');
        assert(usage::words(a) + usage::words(b) =~= usage::words(a));
    } else {
        let d = b.drop_last();
        lemma_words(a, d);
        assert(s.drop_last() =~= a + seq![' '] + d);
        assert(s.last() == b.last());
        let wa = usage::words(a);
        let wd = usage::words(d);
        let ws = usage::words(s.drop_last());
        assert(ws == wa + wd);
        if !text::is_space(b.last()) {
            if b.len() >= 2 {
                assert(s[s.len() - 2] == b[b.len() - 2]);
                assert(d.last() == b[b.len() - 2]);
                if !text::is_space(d.last()) {
                    assert(wd.len() > 0);
                    assert(ws.last() == wd.last());
                    assert(ws.drop_last() =~= wa + wd.drop_last());
                    assert(usage::words(s) =~= wa + usage::words(b));
                } else {
                    assert(usage::words(s) =~= wa + usage::words(b));
                }
            } else {
                assert(s[s.len() - 2] == ' ');
                assert(usage::words(s) =~= wa + usage::words(b));
            }
        }
    }
}

/// A text without white space is one word.
proof fn lemma_one_word(a: Seq<char>)
    requires
        a.len() > 0,
        forall|i: int| 0 <= i < a.len() ==> !text::is_space(#[trigger] a[i]),
    ensures
        usage::words(a) == seq![a],
    decreases a.len(),
{
    let d = a.drop_last();
    if a.len() > 1 {
        assert forall|i: int| 0 <= i < d.len() implies !text::is_space(#[trigger] d[i]) by {
            assert(d[i] == a[i]);
        }
        lemma_one_word(d);
        assert(d.push(a.last()) =~= a);
        assert(!text::is_space(a[a.len() - 2]));
        assert(usage::words(a) =~= seq![a]);
    } else {
        assert(d =~= Seq::<char>::empty());
        assert(seq![a.last()] =~= a);
        assert(usage::words(d) =~= Seq::<Seq<char>>::empty());
        assert(!text::is_space(a[0]) && a.last() == a[0]);
        assert(usage::words(a) == usage::words(d).push(seq![a.last()]));
        assert(usage::words(a) =~= seq![a]);
    }
}

/// What stands behind the name of a process begins behind the last bracket,
/// whatever the name holds.
pub proof fn law_behind_the_name(name: Seq<char>, rest: Seq<char>)
    requires
        forall|i: int| 0 <= i < rest.len() ==> #[trigger] rest[i] != ')',
    ensures
        usage::behind_paren(name + seq![')'] + rest) == Some(rest),
        usage::behind_paren(rest) is None,
    decreases rest.len(),
{
    let s = name + seq![')'] + rest;
    if rest.len() == 0 {
        assert(s.last() == ')');
        assert(rest =~= Seq::<char>::empty());
    } else {
        let d = rest.drop_last();
        assert forall|i: int| 0 <= i < d.len() implies #[trigger] d[i] != ')' by {
            assert(d[i] == rest[i]);
        }
        law_behind_the_name(name, d);
        assert(s.drop_last() =~= name + seq![')'] + d);
        assert(s.last() == rest.last());
        assert(d.push(rest.last()) =~= rest);
    }
}

/// What a process has used stands in the twelfth, thirteenth and twenty-second of
/// the words behind its name.
pub proof fn law_usage_of_a_process(name: Seq<char>, rest: Seq<char>)
    requires
        forall|i: int| 0 <= i < rest.len() ==> #[trigger] rest[i] != ')',
    ensures
        ({
            let ws = usage::words(rest);
            let r = usage::stat_of(name + seq![')'] + rest);
            &&& r is Some <==> ws.len() >= 22 && text::number_of(ws[11]) is Some && text::number_of(
                ws[12],
            ) is Some && text::number_of(ws[21]) is Some
            &&& r is Some ==> Some((r->0).user) == text::number_of(ws[11]) && Some((r->0).system)
                == text::number_of(ws[12]) && Some((r->0).rss_pages) == text::number_of(ws[21])
        }),
{
    law_behind_the_name(name, rest);
}

/// A list of processes names each of them, and what is no number is passed over.
pub proof fn law_children_are_read(ws: Seq<Seq<char>>, n: u32, other: Seq<char>)
    requires
        text::number_of(other) is None,
    ensures
        usage::pids(ws.push(text::decimal(n as int))) == usage::pids(ws).push(n),
        usage::pids(ws.push(other)) == usage::pids(ws),
        usage::pids(Seq::empty()).len() == 0,
{
    texts::law_written_number_is_read(n as int);
    assert(ws.push(text::decimal(n as int)).drop_last() =~= ws);
    assert(ws.push(other).drop_last() =~= ws);
}

/// A tree of processes uses what its processes use.
pub proof fn law_tree_uses_what_its_processes_use(samples: Seq<(u64, u64)>, memory: u64, ticks: u64)
    ensures
        ({
            let a = usage::tree_usage(samples);
            let b = usage::tree_usage(samples.push((memory, ticks)));
            &&& a.0 + memory <= u64::MAX ==> b.0 == a.0 + memory
            &&& a.1 + ticks <= u64::MAX ==> b.1 == a.1 + ticks
            &&& a.0 + memory > u64::MAX ==> b.0 == u64::MAX
            &&& a.1 + ticks > u64::MAX ==> b.1 == u64::MAX
        }),
        usage::tree_usage(Seq::empty()) == (0int, 0int),
{
    assert(samples.push((memory, ticks)).drop_last() =~= samples);
}

/// A server that was just set up is down, was never started, and has said nothing.
pub proof fn law_new_server(p: ManagedProcess, spec: crate::node_protocol::ServerSpec, now: u64)
    requires
        process::fresh_process(p, spec, now),
    ensures
        p.spec == spec && p.pid is None && p.state == RunState::Offline && p.started is None
            && p.exit_code is None,
        !p.operation && !p.stopping && p.restart_count == 0,
        p.console@.len() == 0 && p.console_cursor == 0 && p.rx_bytes == 0 && p.tx_bytes == 0,
        p.last_cpu_ticks == 0 && p.last_sample_ms == now,
{
}

/// What is told of a server is what it is; memory only while it runs, and how long
/// it has run since it was started.
pub proof fn law_told_of_a_server(
    s: crate::node_protocol::RemoteServerStats,
    p: ManagedProcess,
    uuid: Seq<char>,
    memory: u64,
    disk: u64,
    now: u64,
)
    requires
        process::is_stats(s, p, uuid, memory, disk, now),
    ensures
        s.uuid@ == uuid && s.pid == p.pid && s.disk_bytes == disk && s.restart_count
            == p.restart_count && s.exit_code == p.exit_code,
        p.pid is Some ==> s.memory_bytes == memory,
        p.pid is None ==> s.memory_bytes == 0,
        p.started is None ==> s.uptime_secs == 0,
        p.started is Some && p.started->0 <= now ==> s.uptime_secs == now - p.started->0,
        p.started is Some && p.started->0 > now ==> s.uptime_secs == 0,
        s.network_rx_bytes == p.rx_bytes && s.network_tx_bytes == p.tx_bytes,
        p.state == RunState::Running ==> s.state@ == "running"@,
        p.state == RunState::Offline ==> s.state@ == "offline"@,
        p.state == RunState::Stopping ==> s.state@ == "stopping"@,
        p.state == RunState::Crashed ==> s.state@ == "crashed"@,
{
}

/// The servers that run are those with a process, each once.
pub proof fn law_running_servers(
    m: Map<Seq<char>, ManagedProcess>,
    up: Seq<String>,
    uuid: Seq<char>,
)
    requires
        process::are_running(m, up),
    ensures
        text::views(up).contains(uuid) <==> m.contains_key(uuid) && m[uuid].pid is Some,
        process::runs(m, uuid) <==> m.contains_key(uuid) && m[uuid].pid is Some,
        text::views(up).no_duplicates(),
{
}

/// A file that is uploaded is written as it was sent, with permission bits alone.
pub proof fn law_uploaded_files(u: snapshot::Upload, f: crate::node_protocol::ProvisionFile)
    requires
        snapshot::is_upload(u, f),
    ensures
        u.path@ == f.path@,
        crate::encoding::base64_bytes(f.content_b64@) == Some(u.bytes@),
        f.mode is None <==> u.mode is None,
        f.mode is Some ==> u.mode == Some(crate::archive::plain_mode(f.mode->0)),
{
}

/// Files that are not taken are refused with the file, or the bound, that is to
/// blame.
pub proof fn law_refused_uploads(
    e: DaemonError,
    f: snapshot::UploadFault,
    files: Seq<crate::node_protocol::ProvisionFile>,
    mb: u64,
)
    requires
        snapshot::is_upload_error(e, f, files, mb),
    ensures
        f matches snapshot::UploadFault::TooLarge { at } ==> (e matches DaemonError::FileLimit {
            file,
            file_mib,
        } && file@ == files[at as int].path@ && file_mib == mb),
        f is TooMuch ==> (e matches DaemonError::PayloadLimit { payload_mib } && payload_mib == mb),
        f is Encoding ==> e is Base64,
{
}

/// A snapshot is unpacked beside the directories of the servers, in one that names
/// its server and that no server can be named.
pub proof fn law_staging_directory(cfg: config::DaemonConfig, uuid: Seq<char>, nonce: Seq<char>)
    ensures
        snapshot::staging_of(cfg, uuid, nonce) == paths::joined(
            paths::joined(cfg.data_dir@, "servers"@),
            seq!['.', 'r', 'e', 's', 't', 'o', 'r', 'e', '-'] + uuid + seq!['-'] + nonce,
        ),
        !config::is_server_uuid(seq!['.', 'r', 'e', 's', 't', 'o', 'r', 'e', '-'] + uuid + seq!['-'] + nonce),
{
    reveal_strlit(".restore-");
    reveal_strlit("-");
    let name = seq!['.', 'r', 'e', 's', 't', 'o', 'r', 'e', '-'] + uuid + seq!['-'] + nonce;
    assert(".restore-"@ + uuid + "-"@ + nonce =~= name);
    assert(name[0] == '.');
}

} // verus!
