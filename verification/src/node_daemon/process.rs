//! Supervision of the servers on a node: their consoles, how they are started
//! and stopped, and when a crashed one comes back.
use crate::node_daemon::config;
use crate::node_daemon::config::DaemonConfig;
use crate::node_daemon::error::DaemonError;
use crate::node_protocol::{RemoteServerStats, ServerSpec};
use crate::paths;
use crate::text;
use vstd::prelude::*;
use vstd::string::*;

verus! {

/// Bytes of a console command at most.
pub const MAX_STDIN_WRITE_BYTES: usize = 64 * 1024;

/// Milliseconds that the delivery of a command may take.
pub const STOP_CMD_DELIVERY_MS: u64 = 5_000;

/// Milliseconds that a server gets to heed its stop command.
pub const STOP_CMD_GRACE_MS: u64 = 5_000;

/// Milliseconds between a polite signal and the last resort.
pub const STOP_SIGKILL_GRACE_MS: u64 = 10_000;

/// Milliseconds within which a server must be down to be restarted.
pub const RESTART_WINDOW_MS: u64 = 16_000;

/// Automatic restarts that may fail in a row.
pub const MAX_AUTO_RESTART_ATTEMPTS: u64 = 10;

/// Pieces of output that a console keeps.
pub const CONSOLE_LINES: usize = 1000;

/// Milliseconds for which a measured directory size is good.
pub const DIR_SIZE_CACHE_MS: u64 = 10_000;

/// What a server is doing.
#[derive(Debug, Clone, Copy, PartialEq, Eq, Structural)]
pub enum RunState {
    Offline,
    Running,
    Stopping,
    Crashed,
}

impl RunState {
    /// The state in one word.
    pub open spec fn name(self) -> Seq<char> {
        match self {
            RunState::Offline => "offline"@,
            RunState::Running => "running"@,
            RunState::Stopping => "stopping"@,
            RunState::Crashed => "crashed"@,
        }
    }

    /// The state in one word.
    pub fn as_str(self) -> (r: &'static str)
        ensures
            r@ == self.name(),
    {
        match self {
            RunState::Offline => "offline",
            RunState::Running => "running",
            RunState::Stopping => "stopping",
            RunState::Crashed => "crashed",
        }
    }
}

/// A piece of console output, with its number.
#[derive(Debug)]
pub struct ConsoleLine {
    pub cursor: u64,
    pub text: String,
}

/// A server on this node.
#[derive(Debug)]
pub struct ManagedProcess {
    pub spec: ServerSpec,
    pub pid: Option<u32>,
    pub state: RunState,
    /// When it was last started, in seconds on the agent's clock.
    pub started: Option<u64>,
    pub exit_code: Option<i32>,
    /// Whether an operation on it is under way.
    pub operation: bool,
    pub restart_count: u64,
    pub last_cpu_ticks: u64,
    pub last_sample_ms: u64,
    pub rx_bytes: u64,
    pub tx_bytes: u64,
    /// Whether a stop was asked for. Only an explicit restart takes that back.
    pub stopping: bool,
    pub console: Vec<ConsoleLine>,
    pub console_cursor: u64,
    pub dir_cache_ms: u64,
    pub dir_cache_bytes: u64,
}

/// A server that was just set up.
pub open spec fn fresh_process(p: ManagedProcess, spec: ServerSpec, now_ms: u64) -> bool {
    &&& p.spec == spec
    &&& p.pid is None && p.state == RunState::Offline && p.started is None && p.exit_code is None
    &&& !p.operation && p.restart_count == 0
    &&& p.last_cpu_ticks == 0 && p.last_sample_ms == now_ms
    &&& p.rx_bytes == 0 && p.tx_bytes == 0
    &&& !p.stopping
    &&& p.console@.len() == 0 && p.console_cursor == 0
    &&& p.dir_cache_ms == 0 && p.dir_cache_bytes == 0
}

/// Whether a console is numbered as it should be: ascending, up to the cursor,
/// and no longer than it may be.
pub open spec fn console_ok(lines: Seq<ConsoleLine>, cursor: u64) -> bool {
    &&& lines.len() <= CONSOLE_LINES
    &&& forall|i: int| 0 <= i < lines.len() ==> (#[trigger] lines[i]).cursor <= cursor
    &&& forall|i: int, j: int|
        0 <= i < j < lines.len() ==> (#[trigger] lines[i]).cursor < (#[trigger] lines[j]).cursor
}

/// A console with a piece of output behind it; the oldest one leaves where it is
/// full.
pub open spec fn kept(lines: Seq<ConsoleLine>) -> Seq<ConsoleLine> {
    if lines.len() >= CONSOLE_LINES {
        lines.drop_first()
    } else {
        lines
    }
}

/// Whether a console is what it was with one piece of output behind it.
pub open spec fn appended(
    lines: Seq<ConsoleLine>,
    after: Seq<ConsoleLine>,
    cursor: u64,
    text: Seq<char>,
) -> bool {
    &&& after.len() == kept(lines).len() + 1
    &&& after.drop_last() == kept(lines)
    &&& after.last().cursor == cursor
    &&& after.last().text@ == text
}

/// Pieces of output behind a cursor.
pub open spec fn behind(after: u64) -> spec_fn(ConsoleLine) -> bool {
    |l: ConsoleLine| l.cursor > after
}

/// The texts of pieces of output.
pub open spec fn texts(lines: Seq<ConsoleLine>) -> Seq<Seq<char>> {
    Seq::new(lines.len(), |i: int| lines[i].text@)
}

/// What a stop comes down to.
#[derive(Debug)]
pub enum StopOrder {
    /// The server is down already. Where force was asked for, what is left in
    /// its group is killed all the same.
    Down { kill_group: bool },
    /// Kill the process and its group at once.
    Kill { victim: u32 },
    /// Ask it to stop: by its command, where it has one, then by signals.
    Ask { asked: u32, line: Option<String> },
}

/// A command as it is written to a console: with a line end.
pub open spec fn as_line(command: Seq<char>) -> Seq<char> {
    if command.len() > 0 && command.last() == '\n' {
        command
    } else {
        command.push('\n')
    }
}

fn to_line(command: &str) -> (r: String)
    ensures
        r@ == as_line(command@),
{
    let cs = text::chars_of(command);
    let mut out = text::copy_of(command);
    if cs.len() == 0 || cs[cs.len() - 1] != '\n' {
        out.push('\n');
    }
    out
}

/// What a stop of a server comes down to.
pub open spec fn is_order(p: ManagedProcess, force: bool, order: StopOrder) -> bool {
    match p.pid {
        None => order == (StopOrder::Down { kill_group: force }),
        Some(pid) => if force {
            order == (StopOrder::Kill { victim: pid })
        } else {
            &&& order is Ask
            &&& order->asked == pid
            &&& match order->line {
                Some(l) => text::trimmed(p.spec.stop_command@).len() > 0 && l@ == as_line(
                    p.spec.stop_command@,
                ),
                None => text::trimmed(p.spec.stop_command@).len() == 0,
            }
        },
    }
}

/// A server that was asked to stop.
pub open spec fn stop_asked(p: ManagedProcess) -> ManagedProcess {
    ManagedProcess {
        stopping: true,
        state: if p.pid is None {
            RunState::Offline
        } else {
            RunState::Stopping
        },
        ..p
    }
}

/// A server whose process has ended.
pub open spec fn ended(p: ManagedProcess, code: Option<i32>) -> ManagedProcess {
    ManagedProcess {
        pid: None,
        exit_code: Some(
            match code {
                Some(c) => c,
                None => (-1) as i32,
            },
        ),
        state: if p.stopping {
            RunState::Offline
        } else {
            RunState::Crashed
        },
        ..p
    }
}

/// A server whose process has been started.
pub open spec fn launched(p: ManagedProcess, pid: u32, now: u64) -> ManagedProcess {
    ManagedProcess {
        pid: Some(pid),
        state: RunState::Running,
        started: Some(now),
        exit_code: None,
        operation: false,
        ..p
    }
}

impl ManagedProcess {
    /// A server that runs nothing yet.
    pub fn new(spec: ServerSpec, now_ms: u64) -> (r: ManagedProcess)
        ensures
            fresh_process(r, spec, now_ms),
            console_ok(r.console@, r.console_cursor),
    {
        ManagedProcess {
            spec,
            pid: None,
            state: RunState::Offline,
            started: None,
            exit_code: None,
            operation: false,
            restart_count: 0,
            last_cpu_ticks: 0,
            last_sample_ms: now_ms,
            rx_bytes: 0,
            tx_bytes: 0,
            stopping: false,
            console: Vec::new(),
            console_cursor: 0,
            dir_cache_ms: 0,
            dir_cache_bytes: 0,
        }
    }

    /// Puts a piece of output behind the console, under the next number. An
    /// empty one changes nothing.
    pub fn append_console(&mut self, text: String)
        requires
            old(self).console_cursor < u64::MAX,
            console_ok(old(self).console@, old(self).console_cursor),
        ensures
            console_ok(final(self).console@, final(self).console_cursor),
            text@.len() == 0 ==> *final(self) == *old(self),
            text@.len() > 0 ==> {
                &&& *final(self) == (ManagedProcess {
                    console: final(self).console,
                    console_cursor: (old(self).console_cursor + 1) as u64,
                    ..*old(self)
                })
                &&& appended(
                    old(self).console@,
                    final(self).console@,
                    (old(self).console_cursor + 1) as u64,
                    text@,
                )
            },
    {
        if text.as_str().is_empty() {
            return;
        }
        let ghost before = self.console@;
        let cursor: u64 = self.console_cursor + 1;
        self.console_cursor = cursor;
        if self.console.len() >= CONSOLE_LINES {
            let _ = self.console.remove(0);
            assert(self.console@ =~= before.drop_first());
        }
        self.console.push(ConsoleLine { cursor, text });
        proof {
            let after = self.console@;
            assert(after.drop_last() =~= kept(before));
            assert forall|i: int, j: int| 0 <= i < j < after.len() implies (#[trigger] after[i]).cursor
                < (#[trigger] after[j]).cursor by {
                assert(after[i] == kept(before)[i]);
                if j < after.len() - 1 {
                    assert(after[j] == kept(before)[j]);
                }
            }
            assert forall|i: int| 0 <= i < after.len() implies (#[trigger] after[i]).cursor
                <= self.console_cursor by {
                if i < after.len() - 1 {
                    assert(after[i] == kept(before)[i]);
                }
            }
        }
    }

    /// The output behind a cursor, and the present cursor.
    pub fn console_since(&self, after: u64) -> (r: (Vec<String>, u64))
        ensures
            text::views(r.0@) == texts(self.console@.filter(behind(after))),
            r.1 == self.console_cursor,
    {
        let ghost all = self.console@;
        let mut out: Vec<String> = Vec::new();
        let mut i: usize = 0;
        assert(all.take(0).filter(behind(after)) =~= Seq::<ConsoleLine>::empty()) by {
            reveal(Seq::filter);
        }
        assert(text::views(out@) =~= texts(all.take(0).filter(behind(after))));
        while i < self.console.len()
            invariant
                i <= self.console@.len(),
                all == self.console@,
                text::views(out@) == texts(all.take(i as int).filter(behind(after))),
            decreases self.console.len() - i,
        {
            let ghost before = out@;
            let ghost done = all.take(i as int).filter(behind(after));
            proof {
                assert(all.take(i + 1).drop_last() =~= all.take(i as int));
                assert(all.take(i + 1).last() == all[i as int]);
                reveal(Seq::filter);
            }
            if self.console[i].cursor > after {
                out.push(text::copy_of(self.console[i].text.as_str()));
                assert(text::views(out@) =~= text::views(before).push(all[i as int].text@));
                assert(texts(done.push(all[i as int])) =~= texts(done).push(all[i as int].text@));
            }
            i += 1;
        }
        assert(all.take(all.len() as int) =~= all);
        (out, self.console_cursor)
    }

    /// Empties the console. The numbers go on where they were.
    pub fn clear_console(&mut self)
        ensures
            *final(self) == (ManagedProcess { console: final(self).console, ..*old(self) }),
            final(self).console@.len() == 0,
            console_ok(final(self).console@, final(self).console_cursor),
    {
        self.console = Vec::new();
    }

    /// Asks for a stop: that is remembered until an explicit restart. Returns
    /// what is to be done for it.
    pub fn stop_inner(&mut self, force: bool) -> (r: StopOrder)
        ensures
            *final(self) == stop_asked(*old(self)),
            is_order(*old(self), force, r),
    {
        self.stopping = true;
        match self.pid {
            None => {
                self.state = RunState::Offline;
                StopOrder::Down { kill_group: force }
            },
            Some(pid) => {
                self.state = RunState::Stopping;
                if force {
                    StopOrder::Kill { victim: pid }
                } else {
                    let cs = text::chars_of(self.spec.stop_command.as_str());
                    let line = if text::trim(cs.as_slice()).len() == 0 {
                        None
                    } else {
                        Some(to_line(self.spec.stop_command.as_str()))
                    };
                    StopOrder::Ask { asked: pid, line }
                }
            },
        }
    }

    /// Takes note that the process has ended. Returns whether it is to be
    /// started again: it is wanted, and nobody asked for the stop.
    pub fn exited(&mut self, code: Option<i32>) -> (r: bool)
        ensures
            *final(self) == ended(*old(self), code),
            r == (!old(self).stopping && old(self).spec.auto_restart),
    {
        self.pid = None;
        self.exit_code = Some(
            match code {
                Some(c) => c,
                None => -1,
            },
        );
        self.state = if self.stopping {
            RunState::Offline
        } else {
            RunState::Crashed
        };
        !self.stopping && self.spec.auto_restart
    }

    /// Whether a crashed server is still to be started, its wait being over: no
    /// stop came meanwhile, and nobody else started it. The attempt is counted.
    pub fn backoff_over(&mut self) -> (r: bool)
        ensures
            r == (!old(self).stopping && old(self).pid is None),
            *final(self) == if r {
                ManagedProcess {
                    restart_count: old(self).restart_count.wrapping_add(1),
                    ..*old(self)
                }
            } else {
                *old(self)
            },
    {
        if self.stopping || self.pid.is_some() {
            return false;
        }
        self.restart_count = self.restart_count.wrapping_add(1);
        true
    }

    /// Takes note of output that was read: `stderr` marks what came from there.
    pub fn take_output(&mut self, text: String, bytes: u64, stderr: bool)
        requires
            old(self).console_cursor < u64::MAX,
            console_ok(old(self).console@, old(self).console_cursor),
        ensures
            console_ok(final(self).console@, final(self).console_cursor),
            ({
                let line = if stderr {
                    "[stderr] "@ + text@
                } else {
                    text@
                };
                let rx = old(self).rx_bytes.wrapping_add(bytes);
                if line.len() == 0 {
                    *final(self) == (ManagedProcess { rx_bytes: rx, ..*old(self) })
                } else {
                    &&& *final(self) == (ManagedProcess {
                        rx_bytes: rx,
                        console: final(self).console,
                        console_cursor: (old(self).console_cursor + 1) as u64,
                        ..*old(self)
                    })
                    &&& appended(
                        old(self).console@,
                        final(self).console@,
                        (old(self).console_cursor + 1) as u64,
                        line,
                    )
                }
            }),
    {
        self.rx_bytes = self.rx_bytes.wrapping_add(bytes);
        if stderr {
            let mut line = text::copy_of("[stderr] ");
            line.append(text.as_str());
            self.append_console(line);
        } else {
            self.append_console(text);
        }
    }

    /// Takes a sample of the processor time used: the ticks since the last one,
    /// and the milliseconds, one at least.
    pub fn sample(&mut self, ticks: u64, now_ms: u64) -> (r: (u64, u64))
        ensures
            *final(self) == (ManagedProcess {
                last_cpu_ticks: ticks,
                last_sample_ms: now_ms,
                ..*old(self)
            }),
            r.0 == if ticks > old(self).last_cpu_ticks {
                ticks - old(self).last_cpu_ticks
            } else {
                0
            },
            r.1 == if now_ms > old(self).last_sample_ms {
                now_ms - old(self).last_sample_ms
            } else {
                1
            },
    {
        let delta: u64 = ticks.saturating_sub(self.last_cpu_ticks);
        let elapsed: u64 = now_ms.saturating_sub(self.last_sample_ms);
        self.last_cpu_ticks = ticks;
        self.last_sample_ms = now_ms;
        let at_least: u64 = if elapsed < 1 {
            1
        } else {
            elapsed
        };
        (delta, at_least)
    }

    /// The size of the server's directory, where it was measured lately.
    pub fn cached_dir_size(&self, now_ms: u64) -> (r: Option<u64>)
        ensures
            r == if now_ms < self.dir_cache_ms + DIR_SIZE_CACHE_MS {
                Some(self.dir_cache_bytes)
            } else {
                None::<u64>
            },
    {
        if now_ms.saturating_sub(self.dir_cache_ms) < DIR_SIZE_CACHE_MS {
            Some(self.dir_cache_bytes)
        } else {
            None
        }
    }

    /// Remembers the size of the server's directory.
    pub fn store_dir_size(&mut self, bytes: u64, now_ms: u64)
        ensures
            *final(self) == (ManagedProcess {
                dir_cache_bytes: bytes,
                dir_cache_ms: now_ms,
                ..*old(self)
            }),
    {
        self.dir_cache_bytes = bytes;
        self.dir_cache_ms = now_ms;
    }

    /// The state of a server, given what it uses and the time.
    pub fn stats(&self, uuid: &str, memory_bytes: u64, disk_bytes: u64, now: u64) -> (r:
        RemoteServerStats)
        ensures
            is_stats(r, *self, uuid@, memory_bytes, disk_bytes, now),
    {
        RemoteServerStats {
            uuid: text::copy_of(uuid),
            state: text::copy_of(self.state.as_str()),
            pid: self.pid,
            memory_bytes: if self.pid.is_some() {
                memory_bytes
            } else {
                0
            },
            disk_bytes,
            network_rx_bytes: self.rx_bytes,
            network_tx_bytes: self.tx_bytes,
            uptime_secs: match self.started {
                Some(t) => now.saturating_sub(t),
                None => 0,
            },
            restart_count: self.restart_count,
            exit_code: self.exit_code,
        }
    }
}

/// The state of a server, as it is told.
pub open spec fn is_stats(
    s: RemoteServerStats,
    p: ManagedProcess,
    uuid: Seq<char>,
    memory: u64,
    disk: u64,
    now: u64,
) -> bool {
    &&& s.uuid@ == uuid && s.state@ == p.state.name() && s.pid == p.pid
    &&& s.memory_bytes == (if p.pid is Some {
        memory
    } else {
        0
    })
    &&& s.disk_bytes == disk && s.network_rx_bytes == p.rx_bytes
    &&& s.network_tx_bytes == p.tx_bytes
    &&& s.uptime_secs == (match p.started {
        Some(t) => if now > t {
            now - t
        } else {
            0
        },
        None => 0,
    })
    &&& s.restart_count == p.restart_count && s.exit_code == p.exit_code
}

/// The servers that a map holds, by uuid.
pub uninterp spec fn processes_of(m: dashmap::DashMap<String, ManagedProcess>) -> Map<Seq<char>, ManagedProcess>;

/// No servers.
pub open spec fn no_processes() -> Map<Seq<char>, ManagedProcess> {
    Map::empty()
}

/// `DashMap::new` makes an empty map.
#[verifier::external_body]
fn processes_new() -> (m: dashmap::DashMap<String, ManagedProcess>)
    ensures
        processes_of(m) == no_processes(),
{
    dashmap::DashMap::new()
}

/// `DashMap::insert` puts a value under a key in place of any it had.
#[verifier::external_body]
fn processes_insert(
    m: &mut dashmap::DashMap<String, ManagedProcess>,
    key: &str,
    value: ManagedProcess,
)
    ensures
        processes_of(*final(m)) == processes_of(*old(m)).insert(key@, value),
{
    m.insert(key.to_string(), value);
}

/// `DashMap::remove` takes a key's value out of the map and hands it back.
#[verifier::external_body]
fn processes_remove(m: &mut dashmap::DashMap<String, ManagedProcess>, key: &str) -> (r: Option<
    ManagedProcess,
>)
    ensures
        processes_of(*final(m)) == processes_of(*old(m)).remove(key@),
        match r {
            Some(p) => processes_of(*old(m)).contains_key(key@) && p == processes_of(*old(m))[key@],
            None => !processes_of(*old(m)).contains_key(key@),
        },
{
    m.remove(key).map(|entry| entry.1)
}

/// `DashMap::view` hands a key's value to a function, here one that picks the
/// process id.
#[verifier::external_body]
fn processes_pid(m: &dashmap::DashMap<String, ManagedProcess>, key: &str) -> (r: Option<
    Option<u32>,
>)
    ensures
        match r {
            Some(pid) => processes_of(*m).contains_key(key@) && pid == processes_of(*m)[key@].pid,
            None => !processes_of(*m).contains_key(key@),
        },
{
    m.view(key, |_, p| p.pid)
}

/// Whether texts are the keys of a map, each one once.
pub open spec fn are_keys(m: Map<Seq<char>, ManagedProcess>, keys: Seq<String>) -> bool {
    &&& forall|k: Seq<char>| #[trigger]
        m.contains_key(k) <==> text::views(keys).contains(k)
    &&& text::views(keys).no_duplicates()
}

/// `DashMap::iter` walks every entry once, in no order that is told; here for
/// its keys.
#[verifier::external_body]
fn processes_keys(m: &dashmap::DashMap<String, ManagedProcess>) -> (r: Vec<String>)
    ensures
        are_keys(processes_of(*m), r@),
{
    m.iter().map(|entry| entry.key().clone()).collect()
}

/// The agent: its configuration and its servers.
pub struct DaemonRuntime {
    config: DaemonConfig,
    processes: dashmap::DashMap<String, ManagedProcess>,
}

impl View for DaemonRuntime {
    type V = Map<Seq<char>, ManagedProcess>;

    closed spec fn view(&self) -> Map<Seq<char>, ManagedProcess> {
        processes_of(self.processes)
    }
}

/// What is needed to launch a server.
#[derive(Debug)]
pub struct Launch {
    pub root: String,
    pub memory_bytes: u64,
    pub cpu_percent: u64,
    pub startup: String,
    /// Variables in the order in which they are set; a later one takes the place
    /// of an earlier one of its name.
    pub env: Vec<(String, String)>,
    pub ports: Vec<u16>,
}

/// Names and values of variables.
pub open spec fn pairs(env: Seq<(String, String)>) -> Seq<(Seq<char>, Seq<char>)> {
    Seq::new(env.len(), |i: int| (env[i].0@, env[i].1@))
}

/// What is needed to launch a server, as its description has it.
pub open spec fn is_launch(l: Launch, cfg: DaemonConfig, uuid: Seq<char>, spec: ServerSpec) -> bool {
    &&& l.root@ == paths::joined(cfg.servers(), uuid)
    &&& l.memory_bytes == spec.memory_mb * 1_048_576
    &&& l.cpu_percent == spec.cpu_percent
    &&& l.startup@ == spec.startup@
    &&& pairs(l.env@) == pairs(spec.env@) + seq![
        ("SERVER_UUID"@, spec.uuid@),
        ("SERVER_NAME"@, spec.name@),
        ("SERVER_MEMORY"@, text::decimal(spec.memory_mb as int)),
    ]
    &&& l.ports@ == (if spec.ports@.len() > 0 {
        spec.ports@
    } else {
        match spec.port {
            Some(p) => seq![p],
            None => Seq::<u16>::empty(),
        }
    })
}

fn launch_of(root: String, spec: &ServerSpec) -> (r: Launch)
    requires
        spec.memory_mb * 1_048_576 <= u64::MAX,
    ensures
        forall|cfg: DaemonConfig, uuid: Seq<char>|
            root@ == #[trigger] paths::joined(cfg.servers(), uuid) ==> is_launch(
                r,
                cfg,
                uuid,
                *spec,
            ),
{
    let mut env: Vec<(String, String)> = Vec::new();
    let mut i: usize = 0;
    while i < spec.env.len()
        invariant
            i <= spec.env@.len(),
            pairs(env@) == pairs(spec.env@).take(i as int),
        decreases spec.env.len() - i,
    {
        let e = &spec.env[i];
        let ghost before = env@;
        env.push((text::copy_of(e.0.as_str()), text::copy_of(e.1.as_str())));
        assert(pairs(env@) =~= pairs(before).push((e.0@, e.1@)));
        i += 1;
        assert(pairs(env@) =~= pairs(spec.env@).take(i as int));
    }
    assert(pairs(env@) =~= pairs(spec.env@));
    env.push((text::copy_of("SERVER_UUID"), text::copy_of(spec.uuid.as_str())));
    env.push((text::copy_of("SERVER_NAME"), text::copy_of(spec.name.as_str())));
    env.push(
        (
            text::copy_of("SERVER_MEMORY"),
            text::string_of(text::decimal_u64(spec.memory_mb).as_slice()),
        ),
    );
    assert(pairs(env@) =~= pairs(spec.env@) + seq![
        ("SERVER_UUID"@, spec.uuid@),
        ("SERVER_NAME"@, spec.name@),
        ("SERVER_MEMORY"@, text::decimal(spec.memory_mb as int)),
    ]);
    let mut ports: Vec<u16> = Vec::new();
    if spec.ports.len() > 0 {
        let mut k: usize = 0;
        while k < spec.ports.len()
            invariant
                k <= spec.ports@.len(),
                ports@ == spec.ports@.take(k as int),
            decreases spec.ports.len() - k,
        {
            ports.push(spec.ports[k]);
            k += 1;
            assert(ports@ =~= spec.ports@.take(k as int));
        }
        assert(ports@ =~= spec.ports@);
    } else if let Some(p) = spec.port {
        ports.push(p);
        assert(ports@ =~= seq![p]);
    }
    Launch {
        root,
        memory_bytes: spec.memory_mb * 1_048_576,
        cpu_percent: spec.cpu_percent,
        startup: text::copy_of(spec.startup.as_str()),
        env,
        ports,
    }
}

/// Why a server cannot be launched, if so.
pub open spec fn launch_fault(p: ManagedProcess, uuid: Seq<char>) -> Option<DaemonError> {
    if p.pid is Some {
        Some(DaemonError::AlreadyRunning)
    } else if !config::is_server_uuid(uuid) {
        Some(DaemonError::InvalidUuid)
    } else {
        None
    }
}

/// Why a start is refused, if so.
pub open spec fn start_fault(
    m: Map<Seq<char>, ManagedProcess>,
    uuid: Seq<char>,
) -> Option<DaemonError> {
    if !m.contains_key(uuid) {
        Some(DaemonError::NotProvisioned)
    } else if m[uuid].operation {
        Some(DaemonError::Busy)
    } else if m[uuid].stopping {
        Some(DaemonError::StopRequested)
    } else {
        launch_fault(m[uuid], uuid)
    }
}

/// Whether the memory of a server, if there is one of this uuid, can be counted
/// in bytes.
pub open spec fn memory_countable(m: Map<Seq<char>, ManagedProcess>, uuid: Seq<char>) -> bool {
    m.contains_key(uuid) ==> m[uuid].spec.memory_mb * 1_048_576 <= u64::MAX
}

/// What a command that was handed to a console's writer came to.
#[derive(Debug)]
pub enum Delivery {
    Written,
    /// The server has no writer.
    NoWriter,
    /// The writer's queue is full.
    Full,
    /// The writer's queue is closed.
    Closed,
    Failed { reason: String },
    /// The writer ended before it answered.
    Lost,
    TimedOut,
}

/// What a delivery is answered with.
pub open spec fn delivery_fault(d: Delivery) -> Option<DaemonError> {
    match d {
        Delivery::Written => None,
        Delivery::NoWriter => Some(DaemonError::NoStdin),
        Delivery::Full => Some(DaemonError::Backlog),
        Delivery::Closed => Some(DaemonError::NoStdin),
        Delivery::Failed { reason } => Some(DaemonError::WriteFailed { reason }),
        Delivery::Lost => Some(DaemonError::WriterGone),
        Delivery::TimedOut => Some(DaemonError::WriteTimedOut),
    }
}

/// What removing a server takes off the disk, where it is there.
#[derive(Debug)]
pub struct Removal {
    pub root: String,
    pub meta: String,
}

/// What comes next in a restart.
#[derive(Debug)]
pub enum RestartStep {
    /// The server is not down yet: wait this many milliseconds.
    Wait { ms: u64 },
    Launch { launch: Launch },
}

/// Whether every stop that was asked for is still remembered, of the servers that
/// are still there.
pub open spec fn keeps_stops(
    before: Map<Seq<char>, ManagedProcess>,
    after: Map<Seq<char>, ManagedProcess>,
) -> bool {
    forall|k: Seq<char>|
        before.contains_key(k) && before[k].stopping && #[trigger] after.contains_key(k)
            ==> after[k].stopping
}

impl DaemonRuntime {
    /// The agent's configuration.
    pub closed spec fn cfg(&self) -> DaemonConfig {
        self.config
    }

    /// The agent's configuration.
    pub fn config(&self) -> (r: &DaemonConfig)
        ensures
            *r == self.cfg(),
    {
        &self.config
    }

    /// An agent without servers.
    pub fn new(config: DaemonConfig) -> (r: DaemonRuntime)
        ensures
            r.cfg() == config,
            r@ == no_processes(),
    {
        DaemonRuntime { config, processes: processes_new() }
    }

    /// Puts a server under supervision; one that is there keeps its state and
    /// takes the new description.
    pub fn provisioned(&mut self, spec: ServerSpec, now_ms: u64)
        ensures
            final(self).cfg() == old(self).cfg(),
            keeps_stops(old(self)@, final(self)@),
            final(self)@ == old(self)@.insert(spec.uuid@, final(self)@[spec.uuid@]),
            old(self)@.contains_key(spec.uuid@) ==> final(self)@[spec.uuid@] == (ManagedProcess {
                spec,
                ..old(self)@[spec.uuid@]
            }),
            !old(self)@.contains_key(spec.uuid@) ==> fresh_process(
                final(self)@[spec.uuid@],
                spec,
                now_ms,
            ),
    {
        let ghost before = self@;
        let uuid = text::copy_of(spec.uuid.as_str());
        let p = match processes_remove(&mut self.processes, uuid.as_str()) {
            Some(mut p) => {
                p.spec = spec;
                p
            },
            None => ManagedProcess::new(spec, now_ms),
        };
        processes_insert(&mut self.processes, uuid.as_str(), p);
        assert(self@ =~= before.insert(uuid@, p));
    }

    /// Puts a server under supervision in place of any of its uuid.
    pub fn adopt(&mut self, p: ManagedProcess)
        ensures
            final(self).cfg() == old(self).cfg(),
            !old(self)@.contains_key(p.spec.uuid@) ==> keeps_stops(old(self)@, final(self)@),
            final(self)@ == old(self)@.insert(p.spec.uuid@, p),
    {
        let uuid = text::copy_of(p.spec.uuid.as_str());
        processes_insert(&mut self.processes, uuid.as_str(), p);
    }

    /// Starts a server: what is to be launched. A server that was asked to stop
    /// stays down.
    pub fn start(&mut self, uuid: &str) -> (r: Result<Launch, DaemonError>)
        requires
            start_fault(old(self)@, uuid@) is None ==> memory_countable(old(self)@, uuid@),
        ensures
            final(self).cfg() == old(self).cfg(),
            keeps_stops(old(self)@, final(self)@),
            match start_fault(old(self)@, uuid@) {
                Some(e) => r == Err::<Launch, DaemonError>(e) && final(self)@ == old(self)@,
                None => r is Ok && is_launch(
                    r->Ok_0,
                    old(self).cfg(),
                    uuid@,
                    old(self)@[uuid@].spec,
                ) && final(self)@ == old(self)@.insert(
                    uuid@,
                    (ManagedProcess { operation: true, ..old(self)@[uuid@] }),
                ),
            },
    {
        let ghost before = self@;
        let mut p = match processes_remove(&mut self.processes, uuid) {
            Some(p) => p,
            None => {
                assert(before.remove(uuid@) =~= before);
                return Err(DaemonError::NotProvisioned);
            },
        };
        let r = if p.operation {
            Err(DaemonError::Busy)
        } else if p.stopping {
            Err(DaemonError::StopRequested)
        } else if p.pid.is_some() {
            Err(DaemonError::AlreadyRunning)
        } else {
            match self.config.server_root(uuid) {
                Ok(root) => {
                    let l = launch_of(root, &p.spec);
                    p.operation = true;
                    Ok(l)
                },
                Err(_) => Err(DaemonError::InvalidUuid),
            }
        };
        processes_insert(&mut self.processes, uuid, p);
        assert(self@ =~= before.insert(uuid@, p));
        assert(r is Err ==> self@ =~= before);
        r
    }

    /// Takes note that a server was launched.
    pub fn started(&mut self, uuid: &str, pid: u32, now: u64) -> (r: Result<(), DaemonError>)
        ensures
            final(self).cfg() == old(self).cfg(),
            keeps_stops(old(self)@, final(self)@),
            if old(self)@.contains_key(uuid@) {
                r is Ok && final(self)@ == old(self)@.insert(
                    uuid@,
                    launched(old(self)@[uuid@], pid, now),
                )
            } else {
                r == Err::<(), DaemonError>(DaemonError::NotProvisioned) && final(self)@ == old(self)@
            },
    {
        let ghost before = self@;
        match processes_remove(&mut self.processes, uuid) {
            Some(mut p) => {
                p.pid = Some(pid);
                p.state = RunState::Running;
                p.started = Some(now);
                p.exit_code = None;
                p.operation = false;
                processes_insert(&mut self.processes, uuid, p);
                assert(self@ =~= before.insert(uuid@, p));
                Ok(())
            },
            None => {
                assert(before.remove(uuid@) =~= before);
                Err(DaemonError::NotProvisioned)
            },
        }
    }

    /// Takes note that a launch failed: the operation is over, and nothing else
    /// has changed.
    pub fn launch_failed(&mut self, uuid: &str)
        ensures
            final(self).cfg() == old(self).cfg(),
            keeps_stops(old(self)@, final(self)@),
            final(self)@ == if old(self)@.contains_key(uuid@) {
                old(self)@.insert(
                    uuid@,
                    (ManagedProcess { operation: false, ..old(self)@[uuid@] }),
                )
            } else {
                old(self)@
            },
    {
        let ghost before = self@;
        match processes_remove(&mut self.processes, uuid) {
            Some(mut p) => {
                p.operation = false;
                processes_insert(&mut self.processes, uuid, p);
                assert(self@ =~= before.insert(uuid@, p));
            },
            None => {
                assert(before.remove(uuid@) =~= before);
            },
        }
    }

    /// Asks a server to stop, or kills it: what is to be done for it.
    pub fn stop(&mut self, uuid: &str, force: bool) -> (r: Result<StopOrder, DaemonError>)
        ensures
            final(self).cfg() == old(self).cfg(),
            keeps_stops(old(self)@, final(self)@),
            if !old(self)@.contains_key(uuid@) {
                r == Err::<StopOrder, DaemonError>(DaemonError::NotProvisioned) && final(self)@
                    == old(self)@
            } else if old(self)@[uuid@].operation {
                r == Err::<StopOrder, DaemonError>(DaemonError::Busy) && final(self)@ == old(self)@
            } else {
                r is Ok && is_order(old(self)@[uuid@], force, r->Ok_0) && final(self)@ == old(self)@.insert(uuid@, stop_asked(old(self)@[uuid@]))
            },
    {
        let ghost before = self@;
        let mut p = match processes_remove(&mut self.processes, uuid) {
            Some(p) => p,
            None => {
                assert(before.remove(uuid@) =~= before);
                return Err(DaemonError::NotProvisioned);
            },
        };
        let r = if p.operation {
            Err(DaemonError::Busy)
        } else {
            Ok(p.stop_inner(force))
        };
        processes_insert(&mut self.processes, uuid, p);
        assert(self@ =~= before.insert(uuid@, p));
        assert(r is Err ==> self@ =~= before);
        r
    }

    /// Begins a restart: the server is asked to stop, and the operation goes on
    /// until it is launched again.
    pub fn restart(&mut self, uuid: &str) -> (r: Result<StopOrder, DaemonError>)
        ensures
            final(self).cfg() == old(self).cfg(),
            keeps_stops(old(self)@, final(self)@),
            if !old(self)@.contains_key(uuid@) {
                r == Err::<StopOrder, DaemonError>(DaemonError::NotProvisioned) && final(self)@
                    == old(self)@
            } else if old(self)@[uuid@].operation {
                r == Err::<StopOrder, DaemonError>(DaemonError::Busy) && final(self)@ == old(self)@
            } else {
                r is Ok && is_order(old(self)@[uuid@], false, r->Ok_0) && final(self)@ == old(self)@.insert(
                    uuid@,
                    (ManagedProcess { operation: true, ..stop_asked(old(self)@[uuid@]) }),
                )
            },
    {
        let ghost before = self@;
        let mut p = match processes_remove(&mut self.processes, uuid) {
            Some(p) => p,
            None => {
                assert(before.remove(uuid@) =~= before);
                return Err(DaemonError::NotProvisioned);
            },
        };
        let r = if p.operation {
            Err(DaemonError::Busy)
        } else {
            let order = p.stop_inner(false);
            p.operation = true;
            Ok(order)
        };
        processes_insert(&mut self.processes, uuid, p);
        assert(self@ =~= before.insert(uuid@, p));
        assert(r is Err ==> self@ =~= before);
        r
    }

    /// Goes on with a restart: waits until the server is down, for so long and no
    /// longer, then takes the stop back and launches it.
    pub fn restart_step(&mut self, uuid: &str, elapsed_ms: u64) -> (r: Result<
        RestartStep,
        DaemonError,
    >)
        requires
            !runs(old(self)@, uuid@) && config::is_server_uuid(uuid@) ==> memory_countable(
                old(self)@,
                uuid@,
            ),
        ensures
            final(self).cfg() == old(self).cfg(),
            if !old(self)@.contains_key(uuid@) {
                r == Err::<RestartStep, DaemonError>(DaemonError::NotProvisioned) && final(self)@
                    == old(self)@
            } else {
                let p = old(self)@[uuid@];
                if p.pid is Some {
                    if elapsed_ms < RESTART_WINDOW_MS {
                        r == Ok::<RestartStep, DaemonError>(RestartStep::Wait { ms: 100 })
                            && final(self)@ == old(self)@
                    } else {
                        r == Err::<RestartStep, DaemonError>(DaemonError::RestartWindow) && final(self)@ == old(self)@.insert(
                            uuid@,
                            (ManagedProcess { operation: false, ..p }),
                        )
                    }
                } else if !config::is_server_uuid(uuid@) {
                    r == Err::<RestartStep, DaemonError>(DaemonError::InvalidUuid) && final(self)@
                        == old(self)@.insert(
                        uuid@,
                        (ManagedProcess { operation: false, stopping: false, ..p }),
                    )
                } else {
                    &&& r is Ok && r->Ok_0 is Launch && is_launch(
                        r->Ok_0->launch,
                        old(self).cfg(),
                        uuid@,
                        p.spec,
                    )
                    &&& final(self)@ == old(self)@.insert(
                        uuid@,
                        (ManagedProcess { stopping: false, ..p }),
                    )
                }
            },
    {
        let ghost before = self@;
        let mut p = match processes_remove(&mut self.processes, uuid) {
            Some(p) => p,
            None => {
                assert(before.remove(uuid@) =~= before);
                return Err(DaemonError::NotProvisioned);
            },
        };
        let r = if p.pid.is_some() {
            if elapsed_ms < RESTART_WINDOW_MS {
                Ok(RestartStep::Wait { ms: 100 })
            } else {
                p.operation = false;
                Err(DaemonError::RestartWindow)
            }
        } else {
            p.stopping = false;
            match self.config.server_root(uuid) {
                Ok(root) => Ok(RestartStep::Launch { launch: launch_of(root, &p.spec) }),
                Err(_) => {
                    p.operation = false;
                    Err(DaemonError::InvalidUuid)
                },
            }
        };
        processes_insert(&mut self.processes, uuid, p);
        assert(self@ =~= before.insert(uuid@, p));
        assert(p == before[uuid@] ==> self@ =~= before);
        r
    }

    /// Takes note that a server's process has ended: whether it is to be started
    /// again.
    pub fn exited(&mut self, uuid: &str, code: Option<i32>) -> (r: bool)
        ensures
            final(self).cfg() == old(self).cfg(),
            keeps_stops(old(self)@, final(self)@),
            if old(self)@.contains_key(uuid@) {
                let p = old(self)@[uuid@];
                r == (!p.stopping && p.spec.auto_restart) && final(self)@ == old(self)@.insert(
                    uuid@,
                    ended(p, code),
                )
            } else {
                !r && final(self)@ == old(self)@
            },
    {
        let ghost before = self@;
        match processes_remove(&mut self.processes, uuid) {
            Some(mut p) => {
                let r = p.exited(code);
                processes_insert(&mut self.processes, uuid, p);
                assert(self@ =~= before.insert(uuid@, p));
                r
            },
            None => {
                assert(before.remove(uuid@) =~= before);
                false
            },
        }
    }

    /// Whether a crashed server is still to be started, its wait being over; the
    /// attempt is counted.
    pub fn backoff_over(&mut self, uuid: &str) -> (r: bool)
        ensures
            final(self).cfg() == old(self).cfg(),
            keeps_stops(old(self)@, final(self)@),
            if old(self)@.contains_key(uuid@) {
                let p = old(self)@[uuid@];
                &&& r == (!p.stopping && p.pid is None)
                &&& final(self)@ == if r {
                    old(self)@.insert(
                        uuid@,
                        (ManagedProcess { restart_count: p.restart_count.wrapping_add(1), ..p }),
                    )
                } else {
                    old(self)@
                }
            } else {
                !r && final(self)@ == old(self)@
            },
    {
        let ghost before = self@;
        match processes_remove(&mut self.processes, uuid) {
            Some(mut p) => {
                let r = p.backoff_over();
                processes_insert(&mut self.processes, uuid, p);
                assert(self@ =~= before.insert(uuid@, p));
                assert(!r ==> self@ =~= before);
                r
            },
            None => {
                assert(before.remove(uuid@) =~= before);
                false
            },
        }
    }

    /// A command for a server's console, as it is written there.
    pub fn command(&self, uuid: &str, command: &str) -> (r: Result<String, DaemonError>)
        ensures
            if text::byte_len(command@) > MAX_STDIN_WRITE_BYTES {
                r == Err::<String, DaemonError>(DaemonError::CommandTooLong)
            } else if !self@.contains_key(uuid@) {
                r == Err::<String, DaemonError>(DaemonError::NotProvisioned)
            } else {
                r is Ok && r->Ok_0@ == as_line(command@)
            },
    {
        if text::byte_length(command) > MAX_STDIN_WRITE_BYTES {
            return Err(DaemonError::CommandTooLong);
        }
        match processes_pid(&self.processes, uuid) {
            Some(_) => Ok(to_line(command)),
            None => Err(DaemonError::NotProvisioned),
        }
    }

    /// Takes note of what came of a command of this many bytes.
    pub fn delivered(&mut self, uuid: &str, bytes: u64, outcome: Delivery) -> (r: Result<
        bool,
        DaemonError,
    >)
        ensures
            final(self).cfg() == old(self).cfg(),
            keeps_stops(old(self)@, final(self)@),
            match delivery_fault(outcome) {
                Some(e) => r == Err::<bool, DaemonError>(e) && final(self)@ == old(self)@,
                None => r == Ok::<bool, DaemonError>(true) && final(self)@ == if old(self)@.contains_key(uuid@) {
                    let p = old(self)@[uuid@];
                    old(self)@.insert(
                        uuid@,
                        (ManagedProcess { tx_bytes: p.tx_bytes.wrapping_add(bytes), ..p }),
                    )
                } else {
                    old(self)@
                },
            },
    {
        match outcome {
            Delivery::Written => {},
            Delivery::NoWriter => return Err(DaemonError::NoStdin),
            Delivery::Full => return Err(DaemonError::Backlog),
            Delivery::Closed => return Err(DaemonError::NoStdin),
            Delivery::Failed { reason } => return Err(DaemonError::WriteFailed { reason }),
            Delivery::Lost => return Err(DaemonError::WriterGone),
            Delivery::TimedOut => return Err(DaemonError::WriteTimedOut),
        }
        let ghost before = self@;
        match processes_remove(&mut self.processes, uuid) {
            Some(mut p) => {
                p.tx_bytes = p.tx_bytes.wrapping_add(bytes);
                processes_insert(&mut self.processes, uuid, p);
                assert(self@ =~= before.insert(uuid@, p));
            },
            None => {
                assert(before.remove(uuid@) =~= before);
            },
        }
        Ok(true)
    }

    /// Takes a server that is down off the agent: what is to be removed.
    pub fn remove_server(&mut self, uuid: &str) -> (r: Result<Removal, DaemonError>)
        ensures
            final(self).cfg() == old(self).cfg(),
            keeps_stops(old(self)@, final(self)@),
            if !old(self)@.contains_key(uuid@) {
                r == Err::<Removal, DaemonError>(DaemonError::NotProvisioned) && final(self)@
                    == old(self)@
            } else if old(self)@[uuid@].operation {
                r == Err::<Removal, DaemonError>(DaemonError::Busy) && final(self)@ == old(self)@
            } else if old(self)@[uuid@].pid is Some {
                r == Err::<Removal, DaemonError>(DaemonError::MustStop) && final(self)@ == old(self)@
            } else {
                &&& final(self)@ == old(self)@.remove(uuid@)
                &&& if config::is_server_uuid(uuid@) {
                    r is Ok && r->Ok_0.root@ == paths::joined(old(self).cfg().servers(), uuid@)
                        && r->Ok_0.meta@ == paths::joined(
                        paths::joined(old(self).cfg().data_dir@, "meta"@),
                        uuid@ + ".json"@,
                    )
                } else {
                    r == Err::<Removal, DaemonError>(DaemonError::InvalidUuid)
                }
            },
    {
        let ghost before = self@;
        let p = match processes_remove(&mut self.processes, uuid) {
            Some(p) => p,
            None => {
                assert(before.remove(uuid@) =~= before);
                return Err(DaemonError::NotProvisioned);
            },
        };
        let fault = if p.operation {
            Some(DaemonError::Busy)
        } else if p.pid.is_some() {
            Some(DaemonError::MustStop)
        } else {
            None
        };
        if let Some(e) = fault {
            processes_insert(&mut self.processes, uuid, p);
            assert(self@ =~= before);
            return Err(e);
        }
        match self.config.server_root(uuid) {
            Ok(root) => Ok(Removal { root, meta: self.config.spec_path(uuid) }),
            Err(_) => Err(DaemonError::InvalidUuid),
        }
    }

    /// Takes note of output that was read from a server.
    pub fn take_output(&mut self, uuid: &str, text: String, bytes: u64, stderr: bool)
        requires
            old(self)@.contains_key(uuid@) ==> old(self)@[uuid@].console_cursor < u64::MAX
                && console_ok(old(self)@[uuid@].console@, old(self)@[uuid@].console_cursor),
        ensures
            final(self).cfg() == old(self).cfg(),
            keeps_stops(old(self)@, final(self)@),
            !old(self)@.contains_key(uuid@) ==> final(self)@ == old(self)@,
            old(self)@.contains_key(uuid@) ==> ({
                let p = old(self)@[uuid@];
                let q = final(self)@[uuid@];
                let line = if stderr {
                    "[stderr] "@ + text@
                } else {
                    text@
                };
                &&& final(self)@ == old(self)@.insert(uuid@, q)
                &&& console_ok(q.console@, q.console_cursor)
                &&& if line.len() == 0 {
                    q == (ManagedProcess { rx_bytes: p.rx_bytes.wrapping_add(bytes), ..p })
                } else {
                    &&& q == (ManagedProcess {
                        rx_bytes: p.rx_bytes.wrapping_add(bytes),
                        console: q.console,
                        console_cursor: (p.console_cursor + 1) as u64,
                        ..p
                    })
                    &&& appended(
                        p.console@,
                        q.console@,
                        (p.console_cursor + 1) as u64,
                        line,
                    )
                }
            }),
    {
        let ghost before = self@;
        match processes_remove(&mut self.processes, uuid) {
            Some(mut p) => {
                p.take_output(text, bytes, stderr);
                processes_insert(&mut self.processes, uuid, p);
                assert(self@ =~= before.insert(uuid@, p));
            },
            None => {
                assert(before.remove(uuid@) =~= before);
            },
        }
    }

    /// The output of a server behind a cursor, and the present cursor.
    pub fn console(&mut self, uuid: &str, after: u64) -> (r: Result<(Vec<String>, u64), DaemonError>)
        ensures
            final(self).cfg() == old(self).cfg(),
            final(self)@ == old(self)@,
            if old(self)@.contains_key(uuid@) {
                let p = old(self)@[uuid@];
                &&& r is Ok
                &&& text::views((r->Ok_0).0@) == texts(p.console@.filter(behind(after)))
                &&& (r->Ok_0).1 == p.console_cursor
            } else {
                r == Err::<(Vec<String>, u64), DaemonError>(DaemonError::NotProvisioned)
            },
    {
        let ghost before = self@;
        match processes_remove(&mut self.processes, uuid) {
            Some(p) => {
                let r = p.console_since(after);
                processes_insert(&mut self.processes, uuid, p);
                assert(self@ =~= before);
                Ok(r)
            },
            None => {
                assert(before.remove(uuid@) =~= before);
                Err(DaemonError::NotProvisioned)
            },
        }
    }

    /// Empties a server's console. Its numbers go on where they were.
    pub fn clear_console(&mut self, uuid: &str) -> (r: Result<bool, DaemonError>)
        ensures
            final(self).cfg() == old(self).cfg(),
            keeps_stops(old(self)@, final(self)@),
            if old(self)@.contains_key(uuid@) {
                let q = final(self)@[uuid@];
                &&& r == Ok::<bool, DaemonError>(true)
                &&& final(self)@ == old(self)@.insert(uuid@, q)
                &&& q == (ManagedProcess { console: q.console, ..old(self)@[uuid@] })
                &&& q.console@.len() == 0
            } else {
                r == Err::<bool, DaemonError>(DaemonError::NotProvisioned) && final(self)@ == old(self)@
            },
    {
        let ghost before = self@;
        match processes_remove(&mut self.processes, uuid) {
            Some(mut p) => {
                p.clear_console();
                processes_insert(&mut self.processes, uuid, p);
                assert(self@ =~= before.insert(uuid@, p));
                Ok(true)
            },
            None => {
                assert(before.remove(uuid@) =~= before);
                Err(DaemonError::NotProvisioned)
            },
        }
    }

    /// The state of a server, given what it uses and the time.
    pub fn stats(&mut self, uuid: &str, memory_bytes: u64, disk_bytes: u64, now: u64) -> (r: Result<
        RemoteServerStats,
        DaemonError,
    >)
        ensures
            final(self).cfg() == old(self).cfg(),
            final(self)@ == old(self)@,
            if !old(self)@.contains_key(uuid@) {
                r == Err::<RemoteServerStats, DaemonError>(DaemonError::NotProvisioned)
            } else if !config::is_server_uuid(uuid@) {
                r == Err::<RemoteServerStats, DaemonError>(DaemonError::InvalidUuid)
            } else {
                r is Ok && is_stats(
                    r->Ok_0,
                    old(self)@[uuid@],
                    uuid@,
                    memory_bytes,
                    disk_bytes,
                    now,
                )
            },
    {
        let ghost before = self@;
        match processes_remove(&mut self.processes, uuid) {
            Some(p) => {
                let s = p.stats(uuid, memory_bytes, disk_bytes, now);
                processes_insert(&mut self.processes, uuid, p);
                assert(self@ =~= before);
                match config::validate_uuid(uuid) {
                    Ok(()) => Ok(s),
                    Err(_) => Err(DaemonError::InvalidUuid),
                }
            },
            None => {
                assert(before.remove(uuid@) =~= before);
                Err(DaemonError::NotProvisioned)
            },
        }
    }

    /// Takes a sample of the processor time that a server used: the ticks since
    /// the last one, and the milliseconds, one at least.
    pub fn sample(&mut self, uuid: &str, ticks: u64, now_ms: u64) -> (r: Result<
        (u64, u64),
        DaemonError,
    >)
        ensures
            final(self).cfg() == old(self).cfg(),
            keeps_stops(old(self)@, final(self)@),
            if old(self)@.contains_key(uuid@) {
                let p = old(self)@[uuid@];
                let q = final(self)@[uuid@];
                &&& final(self)@ == old(self)@.insert(uuid@, q)
                &&& q == (ManagedProcess { last_cpu_ticks: ticks, last_sample_ms: now_ms, ..p })
                &&& r is Ok
                &&& (r->Ok_0).0 == if ticks > p.last_cpu_ticks {
                    ticks - p.last_cpu_ticks
                } else {
                    0
                }
                &&& (r->Ok_0).1 == if now_ms > p.last_sample_ms {
                    now_ms - p.last_sample_ms
                } else {
                    1
                }
            } else {
                r == Err::<(u64, u64), DaemonError>(DaemonError::NotProvisioned) && final(self)@
                    == old(self)@
            },
    {
        let ghost before = self@;
        match processes_remove(&mut self.processes, uuid) {
            Some(mut p) => {
                let r = p.sample(ticks, now_ms);
                processes_insert(&mut self.processes, uuid, p);
                assert(self@ =~= before.insert(uuid@, p));
                Ok(r)
            },
            None => {
                assert(before.remove(uuid@) =~= before);
                Err(DaemonError::NotProvisioned)
            },
        }
    }

    /// The size of a server's directory, where it was measured a short while ago.
    pub fn cached_dir_size(&mut self, uuid: &str, now_ms: u64) -> (r: Option<u64>)
        ensures
            final(self).cfg() == old(self).cfg(),
            final(self)@ == old(self)@,
            r == if old(self)@.contains_key(uuid@) && now_ms < old(self)@[uuid@].dir_cache_ms
                + DIR_SIZE_CACHE_MS {
                Some(old(self)@[uuid@].dir_cache_bytes)
            } else {
                None::<u64>
            },
    {
        let ghost before = self@;
        match processes_remove(&mut self.processes, uuid) {
            Some(p) => {
                let r = p.cached_dir_size(now_ms);
                processes_insert(&mut self.processes, uuid, p);
                assert(self@ =~= before);
                r
            },
            None => {
                assert(before.remove(uuid@) =~= before);
                None
            },
        }
    }

    /// Keeps the size of a server's directory, as it was measured.
    pub fn store_dir_size(&mut self, uuid: &str, bytes: u64, now_ms: u64)
        ensures
            final(self).cfg() == old(self).cfg(),
            keeps_stops(old(self)@, final(self)@),
            final(self)@ == if old(self)@.contains_key(uuid@) {
                old(self)@.insert(
                    uuid@,
                    (ManagedProcess {
                        dir_cache_bytes: bytes,
                        dir_cache_ms: now_ms,
                        ..old(self)@[uuid@]
                    }),
                )
            } else {
                old(self)@
            },
    {
        let ghost before = self@;
        match processes_remove(&mut self.processes, uuid) {
            Some(mut p) => {
                p.store_dir_size(bytes, now_ms);
                processes_insert(&mut self.processes, uuid, p);
                assert(self@ =~= before.insert(uuid@, p));
            },
            None => {
                assert(before.remove(uuid@) =~= before);
            },
        }
    }
}

/// Whether texts are the servers that run, each one once.
pub open spec fn are_running(m: Map<Seq<char>, ManagedProcess>, uuids: Seq<String>) -> bool {
    &&& forall|k: Seq<char>|
        #![trigger text::views(uuids).contains(k)]
        text::views(uuids).contains(k) <==> m.contains_key(k) && m[k].pid is Some
    &&& text::views(uuids).no_duplicates()
}

/// Whether a server runs.
pub open spec fn runs(m: Map<Seq<char>, ManagedProcess>, uuid: Seq<char>) -> bool {
    m.contains_key(uuid) && m[uuid].pid is Some
}

impl DaemonRuntime {
    /// Whether a server runs.
    pub fn is_running(&self, uuid: &str) -> (r: bool)
        ensures
            r == runs(self@, uuid@),
    {
        match processes_pid(&self.processes, uuid) {
            Some(pid) => pid.is_some(),
            None => false,
        }
    }

    /// Whether a server is under supervision.
    pub fn is_provisioned(&self, uuid: &str) -> (r: bool)
        ensures
            r == self@.contains_key(uuid@),
    {
        processes_pid(&self.processes, uuid).is_some()
    }

    /// The servers that run, in no order that is told.
    pub fn running_servers(&self) -> (r: Vec<String>)
        ensures
            are_running(self@, r@),
    {
        let keys = processes_keys(&self.processes);
        let ghost all = text::views(keys@);
        let mut out: Vec<String> = Vec::new();
        let mut i: usize = 0;
        assert(text::views(out@) =~= Seq::<Seq<char>>::empty());
        while i < keys.len()
            invariant
                i <= keys@.len(),
                all == text::views(keys@),
                all.no_duplicates(),
                forall|k: Seq<char>|
                    #![trigger text::views(out@).contains(k)]
                    text::views(out@).contains(k) <==> all.take(i as int).contains(k) && runs(
                        self@,
                        k,
                    ),
                text::views(out@).no_duplicates(),
            decreases keys.len() - i,
        {
            let ghost before = text::views(out@);
            let ghost key = all[i as int];
            let ghost done = all.take(i as int);
            proof {
                assert(all.take(i + 1) =~= done.push(key));
                assert(!done.contains(key)) by {
                    if done.contains(key) {
                        let j = choose|j: int| 0 <= j < done.len() && done[j] == key;
                        assert(all[j] == all[i as int]);
                    }
                }
            }
            if self.is_running(keys[i].as_str()) {
                out.push(text::copy_of(keys[i].as_str()));
                assert(text::views(out@) =~= before.push(key));
                assert(!before.contains(key));
            }
            proof {
                let now = text::views(out@);
                assert forall|k: Seq<char>| #![trigger now.contains(k)] now.contains(k)
                    <==> done.push(key).contains(k) && runs(self@, k) by {
                    lemma_push_contains(done, key, k);
                    if now != before {
                        lemma_push_contains(before, key, k);
                    }
                }
                if now != before {
                    assert forall|a: int, b: int|
                        0 <= a < now.len() && 0 <= b < now.len() && a != b implies now[a]
                        != now[b] by {
                        if a == now.len() - 1 && now[b] == key {
                            assert(before[b] == key);
                        }
                        if b == now.len() - 1 && now[a] == key {
                            assert(before[a] == key);
                        }
                        if a < now.len() - 1 && b < now.len() - 1 {
                            assert(before[a] != before[b]);
                        }
                    }
                }
            }
            i += 1;
        }
        proof {
            assert(all.take(all.len() as int) =~= all);
            assert forall|k: Seq<char>|
                #![trigger text::views(out@).contains(k)]
                text::views(out@).contains(k) <==> self@.contains_key(k) && self@[k].pid is Some by {
                assert(self@.contains_key(k) <==> all.contains(k));
            }
        }
        out
    }

    /// How many servers run, and how many there are.
    pub fn server_counts(&self) -> (r: (usize, usize))
        ensures
            exists|up: Seq<String>, keys: Seq<String>| #[trigger]
                are_running(self@, up) && #[trigger] are_keys(self@, keys) && r.0 == up.len() && r.1
                    == keys.len(),
    {
        let up = self.running_servers();
        let keys = processes_keys(&self.processes);
        assert(are_running(self@, up@) && are_keys(self@, keys@));
        (up.len(), keys.len())
    }

    /// Of some servers, those that still run.
    pub fn stragglers(&self, uuids: &Vec<String>) -> (r: Vec<String>)
        ensures
            text::views(r@) == text::views(uuids@).filter(|u: Seq<char>| runs(self@, u)),
    {
        let ghost all = text::views(uuids@);
        let ghost keep = |u: Seq<char>| runs(self@, u);
        let mut out: Vec<String> = Vec::new();
        let mut i: usize = 0;
        assert(all.take(0).filter(keep) =~= Seq::<Seq<char>>::empty()) by {
            reveal(Seq::filter);
        }
        assert(text::views(out@) =~= Seq::<Seq<char>>::empty());
        while i < uuids.len()
            invariant
                i <= uuids@.len(),
                all == text::views(uuids@),
                keep == (|u: Seq<char>| runs(self@, u)),
                text::views(out@) == all.take(i as int).filter(keep),
            decreases uuids.len() - i,
        {
            let ghost before = text::views(out@);
            proof {
                assert(all.take(i + 1).drop_last() =~= all.take(i as int));
                assert(all.take(i + 1).last() == all[i as int]);
                reveal(Seq::filter);
            }
            if self.is_running(uuids[i].as_str()) {
                out.push(text::copy_of(uuids[i].as_str()));
                assert(text::views(out@) =~= before.push(all[i as int]));
            }
            i += 1;
        }
        assert(all.take(all.len() as int) =~= all);
        out
    }
}

proof fn lemma_push_contains(s: Seq<Seq<char>>, x: Seq<char>, k: Seq<char>)
    ensures
        s.push(x).contains(k) <==> s.contains(k) || k == x,
{
    if s.push(x).contains(k) {
        let i = choose|i: int| 0 <= i < s.push(x).len() && s.push(x)[i] == k;
        if i < s.len() {
            assert(s[i] == k);
        }
    }
    if s.contains(k) {
        let i = choose|i: int| 0 <= i < s.len() && s[i] == k;
        assert(s.push(x)[i] == k);
    }
    assert(s.push(x)[s.len() as int] == x);
}

/// Where the launch of a server stands: what is to be done next, or how it ended.
#[derive(Debug, Clone, Copy, PartialEq, Eq, Structural)]
pub enum LaunchPhase {
    /// Prepare the server's directory.
    Prepare,
    /// Make its control group.
    Group,
    /// Put its command into a sandbox.
    Sandbox,
    /// Spawn it.
    Spawn,
    /// See that all of it is in its group.
    Attach,
    /// Take hold of its output.
    Stdout,
    Stderr,
    /// Give it its ports.
    Network,
    /// Kill what was spawned, wait for it and remove its group.
    Reap,
    Running,
    Failed,
}

/// The phase that follows one that went well or not.
pub open spec fn launch_behind(p: LaunchPhase, ok: bool) -> LaunchPhase {
    match p {
        LaunchPhase::Running => LaunchPhase::Running,
        LaunchPhase::Failed => LaunchPhase::Failed,
        LaunchPhase::Reap => LaunchPhase::Failed,
        _ => if ok {
            match p {
                LaunchPhase::Prepare => LaunchPhase::Group,
                LaunchPhase::Group => LaunchPhase::Sandbox,
                LaunchPhase::Sandbox => LaunchPhase::Spawn,
                LaunchPhase::Spawn => LaunchPhase::Attach,
                LaunchPhase::Attach => LaunchPhase::Stdout,
                LaunchPhase::Stdout => LaunchPhase::Stderr,
                LaunchPhase::Stderr => LaunchPhase::Network,
                _ => LaunchPhase::Running,
            }
        } else if has_child(p) {
            LaunchPhase::Reap
        } else {
            LaunchPhase::Failed
        },
    }
}

/// Whether a process has been spawned when a phase begins, and is not reaped.
pub open spec fn has_child(p: LaunchPhase) -> bool {
    p == LaunchPhase::Attach || p == LaunchPhase::Stdout || p == LaunchPhase::Stderr || p
        == LaunchPhase::Network || p == LaunchPhase::Reap || p == LaunchPhase::Running
}

/// Goes on with the launch of a server.
pub fn start_inner(p: LaunchPhase, ok: bool) -> (r: LaunchPhase)
    ensures
        r == launch_behind(p, ok),
{
    match p {
        LaunchPhase::Running => LaunchPhase::Running,
        LaunchPhase::Failed | LaunchPhase::Reap => LaunchPhase::Failed,
        LaunchPhase::Prepare => if ok {
            LaunchPhase::Group
        } else {
            LaunchPhase::Failed
        },
        LaunchPhase::Group => if ok {
            LaunchPhase::Sandbox
        } else {
            LaunchPhase::Failed
        },
        LaunchPhase::Sandbox => if ok {
            LaunchPhase::Spawn
        } else {
            LaunchPhase::Failed
        },
        LaunchPhase::Spawn => if ok {
            LaunchPhase::Attach
        } else {
            LaunchPhase::Failed
        },
        LaunchPhase::Attach => if ok {
            LaunchPhase::Stdout
        } else {
            LaunchPhase::Reap
        },
        LaunchPhase::Stdout => if ok {
            LaunchPhase::Stderr
        } else {
            LaunchPhase::Reap
        },
        LaunchPhase::Stderr => if ok {
            LaunchPhase::Network
        } else {
            LaunchPhase::Reap
        },
        LaunchPhase::Network => if ok {
            LaunchPhase::Running
        } else {
            LaunchPhase::Reap
        },
    }
}

/// What a launch that failed for want of a pipe is answered with.
pub fn pipe_fault(p: LaunchPhase) -> (r: Option<DaemonError>)
    ensures
        r == (if p == LaunchPhase::Stdout {
            Some(DaemonError::NoStdout)
        } else if p == LaunchPhase::Stderr {
            Some(DaemonError::NoStderr)
        } else {
            None::<DaemonError>
        }),
{
    match p {
        LaunchPhase::Stdout => Some(DaemonError::NoStdout),
        LaunchPhase::Stderr => Some(DaemonError::NoStderr),
        _ => None,
    }
}

/// Where a launch stands after steps that went well or not.
pub open spec fn launch_after(oks: Seq<bool>) -> LaunchPhase
    decreases oks.len(),
{
    if oks.len() == 0 {
        LaunchPhase::Prepare
    } else {
        launch_behind(launch_after(oks.drop_last()), oks.last())
    }
}

/// A failed launch leaves nothing running: it comes to an end only from a phase
/// without a spawned process, or by reaping it.
pub proof fn law_failed_launch_leaves_no_process(p: LaunchPhase, ok: bool)
    requires
        has_child(p),
        launch_behind(p, ok) == LaunchPhase::Failed,
    ensures
        p == LaunchPhase::Reap,
{
}

/// A server counts as running only when every step of its launch went well.
pub proof fn law_running_server_was_fully_launched(oks: Seq<bool>)
    requires
        launch_after(oks) == LaunchPhase::Running,
    ensures
        oks.len() >= 8,
        forall|i: int| 0 <= i < 8 ==> oks[i],
    decreases oks.len(),
{
    if oks.len() > 0 {
        let less = oks.drop_last();
        if launch_after(less) == LaunchPhase::Running {
            law_running_server_was_fully_launched(less);
            assert forall|i: int| 0 <= i < 8 implies oks[i] by {
                assert(less[i]);
            }
        } else {
            lemma_launch_steps(less);
            assert forall|i: int| 0 <= i < 8 implies oks[i] by {
                if i < 7 {
                    assert(less[i]);
                }
            }
        }
    }
}

/// Steps that lead to a phase, where all of them went well.
pub open spec fn steps_to(p: LaunchPhase) -> int {
    match p {
        LaunchPhase::Prepare => 0,
        LaunchPhase::Group => 1,
        LaunchPhase::Sandbox => 2,
        LaunchPhase::Spawn => 3,
        LaunchPhase::Attach => 4,
        LaunchPhase::Stdout => 5,
        LaunchPhase::Stderr => 6,
        LaunchPhase::Network => 7,
        _ => -1,
    }
}

proof fn lemma_launch_steps(oks: Seq<bool>)
    ensures
        steps_to(launch_after(oks)) >= 0 ==> oks.len() == steps_to(launch_after(oks)) && forall|
            i: int,
        |
            0 <= i < oks.len() ==> oks[i],
    decreases oks.len(),
{
    if oks.len() > 0 {
        let less = oks.drop_last();
        lemma_launch_steps(less);
        if steps_to(launch_after(oks)) >= 0 {
            assert forall|i: int| 0 <= i < oks.len() implies oks[i] by {
                if i < oks.len() - 1 {
                    assert(less[i] == oks[i]);
                }
            }
        }
    }
}

/// Where a stop that asks stands.
#[derive(Debug, Clone, Copy, PartialEq, Eq, Structural)]
pub enum StopPhase {
    /// Write the stop command.
    Deliver,
    /// Give the server time to heed it.
    Grace,
    /// Send the polite signal.
    Terminate,
    /// Give the server time to heed that.
    Settle,
    /// Kill what is left.
    LastResort,
    Done,
}

/// What is to be done in a stop.
#[derive(Debug, Clone, Copy, PartialEq, Eq, Structural)]
pub enum StopAction {
    /// Write the stop command, with a bound on the time that may take.
    Write { within_ms: u64 },
    Sleep { ms: u64 },
    /// Send the polite signal to the process and its group.
    Terminate,
    /// Kill the process, its group and its control group.
    Kill,
    Nothing,
}

/// Where a stop that asks begins.
pub open spec fn first_stop_phase(has_command: bool) -> StopPhase {
    if has_command {
        StopPhase::Deliver
    } else {
        StopPhase::Terminate
    }
}

/// Where a stop that asks begins.
pub fn stop_begins(has_command: bool) -> (r: StopPhase)
    ensures
        r == first_stop_phase(has_command),
{
    if has_command {
        StopPhase::Deliver
    } else {
        StopPhase::Terminate
    }
}

/// What is to be done in a phase, and the phase that follows, given whether the
/// process is still there and how long ago its command was dealt with.
pub open spec fn stop_behind(p: StopPhase, alive: bool, elapsed_ms: u64) -> (StopAction, StopPhase) {
    match p {
        StopPhase::Deliver => (
            StopAction::Write { within_ms: STOP_CMD_DELIVERY_MS },
            StopPhase::Grace,
        ),
        StopPhase::Grace => if elapsed_ms >= STOP_CMD_GRACE_MS {
            (StopAction::Nothing, StopPhase::Terminate)
        } else if !alive {
            (StopAction::Nothing, StopPhase::Done)
        } else {
            (StopAction::Sleep { ms: 300 }, StopPhase::Grace)
        },
        StopPhase::Terminate => (
            if alive {
                StopAction::Terminate
            } else {
                StopAction::Nothing
            },
            StopPhase::Settle,
        ),
        StopPhase::Settle => (
            StopAction::Sleep { ms: STOP_SIGKILL_GRACE_MS },
            StopPhase::LastResort,
        ),
        StopPhase::LastResort => (
            if alive {
                StopAction::Kill
            } else {
                StopAction::Nothing
            },
            StopPhase::Done,
        ),
        StopPhase::Done => (StopAction::Nothing, StopPhase::Done),
    }
}

/// Goes on with a stop that asks.
pub fn stop_step(p: StopPhase, alive: bool, elapsed_ms: u64) -> (r: (StopAction, StopPhase))
    ensures
        r == stop_behind(p, alive, elapsed_ms),
{
    match p {
        StopPhase::Deliver => (
            StopAction::Write { within_ms: STOP_CMD_DELIVERY_MS },
            StopPhase::Grace,
        ),
        StopPhase::Grace => if elapsed_ms >= STOP_CMD_GRACE_MS {
            (StopAction::Nothing, StopPhase::Terminate)
        } else if !alive {
            (StopAction::Nothing, StopPhase::Done)
        } else {
            (StopAction::Sleep { ms: 300 }, StopPhase::Grace)
        },
        StopPhase::Terminate => {
            let action = if alive {
                StopAction::Terminate
            } else {
                StopAction::Nothing
            };
            (action, StopPhase::Settle)
        },
        StopPhase::Settle => (
            StopAction::Sleep { ms: STOP_SIGKILL_GRACE_MS },
            StopPhase::LastResort,
        ),
        StopPhase::LastResort => {
            let action = if alive {
                StopAction::Kill
            } else {
                StopAction::Nothing
            };
            (action, StopPhase::Done)
        },
        StopPhase::Done => (StopAction::Nothing, StopPhase::Done),
    }
}

/// A server that is asked to stop is killed only as the last resort: behind the
/// polite signal and the time to heed it. Nothing is sent to one that is gone.
pub proof fn law_kill_is_the_last_resort(p: StopPhase, alive: bool, elapsed_ms: u64)
    ensures
        stop_behind(p, alive, elapsed_ms).0 == StopAction::Kill ==> p == StopPhase::LastResort
            && alive,
        stop_behind(p, alive, elapsed_ms).1 == StopPhase::LastResort ==> p == StopPhase::Settle
            && stop_behind(p, alive, elapsed_ms).0 == (StopAction::Sleep {
            ms: STOP_SIGKILL_GRACE_MS,
        }),
        stop_behind(p, alive, elapsed_ms).1 == StopPhase::Settle ==> p == StopPhase::Terminate,
        !alive ==> stop_behind(p, alive, elapsed_ms).0 != StopAction::Terminate && stop_behind(
            p,
            alive,
            elapsed_ms,
        ).0 != StopAction::Kill,
        p == StopPhase::Deliver || p == StopPhase::Terminate || p == StopPhase::Settle
            || p == StopPhase::LastResort ==> stop_behind(p, alive, elapsed_ms).1 != p,
{
}

/// Who waits for a server's process to end, and brings it back where that is
/// wanted: how many attempts to start it again were made.
#[derive(Debug)]
pub struct Waiter {
    pub uuid: String,
    pub attempts: u64,
}

/// What a waiter does next.
#[derive(Debug, Clone, Copy, PartialEq, Eq, Structural)]
pub enum WaiterAction {
    /// Wait this many seconds.
    Sleep { secs: u64 },
    /// Start the server.
    Start,
    /// Its work is done, or the server is given up.
    Done,
}

impl Waiter {
    /// Within the attempts that may be made.
    pub open spec fn wf(self) -> bool {
        self.attempts <= MAX_AUTO_RESTART_ATTEMPTS
    }

    /// A waiter for a server whose process runs.
    pub fn spawn_waiter(uuid: String) -> (r: Waiter)
        ensures
            r.uuid == uuid,
            r.attempts == 0,
            r.wf(),
    {
        Waiter { uuid, attempts: 0 }
    }

    /// The process has ended: that is noted, and where the server is to come back,
    /// the first attempt is made after a while.
    pub fn ended(&mut self, rt: &mut DaemonRuntime, code: Option<i32>) -> (r: WaiterAction)
        ensures
            final(self).uuid == old(self).uuid,
            final(self).wf(),
            final(rt).cfg() == old(rt).cfg(),
            keeps_stops(old(rt)@, final(rt)@),
            ({
                let uuid = old(self).uuid@;
                let m = old(rt)@;
                let back = m.contains_key(uuid) && !m[uuid].stopping && m[uuid].spec.auto_restart;
                &&& final(rt)@ == if m.contains_key(uuid) {
                    m.insert(uuid, ended(m[uuid], code))
                } else {
                    m
                }
                &&& r == if back {
                    WaiterAction::Sleep { secs: config::backoff(1) as u64 }
                } else {
                    WaiterAction::Done
                }
                &&& final(self).attempts == if back {
                    1u64
                } else {
                    0
                }
            }),
    {
        if rt.exited(self.uuid.as_str(), code) {
            self.attempts = 1;
            WaiterAction::Sleep { secs: config::restart_backoff(1) }
        } else {
            self.attempts = 0;
            WaiterAction::Done
        }
    }

    /// The wait is over: the server is started, unless a stop came meanwhile or
    /// somebody else started it.
    pub fn woke(&self, rt: &mut DaemonRuntime) -> (r: WaiterAction)
        ensures
            final(rt).cfg() == old(rt).cfg(),
            keeps_stops(old(rt)@, final(rt)@),
            ({
                let uuid = self.uuid@;
                let m = old(rt)@;
                if m.contains_key(uuid) && !m[uuid].stopping && m[uuid].pid is None {
                    let p = m[uuid];
                    &&& r == WaiterAction::Start
                    &&& final(rt)@ == m.insert(
                        uuid,
                        (ManagedProcess { restart_count: p.restart_count.wrapping_add(1), ..p }),
                    )
                } else {
                    r == WaiterAction::Done && final(rt)@ == m
                }
            }),
    {
        if rt.backoff_over(self.uuid.as_str()) {
            WaiterAction::Start
        } else {
            WaiterAction::Done
        }
    }

    /// The server could not be started: another attempt follows after a longer
    /// while, or it is given up.
    pub fn start_failed(&mut self) -> (r: WaiterAction)
        requires
            old(self).wf(),
        ensures
            final(self).uuid == old(self).uuid,
            final(self).wf(),
            if old(self).attempts >= MAX_AUTO_RESTART_ATTEMPTS {
                r == WaiterAction::Done && final(self).attempts == old(self).attempts
            } else {
                &&& final(self).attempts == old(self).attempts + 1
                &&& r == (WaiterAction::Sleep {
                    secs: config::backoff(old(self).attempts + 1) as u64,
                })
            },
    {
        if self.attempts >= MAX_AUTO_RESTART_ATTEMPTS {
            return WaiterAction::Done;
        }
        self.attempts = self.attempts + 1;
        WaiterAction::Sleep { secs: config::restart_backoff(self.attempts) }
    }
}

/// What comes next while the agent goes down.
#[derive(Debug)]
pub enum ShutdownStep {
    /// Some server still runs: wait this many milliseconds.
    Wait { ms: u64 },
    /// Kill these, and be done.
    Kill { stragglers: Vec<String> },
}

impl DaemonRuntime {
    /// Goes on with taking the agent down, its servers having been asked to stop:
    /// they get so much time, then those that still run are killed.
    pub fn shutdown_servers(&self, uuids: &Vec<String>, elapsed_ms: u64, grace_ms: u64) -> (r:
        ShutdownStep)
        ensures
            if elapsed_ms < grace_ms && (exists|k: Seq<char>| #[trigger] runs(self@, k)) {
                r == (ShutdownStep::Wait { ms: 200 })
            } else {
                r is Kill && text::views(r->stragglers@) == text::views(uuids@).filter(
                    |u: Seq<char>| runs(self@, u),
                )
            },
    {
        if elapsed_ms < grace_ms {
            let up = self.running_servers();
            if up.len() > 0 {
                proof {
                    let k = text::views(up@)[0];
                    assert(text::views(up@).contains(k));
                    assert(runs(self@, k));
                }
                return ShutdownStep::Wait { ms: 200 };
            }
            assert forall|k: Seq<char>| !#[trigger] runs(self@, k) by {
                assert(!text::views(up@).contains(k));
            }
        }
        ShutdownStep::Kill { stragglers: self.stragglers(uuids) }
    }
}

/// Once a stop was asked for, nothing but an explicit restart brings a server
/// back: whatever happens since, as long as it stays under supervision, a start is
/// refused, a process that ends is not started again, and a wait for another
/// attempt that is over starts nothing.
pub proof fn law_stop_is_sticky(
    ms: Seq<Map<Seq<char>, ManagedProcess>>,
    uuid: Seq<char>,
    code: Option<i32>,
    i: int,
)
    requires
        0 <= i < ms.len(),
        forall|k: int| 0 <= k < ms.len() ==> (#[trigger] ms[k]).contains_key(uuid),
        forall|k: int| 0 <= k < ms.len() - 1 ==> keeps_stops(#[trigger] ms[k], ms[k + 1]),
        ms[0][uuid].stopping,
    ensures
        ms[i][uuid].stopping,
        start_fault(ms[i], uuid) is Some,
        ended(ms[i][uuid], code).state == RunState::Offline,
        ended(ms[i][uuid], code).stopping,
    decreases i,
{
    if i > 0 {
        law_stop_is_sticky(ms, uuid, code, i - 1);
        assert(keeps_stops(ms[i - 1], ms[i - 1 + 1]));
        assert(ms[i].contains_key(uuid));
    }
}

/// A stop, and the stop that a restart begins with, is remembered.
pub proof fn law_stop_is_remembered(
    m: Map<Seq<char>, ManagedProcess>,
    uuid: Seq<char>,
    p: ManagedProcess,
)
    ensures
        stop_asked(p).stopping,
        start_fault(m.insert(uuid, stop_asked(p)), uuid) is Some,
{
}

/// A server that ended without being asked to is told as crashed.
pub proof fn law_unasked_end_is_a_crash(p: ManagedProcess, code: Option<i32>)
    requires
        !p.stopping,
    ensures
        ended(p, code).state == RunState::Crashed,
        ended(p, code).pid is None,
        ended(p, code).restart_count == p.restart_count,
{
}

/// Emptying a console rewinds nothing: a viewer that holds the cursor from before
/// sees the next piece of output.
pub proof fn law_cleared_console_goes_on(
    cursor: u64,
    cleared: Seq<ConsoleLine>,
    after: Seq<ConsoleLine>,
    text: Seq<char>,
)
    requires
        cursor < u64::MAX,
        cleared.len() == 0,
        appended(cleared, after, (cursor + 1) as u64, text),
    ensures
        texts(after.filter(behind(cursor))) == seq![text],
{
    reveal(Seq::filter);
    assert(after.drop_last() =~= cleared);
    assert(cleared.filter(behind(cursor)) =~= Seq::<ConsoleLine>::empty());
    assert(texts(after.filter(behind(cursor))) =~= seq![text]);
}

/// A viewer that has seen a console up to its cursor sees what comes next, and
/// nothing twice.
pub proof fn law_viewer_sees_what_is_new(
    lines: Seq<ConsoleLine>,
    cursor: u64,
    after: Seq<ConsoleLine>,
    text: Seq<char>,
)
    requires
        cursor < u64::MAX,
        console_ok(lines, cursor),
        appended(lines, after, (cursor + 1) as u64, text),
    ensures
        texts(after.filter(behind(cursor))) == seq![text],
{
    let old_lines = kept(lines);
    assert(after.drop_last() =~= old_lines);
    lemma_nothing_behind(old_lines, cursor);
    reveal(Seq::filter);
    assert(after.filter(behind(cursor)) =~= seq![after.last()]);
    assert(texts(after.filter(behind(cursor))) =~= seq![text]);
}

proof fn lemma_nothing_behind(lines: Seq<ConsoleLine>, cursor: u64)
    requires
        forall|i: int| 0 <= i < lines.len() ==> (#[trigger] lines[i]).cursor <= cursor,
    ensures
        lines.filter(behind(cursor)) =~= Seq::<ConsoleLine>::empty(),
    decreases lines.len(),
{
    reveal(Seq::filter);
    if lines.len() > 0 {
        assert forall|i: int| 0 <= i < lines.drop_last().len() implies (#[trigger] lines.drop_last()[i]).cursor
            <= cursor by {
            assert(lines.drop_last()[i] == lines[i]);
        }
        lemma_nothing_behind(lines.drop_last(), cursor);
        assert(lines[lines.len() - 1].cursor <= cursor);
    }
}

} // verus!
