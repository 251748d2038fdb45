//! What the agent reads of the machine: the processes of a server, the load of
//! the node and the servers that were set up before.
use crate::node_daemon::process;
use crate::node_daemon::process::{DaemonRuntime, ManagedProcess};
use crate::node_protocol::{NodeCapacity, ServerSpec};
use crate::paths;
use crate::services::files;
use crate::text;
use vstd::prelude::*;
use vstd::string::*;

verus! {

/// Milliseconds for which a measured load is good.
pub const CAPACITY_REFRESH_MS: u64 = 5_000;

/// The words of a text: what stands between white space.
pub open spec fn words(s: Seq<char>) -> Seq<Seq<char>>
    decreases s.len(),
{
    if s.len() == 0 {
        Seq::empty()
    } else {
        let before = words(s.drop_last());
        let c = s.last();
        if text::is_space(c) {
            before
        } else if s.len() >= 2 && !text::is_space(s[s.len() - 2]) {
            before.drop_last().push(before.last().push(c))
        } else {
            before.push(seq![c])
        }
    }
}

/// The words of a text.
pub fn words_of(s: &[char]) -> (r: Vec<Vec<char>>)
    ensures
        text::runs(r@) == words(s@),
{
    let mut out: Vec<Vec<char>> = Vec::new();
    let mut i: usize = 0;
    assert(text::runs(out@) =~= words(s@.take(0)));
    while i < s.len()
        invariant
            i <= s@.len(),
            text::runs(out@) == words(s@.take(i as int)),
            i > 0 && !text::is_space(s@[i - 1]) ==> out@.len() > 0,
        decreases s.len() - i,
    {
        let c = s[i];
        let ghost upto = s@.take(i + 1);
        let ghost before = text::runs(out@);
        proof {
            assert(upto.drop_last() =~= s@.take(i as int));
            assert(upto.last() == c);
            if i > 0 {
                assert(upto[upto.len() - 2] == s@[i - 1]);
            }
        }
        if !text::is_white_space(c) {
            let goes_on = i > 0 && !text::is_white_space(s[i - 1]);
            if goes_on {
                let ghost held = out@;
                if let Some(mut word) = out.pop() {
                    let ghost stem = word@;
                    word.push(c);
                    out.push(word);
                    assert(before.last() == stem);
                    assert(text::runs(out@) =~= before.drop_last().push(stem.push(c)));
                }
            } else {
                let mut word: Vec<char> = Vec::new();
                word.push(c);
                assert(word@ =~= seq![c]);
                out.push(word);
                assert(text::runs(out@) =~= before.push(seq![c]));
            }
        }
        i += 1;
    }
    assert(s@.take(s@.len() as int) =~= s@);
    out
}

/// What stands behind the last closing parenthesis of a text, if there is one.
pub open spec fn behind_paren(s: Seq<char>) -> Option<Seq<char>>
    decreases s.len(),
{
    if s.len() == 0 {
        None
    } else if s.last() == ')' {
        Some(Seq::empty())
    } else {
        match behind_paren(s.drop_last()) {
            Some(t) => Some(t.push(s.last())),
            None => None,
        }
    }
}

fn paren_end(s: &[char]) -> (r: Option<usize>)
    ensures
        match r {
            Some(i) => i <= s@.len() && behind_paren(s@) == Some(s@.skip(i as int)),
            None => behind_paren(s@) is None,
        },
{
    let mut i: usize = 0;
    let mut at: Option<usize> = None;
    assert(s@.take(0) =~= Seq::<char>::empty());
    while i < s.len()
        invariant
            i <= s@.len(),
            match at {
                Some(k) => k <= i && behind_paren(s@.take(i as int)) == Some(
                    s@.subrange(k as int, i as int),
                ),
                None => behind_paren(s@.take(i as int)) is None,
            },
        decreases s.len() - i,
    {
        let ghost upto = s@.take(i + 1);
        proof {
            assert(upto.drop_last() =~= s@.take(i as int));
            assert(upto.last() == s@[i as int]);
        }
        if s[i] == ')' {
            at = Some(i + 1);
            assert(s@.subrange(i + 1, i + 1) =~= Seq::<char>::empty());
        } else {
            proof {
                if let Some(k) = at {
                    assert(s@.subrange(k as int, i as int).push(s@[i as int]) =~= s@.subrange(
                        k as int,
                        i + 1,
                    ));
                }
            }
        }
        i += 1;
    }
    assert(s@.take(s@.len() as int) =~= s@);
    proof {
        if let Some(k) = at {
            assert(s@.subrange(k as int, s@.len() as int) =~= s@.skip(k as int));
        }
    }
    at
}

/// What the kernel tells of a process: the ticks that it used itself and in the
/// kernel, and its pages in memory.
#[derive(Debug, Clone, Copy, PartialEq, Eq, Structural)]
pub struct StatLine {
    pub user: u64,
    pub system: u64,
    pub rss_pages: u64,
}

/// What the kernel tells of a process, in the words behind its name.
pub open spec fn stat_of(s: Seq<char>) -> Option<StatLine> {
    match behind_paren(s) {
        None => None,
        Some(rest) => {
            let ws = words(rest);
            if ws.len() <= 21 {
                None
            } else {
                match (text::number_of(ws[11]), text::number_of(ws[12]), text::number_of(ws[21])) {
                    (Some(user), Some(system), Some(rss_pages)) => Some(
                        StatLine { user, system, rss_pages },
                    ),
                    _ => None,
                }
            }
        },
    }
}

/// Reads what the kernel tells of a process.
pub fn read_proc(stat: &str) -> (r: Option<StatLine>)
    ensures
        r == stat_of(stat@),
{
    let cs = text::chars_of(stat);
    let from: usize = match paren_end(cs.as_slice()) {
        Some(i) => i,
        None => return None,
    };
    let rest = vstd::slice::slice_subrange(cs.as_slice(), from, cs.len());
    assert(rest@ =~= cs@.skip(from as int));
    let ws = words_of(rest);
    let ghost all = words(rest@);
    if ws.len() <= 21 {
        return None;
    }
    assert(all[11] == ws@[11]@ && all[12] == ws@[12]@ && all[21] == ws@[21]@);
    match (
        text::parse_u64(ws[11].as_slice()),
        text::parse_u64(ws[12].as_slice()),
        text::parse_u64(ws[21].as_slice()),
    ) {
        (Some(user), Some(system), Some(rss_pages)) => Some(StatLine { user, system, rss_pages }),
        _ => None,
    }
}

/// The number as it can be counted.
pub open spec fn capped(x: int) -> int {
    if x > u64::MAX {
        u64::MAX as int
    } else {
        x
    }
}

impl StatLine {
    /// Bytes in memory and ticks used, for pages of this size.
    pub fn usage(&self, page: u64) -> (r: (u64, u64))
        requires
            self.user + self.system <= u64::MAX,
        ensures
            r.0 == capped(self.rss_pages * page),
            r.1 == self.user + self.system,
    {
        let pages: u128 = self.rss_pages as u128;
        assert(self.rss_pages * page <= 0xffff_ffff_ffff_ffff * 0xffff_ffff_ffff_ffff)
            by (nonlinear_arith)
            requires
                self.rss_pages <= 0xffff_ffff_ffff_ffff,
                page <= 0xffff_ffff_ffff_ffff,
        ;
        let bytes: u128 = pages * (page as u128);
        let memory: u64 = if bytes > u64::MAX as u128 {
            u64::MAX
        } else {
            bytes as u64
        };
        (memory, self.user + self.system)
    }
}

/// Bytes in memory and ticks used by some processes together.
pub open spec fn tree_usage(samples: Seq<(u64, u64)>) -> (int, int)
    decreases samples.len(),
{
    if samples.len() == 0 {
        (0, 0)
    } else {
        let before = tree_usage(samples.drop_last());
        (capped(before.0 + samples.last().0), capped(before.1 + samples.last().1))
    }
}

/// Bytes in memory and ticks used by the processes of a server together.
pub fn process_tree_usage(samples: &Vec<(u64, u64)>) -> (r: (u64, u64))
    ensures
        (r.0 as int, r.1 as int) == tree_usage(samples@),
{
    let mut memory: u64 = 0;
    let mut ticks: u64 = 0;
    let mut i: usize = 0;
    while i < samples.len()
        invariant
            i <= samples@.len(),
            (memory as int, ticks as int) == tree_usage(samples@.take(i as int)),
        decreases samples.len() - i,
    {
        assert(samples@.take(i + 1).drop_last() =~= samples@.take(i as int));
        memory = memory.saturating_add(samples[i].0);
        ticks = ticks.saturating_add(samples[i].1);
        i += 1;
    }
    assert(samples@.take(samples@.len() as int) =~= samples@);
    (memory, ticks)
}

/// A process id that a word tells.
pub open spec fn pid_of(word: Seq<char>) -> Option<u32> {
    match text::number_of(word) {
        Some(n) => if n <= u32::MAX {
            Some(n as u32)
        } else {
            None
        },
        None => None,
    }
}

/// The process ids among some words.
pub open spec fn pids(ws: Seq<Seq<char>>) -> Seq<u32>
    decreases ws.len(),
{
    if ws.len() == 0 {
        Seq::empty()
    } else {
        match pid_of(ws.last()) {
            Some(p) => pids(ws.drop_last()).push(p),
            None => pids(ws.drop_last()),
        }
    }
}

/// The children of a process, as the kernel lists them.
pub fn read_children(list: &str) -> (r: Vec<u32>)
    ensures
        r@ == pids(words(list@)),
{
    let cs = text::chars_of(list);
    let ws = words_of(cs.as_slice());
    let ghost all = words(list@);
    let mut out: Vec<u32> = Vec::new();
    let mut i: usize = 0;
    while i < ws.len()
        invariant
            i <= ws@.len(),
            text::runs(ws@) == all,
            out@ == pids(all.take(i as int)),
        decreases ws.len() - i,
    {
        assert(all.take(i + 1).drop_last() =~= all.take(i as int));
        assert(all.take(i + 1).last() == ws@[i as int]@);
        if let Some(n) = text::parse_u64(ws[i].as_slice()) {
            if n <= u32::MAX as u64 {
                out.push(n as u32);
            }
        }
        i += 1;
    }
    assert(all.take(all.len() as int) =~= all);
    out
}

/// Bytes of a file system and those of them in use, given its blocks, those
/// available and their size.
pub fn fs_usage(blocks: u64, available: u64, block_size: u64) -> (r: (u64, u64))
    ensures
        r.0 == capped(blocks * block_size),
        r.1 == if capped(blocks * block_size) > capped(available * block_size) {
            capped(blocks * block_size) - capped(available * block_size)
        } else {
            0
        },
{
    let total: u64 = bytes_of(blocks, block_size);
    let free: u64 = bytes_of(available, block_size);
    (total, total.saturating_sub(free))
}

fn bytes_of(blocks: u64, block_size: u64) -> (r: u64)
    ensures
        r == capped(blocks * block_size),
{
    assert(0 <= blocks * block_size <= 0xffff_ffff_ffff_ffff * 0xffff_ffff_ffff_ffff)
        by (nonlinear_arith)
        requires
            blocks <= 0xffff_ffff_ffff_ffff,
            block_size <= 0xffff_ffff_ffff_ffff,
    ;
    let bytes: u128 = (blocks as u128) * (block_size as u128);
    if bytes > u64::MAX as u128 {
        u64::MAX
    } else {
        bytes as u64
    }
}

/// What is to be done for a measure of the machine's load.
#[derive(Debug, Clone, Copy, PartialEq, Eq, Structural)]
pub enum Measure {
    /// The last one is good.
    Keep,
    /// Take a new one.
    Refresh,
    /// Take the first one: twice, as the first shows no load.
    Begin,
}

/// What is to be done for a measure of the machine's load, the last one being so
/// many milliseconds old, if there is one.
pub fn capacity_measure(age_ms: Option<u64>) -> (r: Measure)
    ensures
        r == match age_ms {
            Some(age) => if age < CAPACITY_REFRESH_MS {
                Measure::Keep
            } else {
                Measure::Refresh
            },
            None => Measure::Begin,
        },
{
    match age_ms {
        Some(age) => if age < CAPACITY_REFRESH_MS {
            Measure::Keep
        } else {
            Measure::Refresh
        },
        None => Measure::Begin,
    }
}

/// What was found in the agent's directory of descriptions.
#[derive(Debug)]
pub enum SpecAction {
    /// It is none.
    Skip,
    /// It cannot be read: put it aside under another name.
    Quarantine { bad: String, aside: String },
    /// A server that was set up before: prepare its directory.
    Adopt { uuid: String, root: String },
}

impl DaemonRuntime {
    /// Load and size of the node, given what was measured; nothing is known of a
    /// disk that could not be.
    pub fn capacity(
        &self,
        memory_total: u64,
        memory_used: u64,
        disk: Option<(u64, u64)>,
        cpu_threads: usize,
    ) -> (r: NodeCapacity)
        ensures
            r.memory_total == memory_total && r.memory_used == memory_used,
            (r.disk_total, r.disk_used) == match disk {
                Some(d) => d,
                None => (0u64, 0u64),
            },
            r.cpu_threads == cpu_threads,
            exists|up: Seq<String>, keys: Seq<String>| #[trigger]
                process::are_running(self@, up) && #[trigger] process::are_keys(self@, keys)
                    && r.servers_running == up.len() && r.servers_total == keys.len(),
    {
        let counts = self.server_counts();
        let d = match disk {
            Some(d) => d,
            None => (0, 0),
        };
        NodeCapacity {
            memory_total,
            memory_used,
            disk_total: d.0,
            disk_used: d.1,
            cpu_threads,
            servers_running: counts.0,
            servers_total: counts.1,
        }
    }

    /// Takes what was found in the agent's directory of descriptions: its name,
    /// and the description if it could be read. A server that was set up before
    /// is put under supervision again.
    pub fn load_spec(&mut self, name: &str, parsed: Option<ServerSpec>, now_ms: u64) -> (r:
        SpecAction)
        ensures
            final(self).cfg() == old(self).cfg(),
            match parsed {
                Some(spec) => !old(self)@.contains_key(spec.uuid@) ==> process::keeps_stops(
                    old(self)@,
                    final(self)@,
                ),
                None => final(self)@ == old(self)@,
            },
            if files::extension_of(name@) != "json"@ {
                r == SpecAction::Skip && final(self)@ == old(self)@
            } else {
                let path = paths::joined(paths::joined(old(self).cfg().data_dir@, "meta"@), name@);
                match parsed {
                    None => {
                        &&& r matches SpecAction::Quarantine { bad, aside }
                        &&& bad@ == path
                        &&& aside@ == path + ".corrupt"@
                        &&& final(self)@ == old(self)@
                    },
                    Some(spec) => {
                        &&& r matches SpecAction::Adopt { uuid, root }
                        &&& uuid@ == spec.uuid@
                        &&& root@ == paths::joined(old(self).cfg().servers(), spec.uuid@)
                        &&& final(self)@ == old(self)@.insert(spec.uuid@, final(self)@[spec.uuid@])
                        &&& process::fresh_process(final(self)@[spec.uuid@], spec, now_ms)
                    },
                }
            },
    {
        if !text::same(files::extension(name).as_str(), "json") {
            return SpecAction::Skip;
        }
        match parsed {
            None => {
                let bad = paths::join(self.config().meta_dir().as_str(), name);
                let mut aside = text::copy_of(bad.as_str());
                aside.append(".corrupt");
                SpecAction::Quarantine { bad, aside }
            },
            Some(spec) => {
                let uuid = text::copy_of(spec.uuid.as_str());
                let root = paths::join(self.config().servers_dir().as_str(), uuid.as_str());
                self.adopt(ManagedProcess::new(spec, now_ms));
                SpecAction::Adopt { uuid, root }
            },
        }
    }
}

} // verus!
