//! Swapping a server's directory for a new one so that no crash can lose it, and
//! putting right at startup what a crash left behind.
use crate::services::files::NodeKind;
use crate::text;
use vstd::prelude::*;
use vstd::slice::*;
use vstd::string::*;

verus! {

/// Whether an exchange failed because the file system cannot exchange at all:
/// by ENOSYS, EINVAL or EOPNOTSUPP.
pub fn renameat2_unsupported(errno: Option<i32>) -> (r: bool)
    ensures
        r == (errno == Some(38i32) || errno == Some(22i32) || errno == Some(95i32)),
{
    match errno {
        Some(38) | Some(22) | Some(95) => true,
        _ => false,
    }
}

/// What an attempt at a file operation came to.
#[derive(Debug, Clone, Copy, PartialEq, Eq, Structural)]
pub enum Outcome {
    Done,
    /// The file system has no such operation.
    Unsupported,
    Failed,
}

/// What a probe says of whether exchanges work here: an unexpected failure is
/// left for a real exchange to report.
pub fn probe_renameat2(outcome: Outcome) -> (r: bool)
    ensures
        r == (outcome != Outcome::Unsupported),
{
    match outcome {
        Outcome::Unsupported => false,
        _ => true,
    }
}

/// Name under which the live directory steps aside.
pub open spec fn aside_of(name: Seq<char>) -> Seq<char> {
    ".previous-"@ + name
}

/// Name under which the live directory steps aside.
pub fn aside_name(name: &str) -> (r: String)
    ensures
        r@ == aside_of(name@),
{
    let mut s = text::copy_of(".previous-");
    s.append(name);
    s
}

/// Where a swap stands: what is to be done next, or how it ended.
#[derive(Debug, Clone, Copy, PartialEq, Eq, Structural)]
pub enum SwapPhase {
    /// Exchange the live and the new directory in one step.
    Exchange,
    /// Remove what an earlier swap left under the aside name.
    Clear,
    /// Move the live directory aside.
    Aside,
    /// Move the new directory into the live place.
    Insert,
    /// Move the old directory back.
    Rollback,
    /// Remove the old directory.
    Sweep,
    /// The new directory is live.
    Swapped,
    /// The swap failed.
    Refused,
}

/// The first phase of a swap, given whether exchanges work here and whether
/// something stands under the aside name.
pub open spec fn first_phase(supported: bool, aside_exists: bool) -> SwapPhase {
    if supported {
        SwapPhase::Exchange
    } else if aside_exists {
        SwapPhase::Clear
    } else {
        SwapPhase::Aside
    }
}

/// The phase that follows one with this outcome.
pub open spec fn phase_behind(p: SwapPhase, outcome: Outcome, aside_exists: bool) -> SwapPhase {
    match p {
        SwapPhase::Exchange => match outcome {
            Outcome::Done => SwapPhase::Swapped,
            Outcome::Unsupported => first_phase(false, aside_exists),
            Outcome::Failed => SwapPhase::Refused,
        },
        SwapPhase::Clear => SwapPhase::Aside,
        SwapPhase::Aside => if outcome == Outcome::Done {
            SwapPhase::Insert
        } else {
            SwapPhase::Refused
        },
        SwapPhase::Insert => if outcome == Outcome::Done {
            SwapPhase::Sweep
        } else {
            SwapPhase::Rollback
        },
        SwapPhase::Rollback => SwapPhase::Refused,
        SwapPhase::Sweep => SwapPhase::Swapped,
        SwapPhase::Swapped => SwapPhase::Swapped,
        SwapPhase::Refused => SwapPhase::Refused,
    }
}

/// Starts a swap.
pub fn exchange_dirs(supported: bool, aside_exists: bool) -> (r: SwapPhase)
    ensures
        r == first_phase(supported, aside_exists),
{
    if supported {
        SwapPhase::Exchange
    } else {
        exchange_dirs_fallback(aside_exists)
    }
}

/// Starts a swap by two moves.
pub fn exchange_dirs_fallback(aside_exists: bool) -> (r: SwapPhase)
    ensures
        r == first_phase(false, aside_exists),
{
    if aside_exists {
        SwapPhase::Clear
    } else {
        SwapPhase::Aside
    }
}

/// Goes on with a swap.
pub fn exchange_step(p: SwapPhase, outcome: Outcome, aside_exists: bool) -> (r: SwapPhase)
    ensures
        r == phase_behind(p, outcome, aside_exists),
{
    let done = outcome == Outcome::Done;
    match p {
        SwapPhase::Exchange => match outcome {
            Outcome::Done => SwapPhase::Swapped,
            Outcome::Unsupported => exchange_dirs_fallback(aside_exists),
            Outcome::Failed => SwapPhase::Refused,
        },
        SwapPhase::Clear => SwapPhase::Aside,
        SwapPhase::Aside => if done {
            SwapPhase::Insert
        } else {
            SwapPhase::Refused
        },
        SwapPhase::Insert => if done {
            SwapPhase::Sweep
        } else {
            SwapPhase::Rollback
        },
        SwapPhase::Rollback => SwapPhase::Refused,
        SwapPhase::Sweep | SwapPhase::Swapped => SwapPhase::Swapped,
        SwapPhase::Refused => SwapPhase::Refused,
    }
}

/// The directory that holds the servers' directories: contents by name. Each
/// number stands for one content.
pub type Disk = Map<Seq<char>, int>;

/// The disk after `from` was moved to `to`.
pub open spec fn moved(d: Disk, from: Seq<char>, to: Seq<char>) -> Disk {
    d.insert(to, d[from]).remove(from)
}

/// The disk after what a phase does was done.
pub open spec fn disk_after(
    d: Disk,
    p: SwapPhase,
    live: Seq<char>,
    staged: Seq<char>,
) -> Disk {
    match p {
        SwapPhase::Exchange => d.insert(live, d[staged]).insert(staged, d[live]),
        SwapPhase::Clear => d.remove(aside_of(live)),
        SwapPhase::Aside => moved(d, live, aside_of(live)),
        SwapPhase::Insert => moved(d, staged, live),
        SwapPhase::Rollback => moved(d, aside_of(live), live),
        SwapPhase::Sweep => d.remove(aside_of(live)),
        SwapPhase::Swapped => d,
        SwapPhase::Refused => d,
    }
}

/// What is on disk in a phase of a swap that began with `old` live and `new`
/// staged.
pub open spec fn disk_in(
    d: Disk,
    p: SwapPhase,
    live: Seq<char>,
    staged: Seq<char>,
    old: int,
    new: int,
) -> bool {
    let live_is = |c: int| d.dom().contains(live) && d[live] == c;
    let aside_is_old = d.dom().contains(aside_of(live)) && d[aside_of(live)] == old;
    let staged_is_new = d.dom().contains(staged) && d[staged] == new;
    match p {
        SwapPhase::Exchange | SwapPhase::Clear | SwapPhase::Aside => live_is(old)
            && staged_is_new,
        SwapPhase::Insert => !d.dom().contains(live) && aside_is_old && staged_is_new,
        SwapPhase::Rollback => !d.dom().contains(live) && aside_is_old,
        SwapPhase::Sweep | SwapPhase::Swapped => live_is(new),
        SwapPhase::Refused => live_is(old) || (!d.dom().contains(live) && aside_is_old),
    }
}

/// Each step of a swap, done or failed, leaves on disk what the next phase counts
/// on.
pub proof fn law_swap_step_keeps_a_copy(
    d: Disk,
    p: SwapPhase,
    outcome: Outcome,
    aside_exists: bool,
    live: Seq<char>,
    staged: Seq<char>,
    old: int,
    new: int,
)
    requires
        disk_in(d, p, live, staged, old, new),
        staged != live,
        staged != aside_of(live),
    ensures
        disk_in(
            if outcome == Outcome::Done {
                disk_after(d, p, live, staged)
            } else {
                d
            },
            phase_behind(p, outcome, aside_exists),
            live,
            staged,
            old,
            new,
        ),
{
    lemma_aside_is_another(live);
}

proof fn lemma_aside_is_another(name: Seq<char>)
    ensures
        aside_of(name) != name,
        aside_of(name).len() == name.len() + 10,
{
    reveal_strlit(".previous-");
    assert(aside_of(name).len() == name.len() + 10);
}

/// What stands in the directory of the servers' directories, as it is just before
/// a pass of the recovery comes to it.
#[derive(Debug, Clone)]
pub struct StaleEntry {
    pub name: String,
    pub kind: NodeKind,
    /// Whether something stands under the name without its `.previous-`.
    pub target_exists: bool,
}

/// A step of the recovery.
#[derive(Debug, Clone)]
pub enum Recovery {
    /// Move a directory that stepped aside back.
    Restore { from: String, to: String },
    /// Leave it for someone to look at.
    Inspect { name: String },
    RemoveDirectory { name: String },
    RemoveFile { name: String },
}

/// A step of the recovery, by the names alone.
pub enum Step {
    Restore(Seq<char>, Seq<char>),
    Inspect(Seq<char>),
    RemoveDirectory(Seq<char>),
    RemoveFile(Seq<char>),
}

impl View for Recovery {
    type V = Step;

    open spec fn view(&self) -> Step {
        match *self {
            Recovery::Restore { from, to } => Step::Restore(from@, to@),
            Recovery::Inspect { name } => Step::Inspect(name@),
            Recovery::RemoveDirectory { name } => Step::RemoveDirectory(name@),
            Recovery::RemoveFile { name } => Step::RemoveFile(name@),
        }
    }
}

/// Whether a name can be that of a server's directory: those have a dash in them.
pub open spec fn names_a_server(name: Seq<char>) -> bool {
    text::mentions(name, '-')
}

/// Whether a name can be that of a server's directory.
pub fn aside_targets_server_dir(name: &str) -> (r: bool)
    ensures
        r == names_a_server(name@),
{
    let cs = text::chars_of(name);
    text::contains_char(cs.as_slice(), '-')
}

/// Which leftovers a pass of the recovery looks at.
#[derive(Debug, Clone, Copy, PartialEq, Eq, Structural)]
pub enum RecoveryPass {
    /// Put back what stepped aside, before anything is removed.
    Restore,
    /// Remove what an unpacked backup was staged in: its archive is still there.
    Staged,
    /// Remove what stepped aside for a directory that is in place.
    Superseded,
    /// Remove the files of a probe.
    Probes,
}

/// The pass that follows one.
pub open spec fn pass_behind(p: RecoveryPass) -> Option<RecoveryPass> {
    match p {
        RecoveryPass::Restore => Some(RecoveryPass::Staged),
        RecoveryPass::Staged => Some(RecoveryPass::Superseded),
        RecoveryPass::Superseded => Some(RecoveryPass::Probes),
        RecoveryPass::Probes => None,
    }
}

/// The pass that follows one; the recovery begins with [`RecoveryPass::Restore`].
pub fn next_pass(p: RecoveryPass) -> (r: Option<RecoveryPass>)
    ensures
        r == pass_behind(p),
{
    match p {
        RecoveryPass::Restore => Some(RecoveryPass::Staged),
        RecoveryPass::Staged => Some(RecoveryPass::Superseded),
        RecoveryPass::Superseded => Some(RecoveryPass::Probes),
        RecoveryPass::Probes => None,
    }
}

/// What a pass does with what it finds under a name; `there` tells whether
/// something stands under the name without its `.previous-`.
pub open spec fn recovery_step(
    pass: RecoveryPass,
    name: Seq<char>,
    kind: NodeKind,
    there: bool,
) -> Option<Step> {
    let aside = ".previous-"@;
    let dir = kind == NodeKind::Directory;
    match pass {
        RecoveryPass::Restore => if text::begins_with(name, aside) && dir && !there {
            let target = name.skip(aside.len() as int);
            Some(
                if names_a_server(target) {
                    Step::Restore(name, target)
                } else {
                    Step::Inspect(name)
                },
            )
        } else {
            None
        },
        RecoveryPass::Staged => if text::begins_with(name, ".restore-"@) && dir {
            Some(Step::RemoveDirectory(name))
        } else {
            None
        },
        RecoveryPass::Superseded => if text::begins_with(name, aside) && dir && there {
            Some(Step::RemoveDirectory(name))
        } else {
            None
        },
        RecoveryPass::Probes => if text::begins_with(name, ".renameat2-probe-"@) && kind
            == NodeKind::File {
            Some(Step::RemoveFile(name))
        } else {
            None
        },
    }
}

/// Whether a name starts with a text.
fn name_starts(name: &str, p: &str) -> (r: bool)
    ensures
        r == text::begins_with(name@, p@),
{
    let n = text::chars_of(name);
    let q = text::chars_of(p);
    text::starts_with(n.as_slice(), q.as_slice())
}

/// The name without its `.previous-`.
fn target_of(name: &str) -> (r: String)
    requires
        text::begins_with(name@, ".previous-"@),
    ensures
        r@ == name@.skip(".previous-"@.len() as int),
{
    let cs = text::chars_of(name);
    let p = text::chars_of(".previous-");
    let to = text::string_of(slice_subrange(cs.as_slice(), p.len(), cs.len()));
    assert(to@ =~= name@.skip(p@.len() as int));
    to
}

/// What a pass of the recovery at startup does with an entry of the directory of
/// the servers' directories. Each entry is looked at anew when the pass comes to
/// it: what was moved or removed before counts.
pub fn recover_stale_dirs(pass: RecoveryPass, e: &StaleEntry) -> (r: Option<Recovery>)
    ensures
        match r {
            Some(s) => recovery_step(pass, e.name@, e.kind, e.target_exists) == Some(s@),
            None => recovery_step(pass, e.name@, e.kind, e.target_exists) is None,
        },
{
    let name = e.name.as_str();
    let is_dir = e.kind == NodeKind::Directory;
    match pass {
        RecoveryPass::Restore => {
            if !name_starts(name, ".previous-") || !is_dir || e.target_exists {
                return None;
            }
            let to = target_of(name);
            if aside_targets_server_dir(to.as_str()) {
                Some(Recovery::Restore { from: text::copy_of(name), to })
            } else {
                Some(Recovery::Inspect { name: text::copy_of(name) })
            }
        },
        RecoveryPass::Staged => if is_dir && name_starts(name, ".restore-") {
            Some(Recovery::RemoveDirectory { name: text::copy_of(name) })
        } else {
            None
        },
        RecoveryPass::Superseded => if is_dir && e.target_exists && name_starts(
            name,
            ".previous-",
        ) {
            Some(Recovery::RemoveDirectory { name: text::copy_of(name) })
        } else {
            None
        },
        RecoveryPass::Probes => if e.kind == NodeKind::File && name_starts(
            name,
            ".renameat2-probe-",
        ) {
            Some(Recovery::RemoveFile { name: text::copy_of(name) })
        } else {
            None
        },
    }
}

/// Whether a step counts as an action taken: one that was done, and one that only
/// asks for a look.
pub fn counts_as_action(step: &Recovery, done: bool) -> (r: bool)
    ensures
        r == (step is Inspect || done),
{
    match step {
        Recovery::Inspect { .. } => true,
        _ => done,
    }
}

/// The disk after a step of the recovery was done.
pub open spec fn disk_recovered(d: Disk, step: Option<Step>) -> Disk {
    match step {
        Some(Step::Restore(from, to)) => moved(d, from, to),
        Some(Step::RemoveDirectory(name)) => d.remove(name),
        Some(Step::RemoveFile(name)) => d.remove(name),
        Some(Step::Inspect(_)) => d,
        None => d,
    }
}

/// What a pass does with what stands under a name on a disk.
pub open spec fn step_on(d: Disk, pass: RecoveryPass, name: Seq<char>, kind: NodeKind) -> Option<
    Step,
> {
    recovery_step(
        pass,
        name,
        kind,
        text::begins_with(name, ".previous-"@) && d.dom().contains(
            name.skip(".previous-"@.len() as int),
        ),
    )
}

/// The disk after the recovery came to some names, in turn; each step was done or
/// failed.
pub open spec fn disk_after_recovery(
    d: Disk,
    looks: Seq<(RecoveryPass, Seq<char>, NodeKind, bool)>,
) -> Disk
    decreases looks.len(),
{
    if looks.len() == 0 {
        d
    } else {
        let before = disk_after_recovery(d, looks.drop_last());
        let (pass, name, kind, done) = looks.last();
        if before.dom().contains(name) && done {
            disk_recovered(before, step_on(before, pass, name, kind))
        } else {
            before
        }
    }
}

proof fn lemma_recovery_step(
    d: Disk,
    pass: RecoveryPass,
    name: Seq<char>,
    kind: NodeKind,
    live: Seq<char>,
)
    requires
        live.len() > 0,
        live[0] != '.',
        d.dom().contains(name),
    ensures
        ({
            let after = disk_recovered(d, step_on(d, pass, name, kind));
            &&& d.dom().contains(live) ==> after.dom().contains(live) && after[live] == d[live]
            &&& !d.dom().contains(live) && d.dom().contains(aside_of(live)) ==> {
                ||| after.dom().contains(live) && after[live] == d[aside_of(live)]
                ||| !after.dom().contains(live) && after.dom().contains(aside_of(live))
                    && after[aside_of(live)] == d[aside_of(live)]
            }
        }),
{
    let aside = ".previous-"@;
    let staged = ".restore-"@;
    let probe = ".renameat2-probe-"@;
    reveal_strlit(".previous-");
    reveal_strlit(".restore-");
    reveal_strlit(".renameat2-probe-");
    lemma_aside_is_another(live);
    assert(aside_of(live).skip(aside.len() as int) =~= live);
    assert(aside_of(live)[1] == aside[1]);
    if text::begins_with(name, aside) {
        assert(name.subrange(0, aside.len() as int)[0] == aside[0]);
        assert(name =~= aside_of(name.skip(aside.len() as int)));
    }
    if text::begins_with(name, staged) {
        assert(name.subrange(0, staged.len() as int)[0] == staged[0]);
        assert(name.subrange(0, staged.len() as int)[1] == staged[1]);
    }
    if text::begins_with(name, probe) {
        assert(name.subrange(0, probe.len() as int)[0] == probe[0]);
        assert(name.subrange(0, probe.len() as int)[1] == probe[1]);
    }
}

/// A live directory that is in place stays as it is, whatever the recovery comes
/// to. One whose content only stands aside is not lost either: it stays aside, or
/// is put back as it was.
pub proof fn law_recovery_never_removes_the_only_copy(
    d: Disk,
    looks: Seq<(RecoveryPass, Seq<char>, NodeKind, bool)>,
    live: Seq<char>,
)
    requires
        live.len() > 0,
        live[0] != '.',
    ensures
        ({
            let after = disk_after_recovery(d, looks);
            &&& d.dom().contains(live) ==> after.dom().contains(live) && after[live] == d[live]
            &&& !d.dom().contains(live) && d.dom().contains(aside_of(live)) ==> {
                ||| after.dom().contains(live) && after[live] == d[aside_of(live)]
                ||| !after.dom().contains(live) && after.dom().contains(aside_of(live))
                    && after[aside_of(live)] == d[aside_of(live)]
            }
        }),
    decreases looks.len(),
{
    if looks.len() > 0 {
        law_recovery_never_removes_the_only_copy(d, looks.drop_last(), live);
        let before = disk_after_recovery(d, looks.drop_last());
        let (pass, name, kind, done) = looks.last();
        if before.dom().contains(name) {
            lemma_recovery_step(before, pass, name, kind, live);
        }
    }
}

/// The first pass removes nothing.
pub proof fn law_first_pass_removes_nothing(name: Seq<char>, kind: NodeKind, there: bool)
    ensures
        match recovery_step(RecoveryPass::Restore, name, kind, there) {
            Some(s) => s is Restore || s is Inspect,
            None => true,
        },
{
}

/// A server's directory that stepped aside and whose place is empty is put back.
pub proof fn law_only_copy_is_put_back(d: Disk, live: Seq<char>)
    requires
        d.dom().contains(aside_of(live)),
        !d.dom().contains(live),
        names_a_server(live),
    ensures
        ({
            let step = step_on(d, RecoveryPass::Restore, aside_of(live), NodeKind::Directory);
            let after = disk_recovered(d, step);
            &&& step == Some(Step::Restore(aside_of(live), live))
            &&& after.dom().contains(live) && after[live] == d[aside_of(live)]
        }),
{
    lemma_aside_is_another(live);
    let aside = ".previous-"@;
    assert(aside_of(live).subrange(0, aside.len() as int) =~= aside);
    assert(aside_of(live).skip(aside.len() as int) =~= live);
}

/// Whatever phase of a swap a crash interrupts, the server's directory is in
/// place, old or new, or else what stepped aside is put back: the entry that
/// recovery finds under the aside name holds the old content and is moved to the
/// live place.
pub proof fn law_swap_survives_a_crash(
    d: Disk,
    p: SwapPhase,
    live: Seq<char>,
    staged: Seq<char>,
    old: int,
    new: int,
)
    requires
        disk_in(d, p, live, staged, old, new),
        names_a_server(live),
    ensures
        ({
            let after = disk_recovered(
                d,
                step_on(d, RecoveryPass::Restore, aside_of(live), NodeKind::Directory),
            );
            after.dom().contains(live) && (after[live] == old || after[live] == new)
        }),
{
    lemma_aside_is_another(live);
    let aside = ".previous-"@;
    assert(aside_of(live).subrange(0, aside.len() as int) =~= aside);
    assert(aside_of(live).skip(aside.len() as int) =~= live);
}

} // verus!
