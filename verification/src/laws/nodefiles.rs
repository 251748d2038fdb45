//! What the agent on a node does with the files of a server, and how it trades one
//! directory for another.
use crate::laws::archives;
use crate::node_daemon::agent_files;
use crate::node_daemon::agent_files::{FilePlan, RawRemoteEntry};
use crate::node_daemon::error::DaemonError;
use crate::node_protocol::{FileOperation, RemoteFileEntry};
use crate::nodes;
use crate::order;
use crate::order::Ranked;
use crate::paths;
use crate::services::files::{NodeKind, Place};
use crate::swap;
use crate::swap::{Outcome, RecoveryPass, Step, SwapPhase};
use crate::text;
use vstd::prelude::*;
use vstd::string::*;

verus! {

/// A path is granted if and only if none of its parts leads up and none is a link,
/// and else it is refused for the first that does or is.
pub proof fn law_path_is_granted(relative: Seq<char>, links: Seq<bool>)
    ensures
        ({
            let ps = paths::parts(paths::unrooted(relative));
            let at = agent_files::first_stop(
                agent_files::requested(relative),
                links,
                agent_files::requested(relative).len() as int,
            );
            &&& agent_files::requested(relative) == ps
            &&& 0 <= at <= ps.len()
            &&& forall|i: int| 0 <= i < at ==> #[trigger] ps[i] != seq!['.', '.'] && !links[i]
            &&& at < ps.len() ==> ps[at] == seq!['.', '.'] || links[at]
        }),
{
    let ps = paths::parts(paths::unrooted(relative));
    lemma_first_stop(ps, links, ps.len() as int);
}

/// Where the first parts of a path stop.
proof fn lemma_first_stop(ps: Seq<Seq<char>>, links: Seq<bool>, n: int)
    requires
        0 <= n <= ps.len(),
    ensures
        ({
            let at = agent_files::first_stop(ps, links, n);
            &&& 0 <= at <= n
            &&& forall|i: int| 0 <= i < at ==> #[trigger] ps[i] != seq!['.', '.'] && !links[i]
            &&& at < n ==> ps[at] == seq!['.', '.'] || links[at]
        }),
    decreases n,
{
    if n > 0 {
        lemma_first_stop(ps, links, n - 1);
    }
}

/// The first parts of a path stand behind its root.
pub proof fn law_first_parts_of_a_path(root: Seq<char>, ps: Seq<Seq<char>>, n: int)
    requires
        0 <= n < ps.len(),
    ensures
        agent_files::prefix(root, ps, 0) == root,
        agent_files::prefix(root, ps, n + 1) == paths::joined(
            agent_files::prefix(root, ps, n),
            ps[n],
        ),
{
}

/// What is opened for a request is what stands behind its slashes, and the
/// directory itself where nothing does.
pub proof fn law_what_is_opened(s: Seq<char>)
    requires
        s.len() > 0,
        s[0] != '/',
    ensures
        agent_files::opened(s) == s,
        agent_files::opened(seq!['/'] + s) == s,
        agent_files::opened(seq!['/']) == seq!['.'],
        agent_files::opened(Seq::empty()) == seq!['.'],
{
    archives::law_requests_start_at_the_root(s);
    let none = Seq::<char>::empty();
    archives::law_requests_start_at_the_root(none);
    assert(seq!['/'] + none =~= seq!['/']);
}

/// The place of a path is its name in the directory that holds it.
pub proof fn law_place_of_a_path(p: Place, dir: Seq<char>, name: Seq<char>)
    requires
        paths::is_plain(dir),
        dir.len() > 0,
        paths::is_name(name),
        agent_files::is_place(p, seq!['/'] + dir + seq!['/'] + name),
    ensures
        p.name@ == name,
        p.dir@ == dir,
{
    let s = dir + seq!['/'] + name;
    paths::lemma_plain_child(dir, name);
    paths::lemma_plain_parent(s);
    archives::law_requests_start_at_the_root(s);
    assert(seq!['/'] + dir + seq!['/'] + name =~= seq!['/'] + s);
    assert(paths::parts(dir).push(name).drop_last() =~= paths::parts(dir));
    paths::lemma_plain_parent(dir);
}

/// A plan to rename leads from the place of one path to the place of the other. A
/// path without a name is refused, and so is one to a directory that is not named
/// from the server's own.
pub proof fn law_renaming(from: Seq<char>, to: Seq<char>, plan: FilePlan)
    ensures
        paths::last_name(paths::unrooted(from)) is None || paths::last_name(paths::unrooted(to)) is None
            ==> agent_files::rename_fault(from, to) == Some(DaemonError::NoName),
        agent_files::rename_fault(from, to) is None ==> paths::last_name(paths::unrooted(from)) is Some
            && paths::last_name(paths::unrooted(to)) is Some && agent_files::named_above(to),
        agent_files::renames(plan, from, to) ==> (plan matches FilePlan::Rename {
            source,
            new_above,
            target,
        } && paths::last_name(paths::unrooted(from)) == Some(source.name@) && paths::last_name(
            paths::unrooted(to),
        ) == Some(target.name@)),
        paths::last_name(paths::unrooted(from)) is Some && paths::last_name(
            paths::unrooted(to),
        ) is Some ==> (agent_files::rename_fault(from, to) is None <==> agent_files::named_above(
            to,
        )),
{
}

/// A file that is moved to a directory keeps its name there, whatever slashes stand
/// behind the directory.
pub proof fn law_moving_into_a_directory(dir: Seq<char>, name: Seq<char>)
    requires
        dir.len() > 0 ==> dir.last() != '/',
    ensures
        agent_files::moved_to(dir, name) == dir + seq!['/'] + name,
        agent_files::moved_to(dir + seq!['/'], name) == dir + seq!['/'] + name,
        agent_files::moved_to(dir + seq!['/', '/'], name) == dir + seq!['/'] + name,
{
    let a = dir + seq!['/'];
    let b = dir + seq!['/', '/'];
    assert(a.drop_last() =~= dir);
    assert(b.drop_last() =~= a);
    assert(nodes::unslashed(dir) == dir);
    assert(nodes::unslashed(a) == dir);
    assert(nodes::unslashed(b) == dir);
}

/// What a plan does is what was asked for.
pub proof fn law_plan_is_what_was_asked_for(
    plan: FilePlan,
    op: FileOperation,
    mb: u64,
)
    requires
        agent_files::planned(Ok(plan), op, mb),
    ensures
        op is Mkdir <==> plan is Mkdir,
        op is Touch <==> plan is Touch,
        op is Rename || op is Move <==> plan is Rename,
        op is Copy <==> plan is Copy,
        op is Delete <==> plan is Delete,
        op is Chmod <==> plan is Chmod,
        op matches FileOperation::Chmod { path, mode } ==> (plan matches FilePlan::Chmod {
            changed,
            bits,
        } && bits == mode && changed@ == agent_files::opened(path@)),
        op matches FileOperation::Copy { from, to } ==> (plan matches FilePlan::Copy {
            read,
            limit,
            copy_above,
            written,
        } && limit == mb * 1_048_576 && read@ == agent_files::opened(from@) && written@
            == agent_files::opened(to@)),
        op matches FileOperation::Delete { path } ==> (plan matches FilePlan::Delete { gone }
            && paths::last_name(paths::unrooted(path@)) == Some(gone.name@)),
        op matches FileOperation::Touch { path } ==> (plan matches FilePlan::Touch {
            made_above,
            touched,
        } && touched@ == agent_files::opened(path@)),
        op matches FileOperation::Mkdir { path } ==> (plan matches FilePlan::Mkdir {
            above,
            made,
            reopen,
        } && paths::last_name(paths::unrooted(path@)) == Some(made.name@) && reopen@
            == agent_files::opened(path@)),
        op matches FileOperation::Move { from, destination } ==> (plan matches FilePlan::Rename {
            source,
            new_above,
            target,
        } && paths::last_name(paths::unrooted(from@)) == Some(source.name@)),
{
}

/// An entry of a listing tells what is there: its name, its kind, its time and its
/// mode, and the size of a file.
pub proof fn law_entries_tell_what_is_there(
    root: Seq<char>,
    dir: Seq<char>,
    raw: RawRemoteEntry,
    e: RemoteFileEntry,
)
    requires
        agent_files::is_remote_entry(root, dir, raw, e),
    ensures
        e.name@ == raw.name@ && e.is_dir == raw.is_dir && e.modified == raw.modified && e.mode
            == raw.mode,
        raw.is_dir ==> e.size == 0,
        !raw.is_dir ==> e.size == raw.len,
        e.path@.len() > 0 && e.path@[0] == '/',
{
}

/// A listing has its directories first, and then its files, each by the small
/// letters of their names, and leaves none out.
pub proof fn law_listing_of_a_node(es: Seq<RemoteFileEntry>, i: int, j: int)
    requires
        0 <= i < j < order::sorted(es).len(),
    ensures
        order::sorted(es)[j].is_dir ==> order::sorted(es)[i].is_dir,
        order::sorted(es)[j].is_dir == order::sorted(es)[i].is_dir ==> text::lex_le(
            text::lowercase_of(order::sorted(es)[i].name@),
            text::lowercase_of(order::sorted(es)[j].name@),
        ),
        order::sorted(es).to_multiset() == es.to_multiset(),
{
    assert forall|a: RemoteFileEntry, b: RemoteFileEntry| #[trigger]
        a.may_precede(&b) || b.may_precede(&a) by {
        text::lemma_lex_total(text::lowercase_of(a.name@), text::lowercase_of(b.name@));
    }
    assert forall|a: RemoteFileEntry, b: RemoteFileEntry, c: RemoteFileEntry|
        #[trigger]
        a.may_precede(&b) && #[trigger] b.may_precede(&c) implies a.may_precede(&c) by {
        if a.is_dir == b.is_dir && b.is_dir == c.is_dir {
            text::lemma_lex_transitive(
                text::lowercase_of(a.name@),
                text::lowercase_of(b.name@),
                text::lowercase_of(c.name@),
            );
        }
    }
    order::lemma_sorted_is_ordered(es);
    order::lemma_sorted_keeps_items(es);
    assert(order::sorted(es)[i].may_precede(&order::sorted(es)[j]));
}

/// Two directories trade places in one step where the system can do that. Where it
/// cannot, the old one is set aside, the new one put in, and the old one swept; and
/// where the new one cannot be put in, the old one comes back.
pub proof fn law_directories_trade_places(o: Outcome, left_over: bool)
    ensures
        swap::first_phase(true, left_over) == SwapPhase::Exchange,
        swap::first_phase(false, true) == SwapPhase::Clear,
        swap::first_phase(false, false) == SwapPhase::Aside,
        swap::phase_behind(SwapPhase::Exchange, Outcome::Done, left_over) == SwapPhase::Swapped,
        swap::phase_behind(SwapPhase::Exchange, Outcome::Failed, left_over) == SwapPhase::Refused,
        swap::phase_behind(SwapPhase::Exchange, Outcome::Unsupported, true) == SwapPhase::Clear,
        swap::phase_behind(SwapPhase::Exchange, Outcome::Unsupported, false) == SwapPhase::Aside,
        swap::phase_behind(SwapPhase::Clear, o, left_over) == SwapPhase::Aside,
        swap::phase_behind(SwapPhase::Aside, Outcome::Done, left_over) == SwapPhase::Insert,
        swap::phase_behind(SwapPhase::Insert, Outcome::Done, left_over) == SwapPhase::Sweep,
        swap::phase_behind(SwapPhase::Sweep, o, left_over) == SwapPhase::Swapped,
        o != Outcome::Done ==> swap::phase_behind(SwapPhase::Aside, o, left_over)
            == SwapPhase::Refused && swap::phase_behind(SwapPhase::Insert, o, left_over)
            == SwapPhase::Rollback,
        swap::phase_behind(SwapPhase::Rollback, o, left_over) == SwapPhase::Refused,
        swap::phase_behind(SwapPhase::Swapped, o, left_over) == SwapPhase::Swapped,
        swap::phase_behind(SwapPhase::Refused, o, left_over) == SwapPhase::Refused,
{
}

/// A directory that is set aside bears its own name behind a mark.
pub proof fn law_name_set_aside(name: Seq<char>)
    ensures
        swap::aside_of(name) == seq!['.', 'p', 'r', 'e', 'v', 'i', 'o', 'u', 's', '-'] + name,
        swap::names_a_server(name) <==> exists|i: int| 0 <= i < name.len() && #[trigger] name[i] == '-',
{
    reveal_strlit(".previous-");
    assert(swap::aside_of(name) =~= seq!['.', 'p', 'r', 'e', 'v', 'i', 'o', 'u', 's', '-'] + name);
    if swap::names_a_server(name) {
        let i = choose|i: int| 0 <= i < name.len() && name[i] == '-';
        assert(name[i] == '-');
    }
}

/// Recovery goes through what is left over in order: it puts back what was set aside
/// and is missing, then removes what was staged, what was superseded, and the
/// probes, and leaves everything else.
pub proof fn law_recovery(name: Seq<char>, kind: NodeKind, there: bool)
    ensures
        swap::pass_behind(RecoveryPass::Restore) == Some(RecoveryPass::Staged),
        swap::pass_behind(RecoveryPass::Staged) == Some(RecoveryPass::Superseded),
        swap::pass_behind(RecoveryPass::Superseded) == Some(RecoveryPass::Probes),
        swap::pass_behind(RecoveryPass::Probes) is None,
        swap::recovery_step(RecoveryPass::Restore, swap::aside_of(name), kind, there) is Some
            <==> kind == NodeKind::Directory && !there,
        kind == NodeKind::Directory && !there && text::mentions(name, '-') ==> swap::recovery_step(
            RecoveryPass::Restore,
            swap::aside_of(name),
            kind,
            there,
        ) == Some(Step::Restore(swap::aside_of(name), name)),
        kind == NodeKind::Directory && !there && !text::mentions(name, '-') ==> swap::recovery_step(
            RecoveryPass::Restore,
            swap::aside_of(name),
            kind,
            there,
        ) == Some(Step::Inspect(swap::aside_of(name))),
        swap::recovery_step(RecoveryPass::Superseded, swap::aside_of(name), kind, there) == if kind
            == NodeKind::Directory && there {
            Some(Step::RemoveDirectory(swap::aside_of(name)))
        } else {
            None
        },
        swap::recovery_step(RecoveryPass::Staged, ".restore-"@ + name, kind, there) == if kind
            == NodeKind::Directory {
            Some(Step::RemoveDirectory(".restore-"@ + name))
        } else {
            None
        },
        swap::recovery_step(RecoveryPass::Probes, ".renameat2-probe-"@ + name, kind, there)
            == if kind == NodeKind::File {
            Some(Step::RemoveFile(".renameat2-probe-"@ + name))
        } else {
            None
        },
        name.len() > 0 && name[0] != '.' ==> forall|pass: RecoveryPass| #[trigger]
            swap::recovery_step(pass, name, kind, there) is None,
{
    reveal_strlit(".previous-");
    reveal_strlit(".restore-");
    reveal_strlit(".renameat2-probe-");
    let a = swap::aside_of(name);
    assert(a.take(10) =~= ".previous-"@);
    assert(a.skip(10) =~= name);
    let b = ".restore-"@ + name;
    assert(b.take(9) =~= ".restore-"@);
    let c = ".renameat2-probe-"@ + name;
    assert(c.take(17) =~= ".renameat2-probe-"@);
    if name.len() > 0 && name[0] != '.' {
        assert forall|pass: RecoveryPass| #[trigger]
            swap::recovery_step(pass, name, kind, there) is None by {
            if text::begins_with(name, ".previous-"@) {
                assert(name.take(10)[0] == '.');
            }
            if text::begins_with(name, ".restore-"@) {
                assert(name.take(9)[0] == '.');
            }
            if text::begins_with(name, ".renameat2-probe-"@) {
                assert(name.take(17)[0] == '.');
            }
        }
    }
}

} // verus!
