//! What backups and their mirror come to.
use crate::json;
use crate::json::Doc;
use crate::models::{Config, Server};
use crate::order;
use crate::paths;
use crate::services::backups;
use crate::services::backups::{CopyOutcome, MirrorFile, RestorePhase, ServerSync};
use crate::text;
use vstd::prelude::*;
use vstd::string::*;

verus! {

/// What is put into a document under a key is there, and nothing else changes.
pub proof fn lemma_put(d: Doc, key: Seq<char>, value: Doc, other: Seq<char>)
    requires
        d is Object,
    ensures
        json::inserted(d, key, value) is Object,
        json::member(json::inserted(d, key, value), key) == Some(value),
        other != key ==> json::member(json::inserted(d, key, value), other) == json::member(
            d,
            other,
        ),
{
    json::law_put_member_is_found(d->Object_0, key, value, other);
}

/// A restore of which every step succeeds ends restored: by an exchange where there
/// was a live directory, and by a move where there was none.
pub proof fn law_good_restore_is_finished(oks: Seq<bool>, live_exists: bool)
    requires
        forall|i: int| 0 <= i < oks.len() ==> #[trigger] oks[i],
    ensures
        ({
            let p = backups::restore_after(oks, live_exists);
            &&& oks.len() == 0 ==> p == RestorePhase::Check
            &&& oks.len() == 1 ==> p == RestorePhase::Stage
            &&& oks.len() == 2 ==> p == RestorePhase::Unpack
            &&& oks.len() == 3 ==> p == RestorePhase::Isolate
            &&& oks.len() == 4 ==> p == (if live_exists {
                RestorePhase::Exchange
            } else {
                RestorePhase::MoveIn
            })
            &&& oks.len() == 5 ==> p == (if live_exists {
                RestorePhase::Sweep
            } else {
                RestorePhase::Restored
            })
            &&& oks.len() >= 6 ==> p == RestorePhase::Restored
        }),
    decreases oks.len(),
{
    if oks.len() > 0 {
        let less = oks.drop_last();
        assert forall|i: int| 0 <= i < less.len() implies #[trigger] less[i] by {
            assert(oks[i]);
        }
        law_good_restore_is_finished(less, live_exists);
        assert(oks[oks.len() - 1]);
    }
}

/// A restore of which a step before the end fails is failed, and stays so; where it
/// was unpacking, what it unpacked is discarded first.
pub proof fn law_failed_restore_stays_failed(oks: Seq<bool>, live_exists: bool, k: int)
    requires
        0 <= k < 5,
        k < oks.len(),
        forall|i: int| 0 <= i < k ==> #[trigger] oks[i],
        !oks[k],
    ensures
        ({
            let p = backups::restore_after(oks, live_exists);
            if k == 2 && oks.len() == 3 {
                p == RestorePhase::Discard
            } else {
                p == RestorePhase::Failed
            }
        }),
    decreases oks.len(),
{
    let less = oks.drop_last();
    if oks.len() == k + 1 {
        assert forall|i: int| 0 <= i < less.len() implies #[trigger] less[i] by {
            assert(oks[i]);
        }
        law_good_restore_is_finished(less, live_exists);
    } else {
        assert(less[k] == oks[k]);
        assert forall|i: int| 0 <= i < k implies #[trigger] less[i] by {
            assert(oks[i]);
        }
        law_failed_restore_stays_failed(less, live_exists, k);
    }
}

proof fn lemma_member_of(fs: Seq<MirrorFile>, i: int)
    requires
        0 <= i < backups::archives(fs).len(),
    ensures
        fs.contains(backups::archives(fs)[i]),
        backups::is_archive(backups::archives(fs)[i]),
{
    let keep = |f: MirrorFile| backups::is_archive(f);
    let kept = fs.filter(keep);
    let all = backups::archives(fs);
    order::lemma_sorted_keeps_items(kept);
    let x = all[i];
    assert(all.contains(x));
    all.to_multiset_ensures();
    kept.to_multiset_ensures();
    assert(all.to_multiset().count(x) > 0);
    assert(kept.to_multiset().count(x) > 0);
    assert(kept.contains(x));
    fs.lemma_filter_contains_rev(keep, x);
    let j = choose|j: int| 0 <= j < kept.len() && kept[j] == x;
    fs.lemma_filter_pred(keep, j);
}

/// Trimming a mirror removes archives alone, of those that are there, and as many as
/// there are beyond what is kept.
pub proof fn law_trimming_removes_archives_alone(fs: Seq<MirrorFile>, keep: usize, i: int)
    requires
        0 <= i < backups::archives(fs).take(
            backups::excess(backups::archives(fs).len(), keep),
        ).len(),
    ensures
        ({
            let gone = backups::archives(fs).take(
                backups::excess(backups::archives(fs).len(), keep),
            );
            &&& fs.contains(gone[i])
            &&& text::finishes_with(gone[i].name@, ".tar.gz"@)
            &&& gone.len() + keep == backups::archives(fs).len()
        }),
{
    lemma_member_of(fs, i);
}

/// Every archive of a mirror is counted when it is trimmed.
pub proof fn law_every_archive_is_counted(fs: Seq<MirrorFile>, i: int)
    requires
        0 <= i < fs.len(),
        text::finishes_with(fs[i].name@, ".tar.gz"@),
    ensures
        backups::archives(fs).contains(fs[i]),
{
    let keep = |f: MirrorFile| backups::is_archive(f);
    let kept = fs.filter(keep);
    let all = backups::archives(fs);
    assert(fs.contains(fs[i]));
    fs.lemma_filter_contains(keep, i);
    assert(kept.contains(fs[i]));
    order::lemma_sorted_keeps_items(kept);
    all.to_multiset_ensures();
    kept.to_multiset_ensures();
    assert(kept.to_multiset().count(fs[i]) > 0);
    assert(all.to_multiset().count(fs[i]) > 0);
}

/// What a sync reports are sums over its servers.
pub proof fn law_sync_adds_up(ss: Seq<ServerSync>, s: ServerSync, cs: Seq<CopyOutcome>, c: CopyOutcome, o: CopyOutcome)
    ensures
        backups::total_of(Seq::empty(), o) == 0,
        backups::trimmed_of(Seq::empty()) == 0,
        backups::count_of(Seq::empty(), o) == 0,
        backups::count_of(cs.push(c), o) == backups::count_of(cs, o) + (if c == o {
            1int
        } else {
            0int
        }),
        backups::total_of(ss.push(s), o) == backups::total_of(ss, o) + backups::count_of(
            s.copies@,
            o,
        ),
        backups::trimmed_of(ss.push(s)) == backups::trimmed_of(ss) + (match s.trimmed {
            Some(n) => n as int,
            None => 0int,
        }),
{
    assert(cs.push(c).drop_last() =~= cs);
    assert(ss.push(s).drop_last() =~= ss);
}

/// A sync has failed on a server where its mirror was not trimmed, or some copy
/// failed.
pub proof fn law_failed_sync(s: ServerSync)
    ensures
        backups::had_failure(s) <==> s.trimmed is None || s.copies@.contains(CopyOutcome::Failed),
{
    lemma_count(s.copies@);
}

proof fn lemma_count(cs: Seq<CopyOutcome>)
    ensures
        backups::count_of(cs, CopyOutcome::Failed) > 0 <==> cs.contains(CopyOutcome::Failed),
    decreases cs.len(),
{
    if cs.len() > 0 {
        lemma_count(cs.drop_last());
        let less = cs.drop_last();
        if less.contains(CopyOutcome::Failed) {
            let k = choose|k: int| 0 <= k < less.len() && less[k] == CopyOutcome::Failed;
            assert(cs[k] == CopyOutcome::Failed);
        }
        if cs.last() == CopyOutcome::Failed {
            assert(cs[cs.len() - 1] == CopyOutcome::Failed);
        }
        if cs.contains(CopyOutcome::Failed) && cs.last() != CopyOutcome::Failed {
            let k = choose|k: int| 0 <= k < cs.len() && cs[k] == CopyOutcome::Failed;
            assert(less[k] == CopyOutcome::Failed);
        }
    }
}

/// An event of a backup tells its name, the server by number, uuid and name, and
/// when it was.
pub proof fn law_event_tells_what_happened(
    server_id: i64,
    server: Option<Server>,
    event: Seq<char>,
    timestamp: Seq<char>,
)
    ensures
        ({
            let d = backups::event_base(server_id, server, event, timestamp);
            &&& json::member(d, "event"@) == Some(Doc::Text(event))
            &&& json::member(d, "server_id"@) == Some(Doc::Number(text::decimal(server_id as int)))
            &&& json::member(d, "timestamp"@) == Some(Doc::Text(timestamp))
            &&& server is Some ==> json::member(d, "uuid"@) == Some(Doc::Text(server->0.uuid@))
                && json::member(d, "server_name"@) == Some(Doc::Text(server->0.name@))
            &&& server is None ==> json::member(d, "uuid"@) == Some(Doc::Null) && json::member(
                d,
                "server_name"@,
            ) == Some(Doc::Null)
        }),
{
    reveal_strlit("event");
    reveal_strlit("server_id");
    reveal_strlit("uuid");
    reveal_strlit("server_name");
    reveal_strlit("timestamp");
    let none = Doc::Object(Seq::<(Seq<char>, Doc)>::empty());
    let e = Doc::Text(event);
    let n = Doc::Number(text::decimal(server_id as int));
    let u = match server {
        Some(s) => Doc::Text(s.uuid@),
        None => Doc::Null,
    };
    let m = match server {
        Some(s) => Doc::Text(s.name@),
        None => Doc::Null,
    };
    let t = Doc::Text(timestamp);
    let d1 = json::inserted(none, "event"@, e);
    let d2 = json::inserted(d1, "server_id"@, n);
    let d3 = json::inserted(d2, "uuid"@, u);
    let d4 = json::inserted(d3, "server_name"@, m);
    lemma_put(none, "event"@, e, "event"@);
    lemma_put(d1, "server_id"@, n, "event"@);
    lemma_put(d2, "uuid"@, u, "event"@);
    lemma_put(d2, "uuid"@, u, "server_id"@);
    lemma_put(d3, "server_name"@, m, "event"@);
    lemma_put(d3, "server_name"@, m, "server_id"@);
    lemma_put(d3, "server_name"@, m, "uuid"@);
    lemma_put(d4, "timestamp"@, t, "event"@);
    lemma_put(d4, "timestamp"@, t, "server_id"@);
    lemma_put(d4, "timestamp"@, t, "uuid"@);
    lemma_put(d4, "timestamp"@, t, "server_name"@);
    assert("event"@.len() == 5 && "server_id"@.len() == 9 && "uuid"@.len() == 4
        && "server_name"@.len() == 11 && "timestamp"@.len() == 9);
    assert("server_id"@[0] == 's' && "timestamp"@[0] == 't');
}

/// A finished backup tells what was made of it, and a failed one why.
pub proof fn law_made_backup_is_told(
    id: i64,
    size: u64,
    checksum: Seq<char>,
    name: Seq<char>,
    why: Seq<char>,
)
    ensures
        ({
            let d = backups::create_extra(Ok((id, size, checksum)), name);
            &&& json::member(d, "operation"@) == Some(Doc::Text("create"@))
            &&& json::member(d, "backup_id"@) == Some(Doc::Number(text::decimal(id as int)))
            &&& json::member(d, "backup_name"@) == Some(Doc::Text(name))
            &&& json::member(d, "size"@) == Some(Doc::Number(text::decimal(size as int)))
            &&& json::member(d, "checksum"@) == Some(Doc::Text(checksum))
        }),
        json::member(backups::create_extra(Err(why), name), "error"@) == Some(Doc::Text(why)),
        json::member(backups::restore_extra(id, name, Some(why)), "error"@) == Some(
            Doc::Text(why),
        ),
        json::member(backups::restore_extra(id, name, None), "error"@) is None,
        json::member(backups::restore_extra(id, name, None), "operation"@) == Some(
            Doc::Text("restore"@),
        ),
        json::member(backups::restore_extra(id, name, None), "backup_name"@) == Some(
            Doc::Text(name),
        ),
        backups::event_name(true) == "backup.complete"@,
        backups::event_name(false) == "backup.failed"@,
{
    reveal_strlit("operation");
    reveal_strlit("backup_id");
    reveal_strlit("backup_name");
    reveal_strlit("size");
    reveal_strlit("checksum");
    reveal_strlit("error");
    let none = Doc::Object(Seq::<(Seq<char>, Doc)>::empty());
    let op = Doc::Text("create"@);
    let i = Doc::Number(text::decimal(id as int));
    let n = Doc::Text(name);
    let s = Doc::Number(text::decimal(size as int));
    let c = Doc::Text(checksum);
    let w = Doc::Text(why);
    let d1 = json::inserted(none, "operation"@, op);
    let d2 = json::inserted(d1, "backup_id"@, i);
    let d3 = json::inserted(d2, "backup_name"@, n);
    let d4 = json::inserted(d3, "size"@, s);
    assert("operation"@[0] == 'o' && "backup_id"@.len() == 9 && "backup_name"@.len() == 11
        && "size"@.len() == 4 && "checksum"@.len() == 8 && "error"@.len() == 5 && "operation"@.len()
        == 9 && "backup_id"@[0] == 'b');
    lemma_put(none, "operation"@, op, "operation"@);
    lemma_put(d1, "backup_id"@, i, "operation"@);
    lemma_put(d2, "backup_name"@, n, "operation"@);
    lemma_put(d2, "backup_name"@, n, "backup_id"@);
    lemma_put(d3, "size"@, s, "operation"@);
    lemma_put(d3, "size"@, s, "backup_id"@);
    lemma_put(d3, "size"@, s, "backup_name"@);
    lemma_put(d4, "checksum"@, c, "operation"@);
    lemma_put(d4, "checksum"@, c, "backup_id"@);
    lemma_put(d4, "checksum"@, c, "backup_name"@);
    lemma_put(d4, "checksum"@, c, "size"@);
    lemma_put(d1, "error"@, w, "operation"@);
    let or = Doc::Text("restore"@);
    let r1 = json::inserted(none, "operation"@, or);
    let r2 = json::inserted(r1, "backup_id"@, i);
    let r3 = json::inserted(r2, "backup_name"@, n);
    lemma_put(none, "operation"@, or, "error"@);
    lemma_put(r1, "backup_id"@, i, "error"@);
    lemma_put(r1, "backup_id"@, i, "operation"@);
    lemma_put(r2, "backup_name"@, n, "error"@);
    lemma_put(r2, "backup_name"@, n, "operation"@);
    lemma_put(r3, "error"@, w, "operation"@);
    assert(json::member(none, "error"@) is None);
}

/// A mirror is kept where it is switched on and has a place, in a directory for each
/// server; and a backup lies in a file of its own.
pub proof fn law_places_of_backups(cfg: Config, server: Server, uuid: Seq<char>)
    ensures
        !cfg.mirror.enabled || cfg.mirror.path is None ==> backups::mirror_dir(cfg, server) is None,
        cfg.mirror.enabled && cfg.mirror.path is Some ==> backups::mirror_dir(cfg, server) == Some(
            paths::joined(cfg.mirror.path->0@, server.uuid@),
        ),
        backups::archive_path(cfg, uuid) == paths::joined(
            cfg.paths.backups_dir@,
            uuid + seq!['.', 't', 'a', 'r', '.', 'g', 'z'],
        ),
{
    reveal_strlit(".tar.gz");
    assert(uuid + ".tar.gz"@ =~= uuid + seq!['.', 't', 'a', 'r', '.', 'g', 'z']);
}

} // verus!
