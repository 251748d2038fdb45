//! Tests of the cluster's nodes.
use chrono::{DateTime, TimeDelta, Utc};
use voltpanel::json::Json;
use voltpanel::node_protocol::{NodeCapacity, NodeHeartbeat};
use voltpanel::nodes::{
    claim, clear_drain, clear_expired_drains, create, create_as, delete, enroll, events, get, get_by_name,
    get_by_uuid, heartbeat, heartbeat_after, judge_public_url, list, normalize_fingerprint, now,
    online_window_secs, pick_node_tx, pinned_fingerprint, port_available_on_node, record_event,
    regenerate_enrollment, release_reservation, reservation_ttl_secs, reserve_capacity_tx,
    reserved_usage, rotate_secret, select_for_server, server_count, set_drain, set_error,
    set_expected_fingerprint, set_tls_fingerprint, update, validate_public_url, Assignment,
    Cluster, Demand, Moment, NodeError,
};

fn moment_of(t: DateTime<Utc>) -> Moment {
    Moment { text: t.to_rfc3339(), secs: t.timestamp(), subsec: t.timestamp_subsec_nanos() }
}

fn later(secs: i64) -> Moment {
    moment_of(Utc::now() + TimeDelta::try_seconds(secs).unwrap())
}

fn no_capacity() -> NodeCapacity {
    NodeCapacity {
        memory_total: 0,
        memory_used: 0,
        disk_total: 0,
        disk_used: 0,
        cpu_threads: 0,
        servers_running: 0,
        servers_total: 0,
    }
}

fn heartbeat_fixture() -> NodeHeartbeat {
    NodeHeartbeat {
        daemon_version: "0.1.1-test".into(),
        hostname: "host".into(),
        os: "linux".into(),
        arch: "x86_64".into(),
        started_at: now().text,
        capacity: no_capacity(),
        tls_fingerprint: String::new(),
    }
}

fn fp64() -> String {
    "ab12".repeat(16)
}

/// Adds a node with what is minted for it derived from its name.
fn add(db: &mut Cluster, name: &str, url: &str, location: &str) -> i64 {
    create_as(
        db,
        name.into(),
        url,
        location.into(),
        vec![],
        format!("uuid-{name}"),
        format!("secret-{name}"),
        format!("token-{name}"),
        &now(),
    )
    .unwrap()
}

fn token_of(db: &Cluster, id: i64) -> String {
    get(db, id).unwrap().enrollment_token.clone().unwrap()
}

/// Changes a node's limits and nothing else of note.
fn change(db: &mut Cluster, id: i64, name: &str, url: &str, mem: i64, disk: i64) -> Result<usize, NodeError> {
    update(
        db,
        id,
        name.into(),
        url,
        true,
        false,
        true,
        String::new(),
        vec![],
        mem,
        disk,
        0,
        0,
        &now(),
    )
}

fn online_node_with_limits(db: &mut Cluster, name: &str, mem_mb: i64, disk_mb: i64) -> i64 {
    let url = format!("https://{name}.example.com");
    let id = add(db, name, &url, "");
    let mut hb = heartbeat_fixture();
    hb.capacity.memory_total = (mem_mb as u64).saturating_mul(1_048_576);
    hb.capacity.disk_total = (disk_mb as u64).saturating_mul(1_048_576);
    let token = token_of(db, id);
    enroll(db, &token, hb.clone(), "minted".into(), &now()).unwrap();
    heartbeat(db, &format!("uuid-{name}"), hb, &now()).unwrap();
    change(db, id, name, &url, mem_mb, disk_mb).unwrap();
    id
}

fn demand(memory_mb: i64, disk_mb: i64) -> Demand {
    Demand { memory_mb, disk_mb, required_tags: vec![], location: None }
}

fn even(db: &Cluster) -> Vec<i64> {
    vec![0; db.nodes.len()]
}

#[test]
fn validate_public_url_contract() {
    assert_eq!(validate_public_url("https://node.example.com/").unwrap(), "https://node.example.com");
    assert_eq!(validate_public_url("http://10.0.0.1:8081///").unwrap(), "http://10.0.0.1:8081");
    assert!(validate_public_url("ftp://node.example.com").is_err());
    assert!(validate_public_url("https://").is_err());
    assert!(validate_public_url("not a url").is_err());
}

#[test]
fn update_rejects_negative_limits_and_invalid_urls() {
    let mut db = Cluster::new();
    let id = add(&mut db, "node-a", "https://node-a.example.com", "dc1");
    let err = change(&mut db, id, "node-a", "https://node-a.example.com", -1, 0).unwrap_err();
    assert!(err.message().contains("must not be negative"));
    let err = change(&mut db, id, "node-a", "ftp://bad.example.com", 0, 0).unwrap_err();
    assert!(err.message().contains("http or https"));
    let got = get(&db, id).unwrap();
    assert_eq!(got.public_url, "https://node-a.example.com");
    assert_eq!(got.memory_limit_mb, 0);
}

#[test]
fn rotate_secret_atomically_revokes_and_rejects_missing() {
    let mut db = Cluster::new();
    let id = add(&mut db, "node-b", "https://node-b.example.com", "");
    let token = token_of(&db, id);
    let at = enroll(&mut db, &token, heartbeat_fixture(), "minted".into(), &now()).unwrap();
    assert!(db.nodes[at].enrolled);
    let uuid = db.nodes[at].uuid.clone();
    heartbeat(&mut db, &uuid, heartbeat_fixture(), &now()).unwrap();

    rotate_secret(&mut db, id, "fresh".into(), "again".into(), &now()).unwrap();
    let after = get(&db, id).unwrap();
    assert!(!after.enrolled);
    assert_eq!(after.secret, "fresh");
    assert_eq!(after.enrollment_token.as_deref(), Some("again"));
    assert!(after.last_heartbeat.is_none());
    let err = heartbeat(&mut db, &uuid, heartbeat_fixture(), &now()).unwrap_err();
    assert!(err.message().contains("node not enrolled"));
    let err = rotate_secret(&mut db, 999_999, "s".into(), "t".into(), &now()).unwrap_err();
    assert!(err.message().contains("node not found"));
}

#[test]
fn regenerate_enrollment_revokes_same_as_rotate() {
    let mut db = Cluster::new();
    let id = add(&mut db, "node-e", "https://node-e.example.com", "");
    let token = token_of(&db, id);
    let at = enroll(&mut db, &token, heartbeat_fixture(), "minted".into(), &now()).unwrap();
    let old_secret = db.nodes[at].secret.clone();
    let token = regenerate_enrollment(&mut db, id, "s2".into(), "t2".into(), &now()).unwrap();
    let after = get(&db, id).unwrap();
    assert!(!after.enrolled);
    assert_ne!(after.secret, old_secret);
    assert_eq!(after.enrollment_token.as_deref(), Some(token.as_str()));
    assert!(after.last_heartbeat.is_none());
}

#[test]
fn enroll_mints_fresh_secret_and_consumes_token() {
    let mut db = Cluster::new();
    let id = add(&mut db, "node-c", "https://node-c.example.com", "");
    let original_secret = get(&db, id).unwrap().secret.clone();
    let token = token_of(&db, id);
    let mut hb = heartbeat_fixture();
    hb.tls_fingerprint = fp64();
    let at = enroll(&mut db, &token, hb.clone(), "minted".into(), &now()).unwrap();
    let enrolled = &db.nodes[at];
    assert!(enrolled.enrolled);
    assert!(enrolled.enrollment_token.is_none());
    assert_ne!(enrolled.secret, original_secret);
    assert_eq!(enrolled.tls_fingerprint, fp64());
    let uuid = enrolled.uuid.clone();
    let err = enroll(&mut db, &token, hb.clone(), "other".into(), &now()).unwrap_err();
    assert!(err.message().contains("invalid or used enrollment token"));
    heartbeat(&mut db, &uuid, hb, &now()).unwrap();
}

#[test]
fn set_tls_fingerprint_only_for_enrolled() {
    let mut db = Cluster::new();
    let id = add(&mut db, "node-d", "https://node-d.example.com", "");
    let uuid = get(&db, id).unwrap().uuid.clone();
    let err = set_tls_fingerprint(&mut db, &uuid, &fp64(), &now()).unwrap_err();
    assert!(err.message().contains("node not enrolled"));
    let token = token_of(&db, id);
    enroll(&mut db, &token, heartbeat_fixture(), "minted".into(), &now()).unwrap();
    set_tls_fingerprint(&mut db, &uuid, &fp64(), &now()).unwrap();
    assert_eq!(get(&db, id).unwrap().tls_fingerprint, fp64());
}

#[test]
fn enroll_rejects_malformed_fingerprint_and_pins_normalized() {
    let mut db = Cluster::new();
    let id = add(&mut db, "node-f", "https://node-f.example.com", "");
    let mut hb = heartbeat_fixture();
    hb.tls_fingerprint = "zz".repeat(32);
    let token = token_of(&db, id);
    let err = enroll(&mut db, &token, hb, "minted".into(), &now()).unwrap_err();
    assert!(err.message().contains("64 hex"));
    let id2 = add(&mut db, "node-g", "https://node-g.example.com", "");
    let mut hb2 = heartbeat_fixture();
    let upper = fp64().to_ascii_uppercase();
    let colonned = upper
        .as_bytes()
        .chunks(2)
        .map(|c| String::from_utf8_lossy(c).to_string())
        .collect::<Vec<_>>()
        .join(":");
    hb2.tls_fingerprint = colonned;
    let token = token_of(&db, id2);
    let at = enroll(&mut db, &token, hb2, "minted".into(), &now()).unwrap();
    assert_eq!(db.nodes[at].tls_fingerprint, fp64());
}

#[test]
fn enroll_is_atomic_and_never_remints_secret_on_second_use() {
    let mut db = Cluster::new();
    let id = add(&mut db, "node-i", "https://node-i.example.com", "");
    let token = token_of(&db, id);
    let at = enroll(&mut db, &token, heartbeat_fixture(), "first".into(), &now()).unwrap();
    let uuid = db.nodes[at].uuid.clone();
    let err = enroll(&mut db, &token, heartbeat_fixture(), "second".into(), &now()).unwrap_err();
    assert!(err.message().contains("invalid or used enrollment token"));
    assert_eq!(
        get(&db, id).unwrap().secret,
        "first",
        "losing enroll must not rotate the winner's secret"
    );
    heartbeat(&mut db, &uuid, heartbeat_fixture(), &now()).unwrap();
}

#[test]
fn enroll_refuses_seed_committed_after_guard_read() {
    let mut db = Cluster::new();
    let id = add(&mut db, "node-race", "https://race.example.com", "");
    let token = token_of(&db, id);
    let seeded = fp64();
    set_expected_fingerprint(&mut db, id, Some(&seeded), &now()).unwrap();

    let mut hb = heartbeat_fixture();
    hb.tls_fingerprint = "cd34".repeat(16);
    let err = enroll(&mut db, &token, hb, "minted".into(), &now()).unwrap_err();
    assert!(err.message().contains("invalid or used enrollment token"));
    let after = get(&db, id).unwrap();
    assert!(!after.enrolled, "seeded gate must refuse the mismatched pin");
    assert_eq!(
        after.enrollment_token.as_deref(),
        Some(token.as_str()),
        "refused enroll must not consume the token"
    );
    assert_eq!(after.expected_fingerprint, seeded, "seed must survive");

    let mut hb2 = heartbeat_fixture();
    hb2.tls_fingerprint = seeded.clone();
    let at = enroll(&mut db, &token, hb2, "minted".into(), &now()).unwrap();
    assert!(db.nodes[at].enrolled);
    assert_eq!(db.nodes[at].tls_fingerprint, seeded);
}

#[test]
fn seeded_node_refuses_who_presents_nothing() {
    let mut db = Cluster::new();
    let id = add(&mut db, "node-seed", "https://seed.example.com", "");
    let token = token_of(&db, id);
    set_expected_fingerprint(&mut db, id, Some(&fp64()), &now()).unwrap();
    let mut hb = heartbeat_fixture();
    hb.tls_fingerprint = String::new();
    assert!(enroll(&mut db, &token, hb, "minted".into(), &now()).is_err());
    let after = get(&db, id).unwrap();
    assert!(!after.enrolled);
    assert_eq!(after.enrollment_token.as_deref(), Some(token.as_str()));
    assert_eq!(after.expected_fingerprint, fp64());
}

#[test]
fn rename_refused_while_servers_assigned_prevents_orphans() {
    let mut db = Cluster::new();
    let id = add(&mut db, "node-h", "https://node-h.example.com", "");
    db.servers.push(Assignment { node: "node-h".into(), port: 0 });
    let err = change(&mut db, id, "renamed", "https://node-h.example.com", 0, 0).unwrap_err();
    assert!(err.message().contains("assigned server"));
    assert_eq!(get(&db, id).unwrap().name, "node-h");
    let err = delete(&mut db, id).unwrap_err();
    assert!(err.message().contains("assigned"));

    db.servers.clear();
    let at = change(&mut db, id, "renamed", "https://node-h.example.com", 0, 0).unwrap();
    assert_eq!(db.nodes[at].name, "renamed");
}

#[test]
fn set_error_only_for_enrolled() {
    let mut db = Cluster::new();
    let id = add(&mut db, "node-j", "https://node-j.example.com", "");
    let uuid = get(&db, id).unwrap().uuid.clone();
    let err = set_error(&mut db, &uuid, "boom".into(), &now()).unwrap_err();
    assert!(err.message().contains("node not enrolled"));
    let token = token_of(&db, id);
    enroll(&mut db, &token, heartbeat_fixture(), "minted".into(), &now()).unwrap();
    set_error(&mut db, &uuid, "boom".into(), &now()).unwrap();
    assert_eq!(get(&db, id).unwrap().last_error, "boom");
}

#[test]
fn reserve_capacity_prevents_oversubscription_until_released() {
    let mut db = Cluster::new();
    let id = online_node_with_limits(&mut db, "node-cap", 8192, 16384);
    assert!(get(&db, id).unwrap().online(&now()));

    let loads = even(&db);
    let (node, rid) = reserve_capacity_tx(&mut db, &demand(5000, 8192), &loads, &now()).unwrap();
    assert_eq!(db.nodes[node].id, id);
    assert!(rid > 0);
    let err = reserve_capacity_tx(&mut db, &demand(5000, 8192), &loads, &now()).unwrap_err();
    assert!(err.message().contains("no online node has enough capacity"));

    release_reservation(&mut db, rid);
    let (node2, rid2) = reserve_capacity_tx(&mut db, &demand(5000, 8192), &loads, &now()).unwrap();
    assert_eq!(db.nodes[node2].id, id);
    assert!(reserve_capacity_tx(&mut db, &demand(5000, 8192), &loads, &now()).is_err());

    release_reservation(&mut db, rid2);
    let (node3, _) = reserve_capacity_tx(&mut db, &demand(5000, 8192), &loads, &now()).unwrap();
    assert_eq!(db.nodes[node3].id, id);
}

#[test]
fn events_limit_is_clamped() {
    let mut db = Cluster::new();
    let id = add(&mut db, "node-evt", "https://evt.example.com", "");
    for i in 0..250 {
        record_event(&mut db, id, "info".into(), "k".into(), format!("m{i}"), Json::object(), now().text);
    }
    assert_eq!(events(&db, id, 10_000).len(), 200);
    assert_eq!(events(&db, id, 0).len(), 1);
    assert_eq!(events(&db, id, -5).len(), 1);
    assert_eq!(events(&db, id, 2)[0].message, "m249");
    assert_eq!(events(&db, id, 2)[1].message, "m248");
    assert!(events(&db, id + 1, 10).is_empty());
}

#[test]
fn reservation_release_and_heartbeat_sweep_are_idempotent() {
    let mut db = Cluster::new();
    release_reservation(&mut db, 999_999);

    let id = online_node_with_limits(&mut db, "node-sweep", 8192, 16384);
    let loads = even(&db);
    let (_, rid) = reserve_capacity_tx(&mut db, &demand(1000, 1024), &loads, &now()).unwrap();
    for r in db.reservations.iter_mut() {
        if r.id == rid {
            r.until = 946_684_800_000_000_000;
        }
    }
    let uuid = get(&db, id).unwrap().uuid.clone();
    heartbeat(&mut db, &uuid, heartbeat_fixture(), &now()).unwrap();
    let remaining = db.reservations.iter().filter(|r| r.id == rid).count();
    assert_eq!(remaining, 0, "heartbeat sweep must delete lapsed claims");
}

#[test]
fn set_and_clear_drain_state() {
    let mut db = Cluster::new();
    let id = online_node_with_limits(&mut db, "node-drain", 8192, 16384);
    assert_eq!(server_count(&db, "node-drain"), 0);
    db.servers.push(Assignment { node: "node-drain".into(), port: 1 });
    db.servers.push(Assignment { node: "node-drain".into(), port: 2 });

    let deadline = later(3600).text;
    let affected =
        set_drain(&mut db, id, "hold".into(), "rack upgrade".into(), Some(deadline.clone()), &now()).unwrap();
    assert_eq!(affected, 2, "both live servers must count as affected");
    let drained = get(&db, id).unwrap();
    assert!(!drained.schedulable, "drain must cordon the node");
    assert!(drained.maintenance, "drain must mark the node in maintenance");
    assert_eq!(drained.drain_mode, "hold");
    assert_eq!(drained.drain_reason, "rack upgrade");
    assert_eq!(drained.drain_deadline.as_deref(), Some(deadline.as_str()));

    clear_drain(&mut db, id, &now()).unwrap();
    let restored = get(&db, id).unwrap();
    assert!(restored.schedulable);
    assert!(!restored.maintenance);
    assert_eq!(restored.drain_mode, "");
    assert_eq!(restored.drain_reason, "");
    assert!(restored.drain_deadline.is_none());

    assert!(set_drain(&mut db, 999_999, "hold".into(), "x".into(), None, &now()).is_err());
    assert!(clear_drain(&mut db, 999_999, &now()).is_err());
}

#[test]
fn lifting_no_drain_changes_nothing() {
    let mut db = Cluster::new();
    let id = online_node_with_limits(&mut db, "node-held", 8192, 16384);
    db.nodes[0].maintenance = true;
    db.nodes[0].schedulable = false;
    clear_drain(&mut db, id, &now()).unwrap();
    let after = get(&db, id).unwrap();
    assert!(after.maintenance && !after.schedulable);
}

#[test]
fn expired_drain_deadline_is_auto_lifted_with_event() {
    let mut db = Cluster::new();
    let id = online_node_with_limits(&mut db, "node-exp", 8192, 16384);
    let past = later(-300).text;
    set_drain(&mut db, id, "hold".into(), "stale".into(), Some(past.clone()), &now()).unwrap();

    let cleared = clear_expired_drains(&mut db, &now());
    assert_eq!(cleared.len(), 1);
    assert_eq!(cleared[0].id, id);
    assert_eq!(cleared[0].drain_mode, "hold");
    assert!(!cleared[0].schedulable, "nodes are given as they were before the lift");
    let after = get(&db, id).unwrap();
    assert!(after.schedulable, "expired drain must be lifted");
    assert!(!after.maintenance, "lift must clear the maintenance flag");
    assert_eq!(after.drain_mode, "");
    assert!(after.drain_deadline.is_none());
    let evs = events(&db, id, 10);
    let lifted = evs.iter().find(|e| e.kind == "drain_expired").unwrap();
    assert_eq!(lifted.payload.get_text("mode").unwrap(), "hold");
    assert_eq!(lifted.payload.get_text("deadline").unwrap(), &past);
}

#[test]
fn future_and_absent_deadlines_survive_the_sweep() {
    let mut db = Cluster::new();
    let fut = online_node_with_limits(&mut db, "node-fut", 8192, 16384);
    let none = online_node_with_limits(&mut db, "node-none", 8192, 16384);
    let future = later(3600).text;
    set_drain(&mut db, fut, "hold".into(), "later".into(), Some(future), &now()).unwrap();
    set_drain(&mut db, none, "hold".into(), "no-deadline".into(), None, &now()).unwrap();

    let cleared = clear_expired_drains(&mut db, &now());
    assert!(cleared.is_empty(), "nothing must be swept: {cleared:?}");
    assert!(!get(&db, fut).unwrap().schedulable, "future deadline must stay drained");
    assert!(!get(&db, none).unwrap().schedulable, "no deadline must stay drained");
    assert!(events(&db, fut, 10).is_empty());
    assert!(events(&db, none, 10).is_empty());
}

#[test]
fn replaced_drain_with_fresh_future_deadline_is_not_swept() {
    let mut db = Cluster::new();
    let id = online_node_with_limits(&mut db, "node-repl", 8192, 16384);
    let past = later(-300).text;
    set_drain(&mut db, id, "hold".into(), "old".into(), Some(past), &now()).unwrap();
    clear_drain(&mut db, id, &now()).unwrap();
    let future = later(3600).text;
    set_drain(&mut db, id, "stop".into(), "new".into(), Some(future.clone()), &now()).unwrap();

    let cleared = clear_expired_drains(&mut db, &now());
    assert!(cleared.is_empty(), "a fresh future deadline must not be swept");
    let after = get(&db, id).unwrap();
    assert!(!after.schedulable, "the replacement drain must stay active");
    assert_eq!(after.drain_mode, "stop");
    assert_eq!(after.drain_deadline.as_deref(), Some(future.as_str()));
}

#[test]
fn placement_refuses_drained_nodes() {
    let mut db = Cluster::new();
    let a = online_node_with_limits(&mut db, "node-a", 8192, 16384);
    let b = online_node_with_limits(&mut db, "node-b", 8192, 16384);
    let loads = even(&db);

    let picked = select_for_server(&mut db, &demand(1000, 1024), &loads, &now()).unwrap();
    assert!(db.nodes[picked].id == a || db.nodes[picked].id == b);

    set_drain(&mut db, a, "hold".into(), "maintenance".into(), None, &now()).unwrap();
    let picked = select_for_server(&mut db, &demand(1000, 1024), &loads, &now()).unwrap();
    assert_eq!(db.nodes[picked].id, b, "placement must skip a drained node");

    set_drain(&mut db, b, "stop".into(), "reboot".into(), None, &now()).unwrap();
    let err = select_for_server(&mut db, &demand(1000, 1024), &loads, &now()).unwrap_err();
    assert!(err.message().contains("drain"), "placement error must name the drain rule: {err:?}");
    let err = reserve_capacity_tx(&mut db, &demand(1000, 1024), &loads, &now()).unwrap_err();
    assert!(err.message().contains("drain"));
}

#[test]
fn windows_follow_the_observed_cadence() {
    assert_eq!(online_window_secs(0), 45);
    assert_eq!(online_window_secs(-3), 45);
    assert_eq!(online_window_secs(5), 30);
    assert_eq!(online_window_secs(20), 60);
    assert_eq!(online_window_secs(3600), 900);
    assert_eq!(online_window_secs(i64::MAX), 900);
    assert_eq!(reservation_ttl_secs(0), 120);
    assert_eq!(reservation_ttl_secs(30), 180);
    assert_eq!(reservation_ttl_secs(3600), 1800);
}

#[test]
fn node_goes_offline_when_its_window_passes() {
    let mut db = Cluster::new();
    let id = online_node_with_limits(&mut db, "n", 10, 10);
    let n = get(&db, id).unwrap();
    let t = Moment { text: String::new(), secs: 1_000, subsec: 5 };
    assert!(n.online_since(Some((956, 0)), &t));
    assert!(!n.online_since(Some((955, 5)), &t));
    assert!(n.online_since(Some((955, 6)), &t));
    assert!(!n.online_since(None, &t));
    assert!(n.online(&later(10)));
    assert!(!n.online(&later(60)));
}

#[test]
fn cadence_is_learned_from_plausible_gaps() {
    let mut db = Cluster::new();
    let id = online_node_with_limits(&mut db, "n", 10, 10);
    let at = |secs: i64| Moment { text: "t".into(), secs, subsec: 0 };
    heartbeat_after(&mut db, "uuid-n", heartbeat_fixture(), Some((1_000, 0)), &at(1_060)).unwrap();
    assert_eq!(get(&db, id).unwrap().cadence, 60);
    heartbeat_after(&mut db, "uuid-n", heartbeat_fixture(), Some((1_000, 0)), &at(1_004)).unwrap();
    assert_eq!(get(&db, id).unwrap().cadence, 60);
    heartbeat_after(&mut db, "uuid-n", heartbeat_fixture(), Some((1_000, 0)), &at(4_601)).unwrap();
    assert_eq!(get(&db, id).unwrap().cadence, 60);
    heartbeat_after(&mut db, "uuid-n", heartbeat_fixture(), Some((1_000, 0)), &at(900)).unwrap();
    assert_eq!(get(&db, id).unwrap().cadence, 60);
    heartbeat_after(&mut db, "uuid-n", heartbeat_fixture(), Some((1_000, 0)), &at(1_005)).unwrap();
    assert_eq!(get(&db, id).unwrap().cadence, 5);
}

#[test]
fn available_capacity_counts_limits_and_overcommitment() {
    let mut db = Cluster::new();
    add(&mut db, "n", "https://n.example.com", "");
    let n = &mut db.nodes[0];
    n.capacity.memory_total = 8 * 1024 * 1_048_576;
    n.capacity.memory_used = 1024 * 1_048_576;
    assert_eq!(n.available_memory_mb(), 7168);
    n.memory_overallocate = 50;
    assert_eq!(n.available_memory_mb(), 11264);
    n.memory_limit_mb = 1001;
    assert_eq!(n.available_memory_mb(), 477);
    n.disk_limit_mb = i64::MAX;
    assert_eq!(n.available_disk_mb(), i64::MAX / 100);
    n.disk_limit_mb = 0;
    n.capacity.disk_used = 3 * 1_048_576;
    assert_eq!(n.available_disk_mb(), -3);
}

#[test]
fn placement_takes_the_least_loaded_fitting_node() {
    let mut db = Cluster::new();
    for name in ["a", "b", "c"] {
        online_node_with_limits(&mut db, name, 1000, 1000);
    }
    db.nodes[1].tags = vec!["ssd".into()];
    db.nodes[2].location = "dc2".into();
    let all = vec![true; 3];
    let t = now();
    assert_eq!(pick_node_tx(&db, &demand(10, 10), &all, &vec![3, 1, 1], &t).unwrap(), 1);
    assert_eq!(pick_node_tx(&db, &demand(10, 10), &vec![true, false, false], &vec![3, 1, 1], &t).unwrap(), 0);
    let mut d = demand(10, 10);
    d.required_tags = vec!["ssd".into()];
    assert_eq!(pick_node_tx(&db, &d, &all, &vec![0, 9, 0], &t).unwrap(), 1);
    let mut d = demand(10, 10);
    d.location = Some("dc2".into());
    assert_eq!(pick_node_tx(&db, &d, &all, &vec![0, 0, 9], &t).unwrap(), 2);
    d.location = Some(String::new());
    assert_eq!(pick_node_tx(&db, &d, &all, &vec![0, 0, 9], &t).unwrap(), 0);
    assert_eq!(pick_node_tx(&db, &demand(1001, 10), &all, &vec![0, 0, 0], &t).unwrap_err(), NodeError::NoCapacity);
    let (at, id) = claim(&mut db, &demand(600, 10), &all, &vec![0, 5, 5], &t).unwrap();
    assert_eq!((at, id), (0, 1));
    assert_eq!(reserved_usage(&db, db.nodes[0].id, &t), (600, 10));
    let (at, _) = claim(&mut db, &demand(600, 10), &all, &vec![0, 5, 5], &t).unwrap();
    assert_eq!(at, 1);
}

#[test]
fn nodes_are_found_and_listed_by_name() {
    let mut db = Cluster::new();
    let b = add(&mut db, "beta", "https://b.example.com", "");
    let a = add(&mut db, "alpha", "https://a.example.com", "");
    let names: Vec<&str> = list(&db).iter().map(|l| l.node.name.as_str()).collect();
    assert_eq!(names, vec!["alpha", "beta"]);
    assert_eq!(get_by_name(&db, "alpha").unwrap().id, a);
    assert_eq!(get_by_uuid(&db, "uuid-beta").unwrap().id, b);
    assert_eq!(get_by_uuid(&db, "none").unwrap_err(), NodeError::NotFound);
    assert_eq!(get_by_name(&db, "none").unwrap_err().message(), "node not found");
    db.servers.push(Assignment { node: "alpha".into(), port: 80 });
    assert!(!port_available_on_node(&db, "alpha", 80));
    assert!(port_available_on_node(&db, "alpha", 81));
    assert!(port_available_on_node(&db, "beta", 80));
    delete(&mut db, b).unwrap();
    assert_eq!(get(&db, b).unwrap_err(), NodeError::NotFound);
    assert!(delete(&mut db, 777).is_ok());
    assert_eq!(delete(&mut db, a).unwrap_err().message(), "node has 1 assigned server(s)");
}

#[test]
fn fingerprints_are_empty_or_digests() {
    assert_eq!(pinned_fingerprint("").unwrap(), "");
    assert_eq!(pinned_fingerprint(" : ").unwrap(), "");
    assert_eq!(normalize_fingerprint(" AB:cd "), "abcd");
    assert!(pinned_fingerprint("abcd").is_err());
    let mut db = Cluster::new();
    let id = add(&mut db, "n", "https://n.example.com", "");
    assert_eq!(set_expected_fingerprint(&mut db, id, Some("abcd"), &now()).unwrap_err(), NodeError::Fingerprint);
    set_expected_fingerprint(&mut db, id, Some(&fp64()), &now()).unwrap();
    set_expected_fingerprint(&mut db, id, None, &now()).unwrap();
    assert_eq!(get(&db, id).unwrap().expected_fingerprint, "");
    assert_eq!(set_expected_fingerprint(&mut db, 99, None, &now()).unwrap_err(), NodeError::NotFound);
}

#[test]
fn node_urls_are_judged_in_order() {
    assert_eq!(judge_public_url(false, "", false).unwrap().message(), "invalid node URL");
    assert_eq!(judge_public_url(true, "ftp", false).unwrap().message(), "node URL must use http or https");
    assert_eq!(judge_public_url(true, "http", false).unwrap().message(), "node URL must include a host");
    assert!(judge_public_url(true, "https", true).is_none());
}

#[test]
fn a_new_node_gets_an_identity_of_its_own() {
    let mut db = Cluster::new();
    let t = now();
    let mint = |db: &mut Cluster, name: &str| {
        create(db, name.into(), "https://n.example/", "eu".into(), vec![], "s".into(), "t".into(), &t).unwrap()
    };
    let a = mint(&mut db, "a");
    let b = mint(&mut db, "b");
    let (a, b) = (get(&db, a).unwrap().uuid.clone(), get(&db, b).unwrap().uuid.clone());
    assert_ne!(a, b);
    assert_eq!(uuid::Uuid::parse_str(&a).unwrap().to_string(), a);
    assert!(create(&mut db, "c".into(), "ftp://x", "eu".into(), vec![], "s".into(), "t".into(), &t).is_err());
}

#[test]
fn a_used_token_stays_dead_whatever_else_happens() {
    let mut db = Cluster::new();
    let id = add(&mut db, "a", "https://a.example.com", "");
    let other = add(&mut db, "b", "https://b.example.com", "");
    let token = token_of(&db, id);
    enroll(&mut db, &token, heartbeat_fixture(), "s1".into(), &now()).unwrap();
    heartbeat(&mut db, "uuid-a", heartbeat_fixture(), &now()).unwrap();
    set_expected_fingerprint(&mut db, other, Some(&fp64()), &now()).unwrap();
    change(&mut db, id, "a2", "https://a.example.com", 5, 5).unwrap();
    regenerate_enrollment(&mut db, id, "s2".into(), "again".into(), &now()).unwrap();
    add(&mut db, "c", "https://c.example.com", "");
    delete(&mut db, other).unwrap();
    for fingerprint in [String::new(), fp64()] {
        let mut hb = heartbeat_fixture();
        hb.tls_fingerprint = fingerprint;
        let err = enroll(&mut db, &token, hb, "s3".into(), &now()).unwrap_err();
        assert!(matches!(err, NodeError::Token));
    }
    assert_eq!(get(&db, id).unwrap().secret, "s2");
    enroll(&mut db, "again", heartbeat_fixture(), "s4".into(), &now()).unwrap();
    assert_eq!(get(&db, id).unwrap().secret, "s4");
}

#[test]
fn a_rotated_node_stays_cut_off_until_it_enrolls() {
    let mut db = Cluster::new();
    let id = add(&mut db, "a", "https://a.example.com", "");
    let other = add(&mut db, "b", "https://b.example.com", "");
    for (node, secret) in [(id, "s1"), (other, "s2")] {
        let token = token_of(&db, node);
        enroll(&mut db, &token, heartbeat_fixture(), secret.into(), &now()).unwrap();
    }
    rotate_secret(&mut db, id, "s3".into(), "again".into(), &now()).unwrap();
    for _ in 0..2 {
        let err = heartbeat(&mut db, "uuid-a", heartbeat_fixture(), &now()).unwrap_err();
        assert!(matches!(err, NodeError::NotEnrolled));
        assert!(!get(&db, id).unwrap().online(&now()));
        heartbeat(&mut db, "uuid-b", heartbeat_fixture(), &now()).unwrap();
        set_drain(&mut db, id, "soft".into(), "r".into(), None, &now()).unwrap();
        clear_drain(&mut db, id, &now()).unwrap();
    }
    enroll(&mut db, "again", heartbeat_fixture(), "s4".into(), &now()).unwrap();
    heartbeat(&mut db, "uuid-a", heartbeat_fixture(), &now()).unwrap();
    assert!(get(&db, id).unwrap().online(&now()));
}
