//! How a node joins, reports, is set aside and leaves.
use crate::json;
use crate::json::Doc;
use crate::laws::placement;
use crate::node_protocol::NodeHeartbeat;
use crate::nodes;
use crate::nodes::{Cluster, Demand, Moment, Node, NodeError, NodeEvent, Reservation};
use crate::services::pull;
use crate::text;
use vstd::prelude::*;
use vstd::string::*;

verus! {

/// What is looked for is found at its first place, and not found only where it is
/// nowhere.
pub proof fn law_first_is_found(ns: Seq<Node>, kind: spec_fn(Node) -> bool)
    ensures
        match nodes::found(ns, kind) {
            Some(i) => 0 <= i < ns.len() && kind(ns[i]) && forall|j: int|
                0 <= j < i ==> !kind(#[trigger] ns[j]),
            None => forall|j: int| 0 <= j < ns.len() ==> !kind(#[trigger] ns[j]),
        },
    decreases ns.len(),
{
    if ns.len() > 0 {
        let d = ns.drop_last();
        law_first_is_found(d, kind);
        match nodes::found(d, kind) {
            Some(i) => {
                assert(d[i] == ns[i]);
                assert forall|j: int| 0 <= j < i implies !kind(#[trigger] ns[j]) by {
                    assert(d[j] == ns[j]);
                }
            },
            None => {
                assert forall|j: int| 0 <= j < ns.len() - 1 implies !kind(#[trigger] ns[j]) by {
                    assert(d[j] == ns[j]);
                }
            },
        }
    }
}

/// A node is looked up by its number, its identity or its name, and a report counts
/// only from one that has joined.
pub proof fn law_look_ups(n: Node, id: i64, s: Seq<char>)
    ensures
        nodes::with_id(id)(n) <==> n.id == id,
        nodes::with_uuid(s)(n) <==> n.uuid@ == s,
        nodes::with_name(s)(n) <==> n.name@ == s,
        nodes::enrolled_with_uuid(s)(n) <==> n.enrolled && n.uuid@ == s,
{
}

/// A token lets a node in if and only if it is the node's own, the node has not
/// joined yet, and the certificate is one that was pinned for it, where one was.
pub proof fn law_token_lets_in(n: Node, token: Seq<char>, presented: Seq<char>)
    ensures
        nodes::opened_by(token, presented)(n) <==> {
            &&& n.enrollment_token is Some && n.enrollment_token->0@ == token
            &&& !n.enrolled
            &&& {
                ||| n.tls_fingerprint@.len() == 0 && n.expected_fingerprint@.len() == 0
                ||| presented.len() > 0 && n.tls_fingerprint@ == presented
                ||| presented.len() > 0 && n.expected_fingerprint@ == presented
            }
        },
{
}

/// A node that joins takes on what it reports, a new secret and its certificate,
/// and gives its token up. What its operator set stays.
pub proof fn law_joining(n: Node, m: Node, h: NodeHeartbeat, secret: String, now: Seq<char>)
    requires
        nodes::enrolled_as(n, m, h, secret, now),
    ensures
        m.enrolled && m.enrollment_token is None && m.secret == secret,
        m.daemon_version == h.daemon_version && m.hostname == h.hostname && m.os == h.os && m.arch
            == h.arch && m.capacity == h.capacity,
        m.last_heartbeat is Some && m.last_heartbeat->0@ == now && m.updated_at@ == now,
        m.last_error@.len() == 0,
        m.tls_fingerprint@ == nodes::normalized(h.tls_fingerprint@),
        m.id == n.id && m.uuid == n.uuid && m.name == n.name && m.public_url == n.public_url
            && m.location == n.location && m.tags == n.tags,
        m.enabled == n.enabled && m.schedulable == n.schedulable && m.maintenance == n.maintenance
            && m.drain_mode == n.drain_mode && m.expected_fingerprint == n.expected_fingerprint,
        m.memory_limit_mb == n.memory_limit_mb && m.disk_limit_mb == n.disk_limit_mb
            && m.memory_overallocate == n.memory_overallocate && m.disk_overallocate
            == n.disk_overallocate,
{
}

/// A node whose secret is replaced has to join again, with the new token. What its
/// operator set stays.
pub proof fn law_replacing_a_secret(n: Node, m: Node, secret: String, token: String, now: Seq<char>)
    requires
        nodes::rotated(n, m, secret, token, now),
    ensures
        !m.enrolled && m.enrollment_token == Some(token) && m.secret == secret,
        m.last_heartbeat is None && m.updated_at@ == now,
        m.id == n.id && m.uuid == n.uuid && m.name == n.name && m.public_url == n.public_url
            && m.location == n.location && m.tags == n.tags,
        m.enabled == n.enabled && m.schedulable == n.schedulable && m.maintenance == n.maintenance
            && m.drain_mode == n.drain_mode && m.drain_deadline == n.drain_deadline,
        m.tls_fingerprint == n.tls_fingerprint && m.expected_fingerprint == n.expected_fingerprint,
        m.capacity == n.capacity && m.cadence == n.cadence,
{
}

/// A report replaces what was reported before, and clears the last error. It changes
/// neither the pins, the secret, nor what the operator set.
pub proof fn law_reporting(n: Node, m: Node, h: NodeHeartbeat, seen: Option<(i64, u32)>, now: Moment)
    requires
        nodes::beaten(n, m, h, seen, now),
    ensures
        m.daemon_version == h.daemon_version && m.hostname == h.hostname && m.os == h.os && m.arch
            == h.arch && m.capacity == h.capacity,
        m.last_heartbeat is Some && m.last_heartbeat->0@ == now.text@ && m.updated_at@ == now.text@,
        m.last_error@.len() == 0,
        m.secret == n.secret && m.enrolled == n.enrolled && m.enrollment_token
            == n.enrollment_token && m.tls_fingerprint == n.tls_fingerprint
            && m.expected_fingerprint == n.expected_fingerprint,
        m.id == n.id && m.uuid == n.uuid && m.name == n.name && m.public_url == n.public_url
            && m.location == n.location && m.tags == n.tags,
        m.enabled == n.enabled && m.schedulable == n.schedulable && m.maintenance == n.maintenance
            && m.drain_mode == n.drain_mode && m.drain_deadline == n.drain_deadline,
        seen is None ==> m.cadence == n.cadence,
{
}

/// A report is taken from a node that has joined and from no other, and drops the
/// claims that have lapsed.
pub proof fn law_reports_are_taken(
    before: Cluster,
    after: Cluster,
    r: Result<(), NodeError>,
    uuid: Seq<char>,
    h: NodeHeartbeat,
    seen: Option<(i64, u32)>,
    now: Moment,
)
    requires
        nodes::beat(before, after, r, uuid, h, seen, now),
    ensures
        r is Ok <==> exists|i: int|
            0 <= i < before.nodes@.len() && (#[trigger] before.nodes@[i]).enrolled
                && before.nodes@[i].uuid@ == uuid,
        r is Err ==> r == Err::<(), NodeError>(NodeError::NotEnrolled) && after.nodes@
            == before.nodes@,
        after.nodes@.len() == before.nodes@.len(),
        forall|i: int|
            0 <= i < before.nodes@.len() && (#[trigger] before.nodes@[i]).uuid@ != uuid
                ==> after.nodes@[i] == before.nodes@[i],
        after.servers@ == before.servers@ && after.events@ == before.events@,
{
    let kind = nodes::enrolled_with_uuid(uuid);
    law_first_is_found(before.nodes@, kind);
    match nodes::found(before.nodes@, kind) {
        Some(i) => {
            assert(kind(before.nodes@[i]));
        },
        None => {
            if exists|i: int|
                0 <= i < before.nodes@.len() && (#[trigger] before.nodes@[i]).enrolled
                    && before.nodes@[i].uuid@ == uuid {
                let i = choose|i: int|
                    0 <= i < before.nodes@.len() && (#[trigger] before.nodes@[i]).enrolled
                        && before.nodes@[i].uuid@ == uuid;
                assert(!kind(before.nodes@[i]));
            }
        },
    }
}

/// A claim has lapsed when its time is over, is on a node by its number, and is
/// told from others by its own.
pub proof fn law_claims_are_told_apart(r: Reservation, id: i64, now: int)
    ensures
        nodes::unlapsed(now)(r) <==> now <= r.until,
        nodes::elsewhere(id)(r) <==> r.node_id != id,
        nodes::other_than(id)(r) <==> r.id != id,
{
}

/// A claim lasts for twice the time in which a node counts as online, and for two
/// minutes at the least.
pub proof fn law_claims_last(cadence: int)
    ensures
        2 * nodes::window_of(cadence) >= 120 ==> nodes::ttl_of(cadence) == 2 * nodes::window_of(
            cadence,
        ),
        2 * nodes::window_of(cadence) < 120 ==> nodes::ttl_of(cadence) == 120,
{
}

/// A claim that is made is for what was asked for, on the node that was picked, and
/// behind every claim that has not lapsed.
pub proof fn law_claims_are_made(
    before: Cluster,
    after: Cluster,
    r: Result<(usize, i64), NodeError>,
    demand: Demand,
    online: Seq<bool>,
    loads: Seq<i64>,
    now: int,
)
    requires
        nodes::claimed(before, after, r, demand, online, loads, now),
        demand.memory_mb > i64::MIN,
        demand.disk_mb > i64::MIN,
    ensures
        r is Ok ==> {
            let n = before.nodes@[(r->Ok_0).0 as int];
            let c = after.reservations@.last();
            &&& placement::takes(n, online[(r->Ok_0).0 as int], demand, before.reservations@, now)
            &&& after.reservations@.len() > 0 && c.id == (r->Ok_0).1 && c.node_id == n.id
                && c.memory_mb == demand.memory_mb && c.disk_mb == demand.disk_mb
            &&& c.until == now + nodes::ttl_of(n.cadence as int) * 1_000_000_000
            &&& after.next_reservation == before.next_reservation + 1 || before.next_reservation
                == i64::MAX
        },
        r is Err ==> forall|j: int|
            0 <= j < before.nodes@.len() ==> !placement::takes(
                #[trigger] before.nodes@[j],
                online[j],
                demand,
                before.reservations@,
                now,
            ),
        after.nodes@ == before.nodes@ && after.servers@ == before.servers@,
{
    if r is Ok {
        placement::law_server_is_placed_where_it_fits(
            before,
            demand,
            online,
            loads,
            now,
            (r->Ok_0).0 as int,
            0,
        );
    } else {
        assert forall|j: int| 0 <= j < before.nodes@.len() implies !placement::takes(
            #[trigger] before.nodes@[j],
            online[j],
            demand,
            before.reservations@,
            now,
        ) by {
            if placement::takes(
                before.nodes@[j],
                online[j],
                demand,
                before.reservations@,
                now,
            ) {
                placement::law_server_is_placed_where_some_node_takes_it(
                    before,
                    demand,
                    online,
                    now,
                    j,
                );
            }
        }
    }
}

/// A node that is new is enabled, takes servers, and has neither joined nor
/// reported.
pub proof fn law_new_nodes(
    n: Node,
    id: i64,
    uuid: String,
    name: String,
    url: Seq<char>,
    secret: String,
    token: String,
    location: String,
    tags: Vec<String>,
    now: Seq<char>,
)
    requires
        nodes::fresh_node(n, id, uuid, name, url, secret, token, location, tags, now),
    ensures
        n.id == id && n.uuid == uuid && n.name == name && n.public_url@ == url && n.secret == secret
            && n.enrollment_token == Some(token) && n.location == location && n.tags == tags,
        n.enabled && n.schedulable && !n.maintenance && !n.enrolled && n.drain_mode@.len() == 0,
        n.last_heartbeat is None && n.cadence == 0 && n.last_error@.len() == 0,
        n.memory_limit_mb == 0 && n.disk_limit_mb == 0 && n.memory_overallocate == 0
            && n.disk_overallocate == 0,
        n.capacity.memory_total == 0 && n.capacity.disk_total == 0 && n.capacity.servers_running
            == 0,
        n.tls_fingerprint@.len() == 0 && n.expected_fingerprint@.len() == 0,
        n.created_at@ == now && n.updated_at@ == now,
{
}

/// A drain takes a node out of service, with its mode, its reason and its deadline,
/// and lifting it puts the node back; neither touches anything else.
pub proof fn law_drains(
    n: Node,
    m: Node,
    k: Node,
    mode: String,
    reason: String,
    deadline: Option<String>,
    then: Seq<char>,
    now: Seq<char>,
)
    requires
        nodes::drained(n, m, mode, reason, deadline, then),
        nodes::lifted(m, k, now),
    ensures
        !m.schedulable && m.maintenance && m.drain_mode == mode && m.drain_reason == reason
            && m.drain_deadline == deadline && m.updated_at@ == then,
        k.schedulable && !k.maintenance && k.drain_mode@.len() == 0 && k.drain_reason@.len() == 0
            && k.drain_deadline is None && k.updated_at@ == now,
        m.enabled == n.enabled && m.enrolled == n.enrolled && m.secret == n.secret && m.id == n.id
            && m.capacity == n.capacity && m.last_heartbeat == n.last_heartbeat,
        k.enabled == n.enabled && k.enrolled == n.enrolled && k.secret == n.secret && k.id == n.id
            && k.capacity == n.capacity && k.last_heartbeat == n.last_heartbeat,
{
}

/// A change of one node leaves every other one, and all else, as it was.
pub proof fn law_one_node_changes(before: Cluster, after: Cluster, i: int, j: int)
    requires
        nodes::only_node(before, after, i),
        0 <= j < before.nodes@.len(),
        j != i,
    ensures
        after.nodes@.len() == before.nodes@.len(),
        after.nodes@[j] == before.nodes@[j],
        after.reservations == before.reservations && after.servers == before.servers
            && after.events == before.events && after.next_node == before.next_node
            && after.next_reservation == before.next_reservation && after.next_event
            == before.next_event,
{
}

/// Nobody joins and nobody leaves in a step that disturbs nothing.
pub proof fn law_undisturbed_nodes(before: Cluster, after: Cluster, i: int)
    requires
        nodes::undisturbed(before, after),
        0 <= i < before.nodes@.len(),
    ensures
        after.nodes@.len() == before.nodes@.len() && after.next_node == before.next_node,
        after.nodes@[i].id == before.nodes@[i].id && after.nodes@[i].uuid@ == before.nodes@[i].uuid@
            && after.nodes@[i].enrolled == before.nodes@[i].enrolled
            && after.nodes@[i].enrollment_token == before.nodes@[i].enrollment_token,
{
    assert(nodes::same_standing(before.nodes@[i], after.nodes@[i]));
}

/// Nodes are told apart by their numbers, their identities and their tokens, and a
/// number is not given out again.
pub proof fn law_nodes_are_told_apart(db: Cluster, i: int, j: int)
    requires
        nodes::distinct(db),
        0 <= i < j < db.nodes@.len(),
    ensures
        db.nodes@[i].id != db.nodes@[j].id,
        db.nodes@[i].uuid@ != db.nodes@[j].uuid@,
        db.nodes@[i].enrollment_token is Some && db.nodes@[j].enrollment_token is Some
            ==> db.nodes@[i].enrollment_token->0@ != db.nodes@[j].enrollment_token->0@,
        db.nodes@[i].id < db.next_node && db.nodes@[j].id < db.next_node,
{
    assert(nodes::apart(db.nodes@[i], db.nodes@[j]));
}

/// A fingerprint can be pinned if and only if there is none or it is a digest.
pub proof fn law_pins(raw: Seq<char>)
    ensures
        nodes::pinnable(raw) <==> nodes::normalized(raw).len() == 0 || nodes::is_fingerprint(
            nodes::normalized(raw),
        ),
{
}

/// The URL of a node is judged without the slashes at its end.
pub proof fn law_urls_of_nodes(url: Seq<char>)
    requires
        url.len() > 0,
        url.last() != '/',
    ensures
        nodes::public_url_fault(url.push('/')) == nodes::public_url_fault(url),
        nodes::public_url_fault(url) is None <==> pull::url_parsed(url) is Ok && (pull::url_scheme(
            url,
        ) == "http"@ || pull::url_scheme(url) == "https"@) && pull::url_host(url) is Some,
{
    placement::law_slashes_are_dropped(url);
}

/// Whether a node is online is told of every node, in order.
pub proof fn law_online_nodes(ns: Seq<Node>, now: int, i: int)
    requires
        0 <= i < ns.len(),
    ensures
        nodes::online_nodes(ns, now).len() == ns.len(),
        ns[i].last_heartbeat is None ==> !nodes::online_nodes(ns, now)[i],
        ns[i].last_heartbeat is Some ==> nodes::online_nodes(ns, now)[i] == ns[i].online_given(
            nodes::rfc3339_time(ns[i].last_heartbeat->0@),
            now,
        ),
{
}

/// When a drain runs out, the event tells which node it was and what the drain was.
pub proof fn law_event_of_a_drain(e: NodeEvent, id: int, n: Node, now: Seq<char>)
    requires
        nodes::is_drain_event(e, id, n, now),
    ensures
        e.id == id && e.node_id == n.id && e.kind@ == "drain_expired"@ && e.level@ == "info"@
            && e.created_at@ == now,
        json::text_member(e.payload@, "mode"@) == Some(n.drain_mode@),
        n.drain_deadline is Some ==> json::text_member(e.payload@, "deadline"@) == Some(
            n.drain_deadline->0@,
        ),
{
    reveal_strlit("mode");
    reveal_strlit("deadline");
    assert("mode"@[0] != "deadline"@[0]);
    let none = Seq::<(Seq<char>, Doc)>::empty();
    let mode = Doc::Text(n.drain_mode@);
    let one = json::with_member(none, "mode"@, mode);
    json::law_put_member_is_found(none, "mode"@, mode, "deadline"@);
    json::law_put_member_is_found(
        one,
        "deadline"@,
        json::optional_text(n.drain_deadline),
        "mode"@,
    );
}

} // verus!
