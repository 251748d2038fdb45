//! What placing a server comes to, and what is told of nodes.
use crate::nodes;
use crate::nodes::{Assignment, Cluster, Demand, Node, NodeEvent, Reservation};
use crate::text;
use crate::digest;
use vstd::prelude::*;
use vstd::string::*;

verus! {

/// Whether a node carries every tag that is asked for.
pub open spec fn carries_all(required: Seq<String>, tags: Seq<String>) -> bool {
    forall|k: int|
        0 <= k < required.len() ==> text::views(tags).contains((#[trigger] required[k])@)
}

/// Whether a node takes a server: it is up and takes servers, it is where and what
/// is asked for, and has room beyond what is claimed on it.
pub open spec fn takes(
    n: Node,
    online: bool,
    demand: Demand,
    rs: Seq<Reservation>,
    now: int,
) -> bool {
    &&& online && n.enabled && n.schedulable && !n.maintenance && n.drain_mode@ == Seq::<
        char,
    >::empty()
    &&& demand.location is Some && demand.location->0@.len() > 0 ==> n.location@
        == demand.location->0@
    &&& carries_all(demand.required_tags@, n.tags@)
    &&& n.memory_left() - nodes::reserved(rs, n.id, now).0 >= demand.memory_mb
    &&& n.disk_left() - nodes::reserved(rs, n.id, now).1 >= demand.disk_mb
}

proof fn lemma_takes(n: Node, online: bool, demand: Demand, rs: Seq<Reservation>, now: int)
    requires
        demand.memory_mb > i64::MIN,
        demand.disk_mb > i64::MIN,
    ensures
        nodes::eligible(n, online, demand, rs, now) == takes(n, online, demand, rs, now),
{
    if n.drain_mode@.len() == 0 {
        assert(n.drain_mode@ =~= Seq::<char>::empty());
    }
    let required = demand.required_tags@;
    if nodes::tagged(required, n.tags@) {
        assert forall|k: int| 0 <= k < required.len() implies text::views(n.tags@).contains(
            (#[trigger] required[k])@,
        ) by {
            assert(nodes::has_tag(n.tags@, required[k]@));
            let j = choose|j: int| 0 <= j < n.tags@.len() && (#[trigger] n.tags@[j])@ == required[k]@;
            assert(text::views(n.tags@)[j] == required[k]@);
        }
    }
    if carries_all(required, n.tags@) {
        assert forall|i: int| 0 <= i < required.len() implies nodes::has_tag(
            n.tags@,
            (#[trigger] required[i])@,
        ) by {
            let vs = text::views(n.tags@);
            let j = choose|j: int| 0 <= j < vs.len() && vs[j] == required[i]@;
            assert(n.tags@[j]@ == required[i]@);
        }
    }
}

/// The node that a server is placed on takes it: above all it carries every tag that
/// is asked for. No other that takes it has less load, and none before it as little.
pub proof fn law_server_is_placed_where_it_fits(
    db: Cluster,
    demand: Demand,
    online: Seq<bool>,
    loads: Seq<i64>,
    now: int,
    i: int,
    j: int,
)
    requires
        nodes::placed(db, demand, online, loads, now, i),
        demand.memory_mb > i64::MIN,
        demand.disk_mb > i64::MIN,
    ensures
        0 <= i < db.nodes@.len(),
        takes(db.nodes@[i], online[i], demand, db.reservations@, now),
        forall|k: int|
            0 <= k < demand.required_tags@.len() ==> text::views(db.nodes@[i].tags@).contains(
                (#[trigger] demand.required_tags@[k])@,
            ),
        0 <= j < db.nodes@.len() && takes(db.nodes@[j], online[j], demand, db.reservations@, now)
            ==> loads[i] <= loads[j] && (j < i ==> loads[i] < loads[j]),
{
    lemma_takes(db.nodes@[i], online[i], demand, db.reservations@, now);
    if 0 <= j < db.nodes@.len() {
        lemma_takes(db.nodes@[j], online[j], demand, db.reservations@, now);
    }
}

/// Where some node takes a server, it is not refused for want of room.
pub proof fn law_server_is_placed_where_some_node_takes_it(
    db: Cluster,
    demand: Demand,
    online: Seq<bool>,
    now: int,
    j: int,
)
    requires
        0 <= j < db.nodes@.len(),
        takes(db.nodes@[j], online[j], demand, db.reservations@, now),
        demand.memory_mb > i64::MIN,
        demand.disk_mb > i64::MIN,
    ensures
        !nodes::unplaceable(db, demand, online, now),
{
    lemma_takes(db.nodes@[j], online[j], demand, db.reservations@, now);
}

/// Asking for one tag more makes no node take a server, and neither does asking for
/// more memory or disk, or for a place.
pub proof fn law_asking_for_more_admits_no_node(
    n: Node,
    online: bool,
    demand: Demand,
    more: Demand,
    rs: Seq<Reservation>,
    now: int,
)
    requires
        nodes::eligible(n, online, more, rs, now),
        demand.memory_mb <= more.memory_mb,
        demand.disk_mb <= more.disk_mb,
        forall|k: int|
            0 <= k < demand.required_tags@.len() ==> more.required_tags@.contains(
                #[trigger] demand.required_tags@[k],
            ),
        demand.location is None || demand.location == more.location,
    ensures
        nodes::eligible(n, online, demand, rs, now),
{
    assert forall|k: int| 0 <= k < demand.required_tags@.len() implies nodes::has_tag(
        n.tags@,
        (#[trigger] demand.required_tags@[k])@,
    ) by {
        let i = choose|i: int|
            0 <= i < more.required_tags@.len() && more.required_tags@[i]
                == demand.required_tags@[k];
        assert(nodes::has_tag(n.tags@, more.required_tags@[i]@));
    }
}

/// A live claim on a node takes its memory and disk off it; a lapsed one, and one on
/// another node, takes nothing.
pub proof fn law_claims_take_capacity(rs: Seq<Reservation>, r: Reservation, node_id: i64, now: int)
    ensures
        nodes::reserved(Seq::empty(), node_id, now) == (0int, 0int),
        r.node_id == node_id && now < r.until ==> nodes::reserved(rs.push(r), node_id, now) == (
            nodes::reserved(rs, node_id, now).0 + r.memory_mb,
            nodes::reserved(rs, node_id, now).1 + r.disk_mb,
        ),
        r.node_id != node_id || r.until <= now ==> nodes::reserved(rs.push(r), node_id, now)
            == nodes::reserved(rs, node_id, now),
{
    assert(rs.push(r).drop_last() =~= rs);
}

/// What a node has left is its limit, or what it reports where it has none, raised by
/// the percentage that may be promised beyond it, less what is in use.
pub proof fn law_capacity_left(limit: int, total: int, over: int, used: int)
    requires
        0 <= limit <= 0x1_0000_0000_0000,
        0 <= total <= u64::MAX,
        0 <= over <= 10_000,
        0 <= used <= u64::MAX,
    ensures
        limit > 0 ==> nodes::available(limit, total, over, used) == limit * (100 + over) / 100
            - used / 1_048_576,
        limit == 0 ==> nodes::available(limit, total, over, used) == (total / 1_048_576) * (100
            + over) / 100 - used / 1_048_576,
        limit > 0 && over == 0 ==> nodes::available(limit, total, over, used) == limit - used
            / 1_048_576,
{
    let hard = if limit > 0 {
        limit
    } else {
        total / 1_048_576
    };
    assert(0 <= hard <= 0x1_0000_0000_0000);
    assert(0 <= hard * (100 + over) <= 0x1_0000_0000_0000 * 10_100) by (nonlinear_arith)
        requires
            0 <= hard <= 0x1_0000_0000_0000,
            0 <= over <= 10_000,
    ;
    if over == 0 {
        assert(hard * 100 / 100 == hard);
    }
}

/// What a node has left is told of its own limits and reports.
pub proof fn law_memory_and_disk_are_apart(n: Node)
    ensures
        n.memory_left() == nodes::available(
            n.memory_limit_mb as int,
            n.capacity.memory_total as int,
            n.memory_overallocate as int,
            n.capacity.memory_used as int,
        ),
        n.disk_left() == nodes::available(
            n.disk_limit_mb as int,
            n.capacity.disk_total as int,
            n.disk_overallocate as int,
            n.capacity.disk_used as int,
        ),
{
}

/// A node is online while its last heartbeat is younger than its window: three times
/// its cadence, from half a minute to a quarter of an hour, and 45 seconds before a
/// cadence is known. One that is disabled or not enrolled never is.
pub proof fn law_online_follows_the_heartbeat(n: Node, seen: (i64, u32), now: int)
    ensures
        n.online_given(Some(seen), now) ==> n.enabled && n.enrolled,
        !n.online_given(None, now),
        n.enabled && n.enrolled ==> n.online_given(Some(seen), now) == (now - (seen.0
            * 1_000_000_000 + seen.1) < 1_000_000_000 * nodes::window_of(n.cadence as int)),
        10 <= n.cadence <= 300 ==> nodes::window_of(n.cadence as int) == n.cadence * 3,
        1 <= n.cadence <= 10 ==> nodes::window_of(n.cadence as int) == 30,
        n.cadence >= 300 ==> nodes::window_of(n.cadence as int) == 900,
        n.cadence <= 0 ==> nodes::window_of(n.cadence as int) == 45,
{
}

/// The cadence is the whole seconds between two heartbeats, from five seconds to an
/// hour; any other gap teaches nothing.
pub proof fn law_cadence_is_the_gap(cadence: i64, seen: (i64, u32), gap: int, rest: int)
    requires
        0 <= rest < 1_000_000_000,
    ensures
        ({
            let now = seen.0 * 1_000_000_000 + seen.1 + gap * 1_000_000_000 + rest;
            nodes::learned(cadence, Some(seen), now) == if 5 <= gap <= 3600 {
                gap
            } else {
                cadence as int
            }
        }),
        nodes::learned(cadence, None, rest) == cadence,
{
    assert((gap * 1_000_000_000 + rest) / 1_000_000_000 == gap) by (nonlinear_arith)
        requires
            0 <= rest < 1_000_000_000,
    ;
}

/// Slashes at the end of a URL are dropped, all of them, and nothing else.
pub proof fn law_slashes_are_dropped(s: Seq<char>)
    ensures
        nodes::unslashed(s.push('/')) == nodes::unslashed(s),
        s.len() > 0 && s.last() != '/' ==> nodes::unslashed(s) == s,
        nodes::unslashed(Seq::empty()) == Seq::<char>::empty(),
{
    assert(s.push('/').drop_last() =~= s);
}

/// A node's URL is taken exactly where it is one of `http` or `https` with a host.
pub proof fn law_node_url(parses: bool, scheme: Seq<char>, hosted: bool)
    ensures
        nodes::url_verdict(parses, scheme, hosted) is None <==> parses && hosted && (scheme
            == "http"@ || scheme == "https"@),
{
}

/// A fingerprint is 64 hexadecimal digits; colons between them, white space around
/// them and capitals make no difference.
pub proof fn law_fingerprints_are_compared_bare(a: Seq<char>, m: Seq<char>, b: Seq<char>, i: int)
    requires
        crate::laws::rendering::blank(a),
        crate::laws::rendering::blank(b),
        m.len() > 0,
        !text::is_space(m[0]) && !text::is_space(m.last()),
    ensures
        nodes::normalized(a + m + b) == nodes::normalized(m),
        0 <= i < nodes::normalized(m).len() ==> nodes::normalized(m)[i] != ':'
            && !('A' <= nodes::normalized(m)[i] <= 'Z'),
        (forall|k: int| 0 <= k < m.len() ==> (#[trigger] m[k] != ':' && !('A' <= m[k] <= 'Z')))
            ==> nodes::normalized(m) == m,
{
    crate::laws::texts::law_trimming_takes_the_ends_off(a, m, b);
    let none = Seq::<char>::empty();
    assert(none + m + none =~= m);
    crate::laws::texts::law_trimming_takes_the_ends_off(none, m, none);
    let keep = |c: char| c != ':';
    let kept = m.filter(keep);
    if 0 <= i < nodes::normalized(m).len() {
        m.lemma_filter_pred(keep, i);
        assert(kept[i] != ':');
        assert(nodes::normalized(m)[i] == text::lower_char(kept[i]));
    }
    if forall|k: int| 0 <= k < m.len() ==> (#[trigger] m[k] != ':' && !('A' <= m[k] <= 'Z')) {
        lemma_kept_whole(m, keep);
        assert(nodes::normalized(m) =~= m);
    }
}

proof fn lemma_kept_whole(s: Seq<char>, keep: spec_fn(char) -> bool)
    requires
        forall|i: int| 0 <= i < s.len() ==> keep(#[trigger] s[i]),
    ensures
        s.filter(keep) == s,
    decreases s.len(),
{
    reveal(Seq::filter);
    if s.len() > 0 {
        let less = s.drop_last();
        assert forall|i: int| 0 <= i < less.len() implies keep(#[trigger] less[i]) by {
            assert(less[i] == s[i]);
        }
        lemma_kept_whole(less, keep);
        assert(keep(s[s.len() - 1]));
        assert(less.push(s.last()) =~= s);
    }
}

/// What is pinned is nothing, or 64 digits from 0 to f.
pub proof fn law_pins_are_digests(s: Seq<char>)
    ensures
        nodes::is_fingerprint(s) <==> s.len() == 64 && forall|i: int|
            0 <= i < 64 ==> ('0' <= #[trigger] s[i] <= '9' || 'a' <= s[i] <= 'f' || 'A' <= s[i]
                <= 'F'),
{
    if nodes::is_fingerprint(s) {
        assert forall|i: int| 0 <= i < 64 implies ('0' <= #[trigger] s[i] <= '9' || 'a' <= s[i]
            <= 'f' || 'A' <= s[i] <= 'F') by {
            assert(digest::hex_value(s[i]) is Some);
        }
    }
}

/// The servers on a node are those that are assigned to its name.
pub proof fn law_assigned_servers_are_counted(servers: Seq<Assignment>, s: Assignment, node: Seq<char>)
    ensures
        nodes::assigned(Seq::empty(), node) == 0,
        nodes::assigned(servers.push(s), node) == nodes::assigned(servers, node) + (if s.node@
            == node {
            1int
        } else {
            0int
        }),
{
    reveal(Seq::filter);
    assert(servers.push(s).drop_last() =~= servers);
}

/// A port is taken on a node exactly where a server that is assigned to it uses it.
pub proof fn law_ports_are_per_node(servers: Seq<Assignment>, s: Assignment, node: Seq<char>, port: i64)
    ensures
        !nodes::port_used(Seq::empty(), node, port),
        nodes::port_used(servers.push(s), node, port) == (nodes::port_used(servers, node, port)
            || (s.node@ == node && s.port == port)),
{
    let more = servers.push(s);
    if nodes::port_used(servers, node, port) {
        let i = choose|i: int|
            0 <= i < servers.len() && (#[trigger] servers[i]).node@ == node && servers[i].port
                == port;
        assert(more[i] == servers[i]);
    }
    if s.node@ == node && s.port == port {
        assert(more[servers.len() as int] == s);
    }
    if nodes::port_used(more, node, port) {
        let i = choose|i: int|
            0 <= i < more.len() && (#[trigger] more[i]).node@ == node && more[i].port == port;
        if i < servers.len() {
            assert(servers[i] == more[i]);
        }
    }
}

/// Events of a node come newest first: the last one recorded of it leads, those of
/// other nodes are passed over, and no more come than are asked for, one at least
/// and two hundred at most.
pub proof fn law_newest_event_leads(es: Seq<NodeEvent>, e: NodeEvent, node_id: i64, n: int)
    requires
        n > 0,
    ensures
        nodes::newest(Seq::empty(), node_id, n) == Seq::<int>::empty(),
        e.node_id == node_id ==> nodes::newest(es.push(e), node_id, n) == seq![es.len() as int]
            + nodes::newest(es, node_id, n - 1),
        e.node_id != node_id ==> nodes::newest(es.push(e), node_id, n) == nodes::newest(
            es,
            node_id,
            n,
        ),
        nodes::newest(es, node_id, 0) == Seq::<int>::empty(),
        1 <= n <= 200 ==> nodes::events_allowed(n) == n,
        n > 200 ==> nodes::events_allowed(n) == 200,
        nodes::events_allowed(-n) == 1,
        nodes::events_allowed(0) == 1,
{
    assert(es.push(e).drop_last() =~= es);
}

/// A drain is overdue where it has a deadline that is not after now.
pub proof fn law_overdue_drains(n: Node, now: Seq<char>)
    ensures
        nodes::overdue(now)(n) <==> n.drain_mode@.len() > 0 && n.drain_deadline is Some
            && text::lex_le(n.drain_deadline->0@, now),
{
}

} // verus!
