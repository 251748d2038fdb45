//! The nodes of a cluster: their enrollment, their capacity, where a new server
//! is placed, and how a node is drained.
use crate::digest;
use crate::json;
use crate::json::Json;
use crate::node_protocol;
use crate::node_protocol::{NodeCapacity, NodeHeartbeat};
use crate::order;
use crate::order::Ranked;
use crate::services::pull;
use crate::text;
use vstd::prelude::*;
use vstd::string::*;

verus! {

/// Seconds without a heartbeat after which a node of unknown cadence counts as
/// offline: three times the usual interval of a daemon.
pub const DEFAULT_ONLINE_WINDOW_SECS: i64 = 45;

/// Seconds that a capacity reservation lives at least.
pub const MIN_RESERVATION_TTL_SECS: i64 = 120;

/// Nanoseconds of a second.
pub const SECOND: i128 = 1_000_000_000;

/// Bytes of a mebibyte.
pub const MEBIBYTE: u64 = 1_048_576;

/// Why a request on the nodes was refused.
#[derive(Debug, Clone, Copy, PartialEq, Eq, Structural)]
pub enum NodeError {
    NotFound,
    NotEnrolled,
    InvalidUrl,
    UrlScheme,
    UrlHost,
    Fingerprint,
    Token,
    NegativeLimit,
    /// A rename that would orphan this many servers.
    Rename { assigned: usize },
    /// A removal while this many servers are assigned.
    Assigned { count: usize },
    NoCapacity,
}

impl NodeError {
    /// The error in words.
    pub open spec fn words(self) -> Seq<char> {
        match self {
            NodeError::NotFound => "node not found"@,
            NodeError::NotEnrolled => "node not enrolled"@,
            NodeError::InvalidUrl => "invalid node URL"@,
            NodeError::UrlScheme => "node URL must use http or https"@,
            NodeError::UrlHost => "node URL must include a host"@,
            NodeError::Fingerprint => "invalid TLS fingerprint: expected 64 hex characters"@,
            NodeError::Token => "invalid or used enrollment token"@,
            NodeError::NegativeLimit => "resource limits must not be negative"@,
            NodeError::Rename { assigned } => "cannot rename node: "@ + text::decimal(
                assigned as int,
            ) + " assigned server(s) would be orphaned"@,
            NodeError::Assigned { count } => "node has "@ + text::decimal(count as int)
                + " assigned server(s)"@,
            NodeError::NoCapacity =>
                "no online node has enough capacity (nodes in drain are never selected)"@,
        }
    }

    /// The error in words.
    pub fn message(&self) -> (r: String)
        ensures
            r@ == self.words(),
    {
        match self {
            NodeError::NotFound => text::copy_of("node not found"),
            NodeError::NotEnrolled => text::copy_of("node not enrolled"),
            NodeError::InvalidUrl => text::copy_of("invalid node URL"),
            NodeError::UrlScheme => text::copy_of("node URL must use http or https"),
            NodeError::UrlHost => text::copy_of("node URL must include a host"),
            NodeError::Fingerprint => text::copy_of(
                "invalid TLS fingerprint: expected 64 hex characters",
            ),
            NodeError::Token => text::copy_of("invalid or used enrollment token"),
            NodeError::NegativeLimit => text::copy_of("resource limits must not be negative"),
            NodeError::Rename { assigned } => {
                let mut out = text::copy_of("cannot rename node: ");
                out.append(text::string_of(text::decimal_u64(*assigned as u64).as_slice()).as_str());
                out.append(" assigned server(s) would be orphaned");
                out
            },
            NodeError::Assigned { count } => {
                let mut out = text::copy_of("node has ");
                out.append(text::string_of(text::decimal_u64(*count as u64).as_slice()).as_str());
                out.append(" assigned server(s)");
                out
            },
            NodeError::NoCapacity => text::copy_of(
                "no online node has enough capacity (nodes in drain are never selected)",
            ),
        }
    }
}

/// An instant, as RFC 3339 text and on the clock.
#[derive(Debug, Clone)]
pub struct Moment {
    pub text: String,
    /// Whole seconds since 1970.
    pub secs: i64,
    /// Nanoseconds beyond them.
    pub subsec: u32,
}

impl Moment {
    /// Nanoseconds since 1970.
    pub open spec fn nanos(self) -> int {
        self.secs * SECOND + self.subsec
    }

    /// Nanoseconds since 1970.
    pub fn to_nanos(&self) -> (r: i128)
        ensures
            r == self.nanos(),
    {
        (self.secs as i128) * SECOND + (self.subsec as i128)
    }
}

/// `chrono::Utc::now`: the present as RFC 3339 text, in seconds since 1970, which
/// are not negative, and in nanoseconds beyond them, less than a second. Nothing
/// more is claimed of what the clock shows.
#[verifier::external_body]
fn utc_now() -> (r: (String, i64, u32))
    ensures
        0 <= r.1,
        r.2 < 1_000_000_000,
{
    let t = chrono::Utc::now();
    (t.to_rfc3339(), t.timestamp(), t.timestamp_subsec_nanos())
}

/// The present.
pub fn now() -> (r: Moment)
    ensures
        0 <= r.secs,
        r.subsec < SECOND,
{
    let t = utc_now();
    Moment { text: t.0, secs: t.1, subsec: t.2 }
}

/// The instant that an RFC 3339 text tells: seconds since 1970, and nanoseconds
/// beyond them.
pub uninterp spec fn rfc3339_time(s: Seq<char>) -> Option<(i64, u32)>;

/// `chrono::DateTime::parse_from_rfc3339`: the instant that a text tells, as
/// seconds since 1970 and nanoseconds beyond them; none where it tells none.
#[verifier::external_body]
fn parse_rfc3339(s: &str) -> (r: Option<(i64, u32)>)
    ensures
        r == rfc3339_time(s@),
{
    chrono::DateTime::parse_from_rfc3339(s).ok().map(
        |t| (t.timestamp(), t.timestamp_subsec_nanos()),
    )
}

/// Seconds without a heartbeat after which a node counts as offline, given its
/// observed cadence in seconds: three times it, within bounds, and a fixed
/// window before any cadence is known.
pub open spec fn window_of(observed: int) -> int {
    if observed <= 0 {
        DEFAULT_ONLINE_WINDOW_SECS as int
    } else if observed * 3 < 30 {
        30
    } else if observed * 3 > 900 {
        900
    } else {
        observed * 3
    }
}

/// Seconds without a heartbeat after which a node counts as offline.
pub fn online_window_secs(observed: i64) -> (r: i64)
    ensures
        r == window_of(observed as int),
{
    if observed <= 0 {
        DEFAULT_ONLINE_WINDOW_SECS
    } else if observed < 10 {
        30
    } else if observed > 300 {
        900
    } else {
        observed * 3
    }
}

/// Seconds that a reservation on a node of this cadence lives: twice the online
/// window, and no less than the floor.
pub open spec fn ttl_of(observed: int) -> int {
    if 2 * window_of(observed) < MIN_RESERVATION_TTL_SECS {
        MIN_RESERVATION_TTL_SECS as int
    } else {
        2 * window_of(observed)
    }
}

/// Seconds that a reservation on a node of this cadence lives.
pub fn reservation_ttl_secs(observed: i64) -> (r: i64)
    ensures
        r == ttl_of(observed as int),
{
    let twice: i64 = online_window_secs(observed) * 2;
    if twice < MIN_RESERVATION_TTL_SECS {
        MIN_RESERVATION_TTL_SECS
    } else {
        twice
    }
}

/// A reservation outlives the time that a node may stay silent and still count
/// as online, twice over: the next capacity report comes before it lapses.
pub proof fn law_reservation_outlives_a_report(observed: int)
    ensures
        ttl_of(observed) >= 2 * window_of(observed),
        ttl_of(observed) >= MIN_RESERVATION_TTL_SECS,
        observed > 0 && observed <= 300 ==> ttl_of(observed) >= 6 * observed,
{
}

/// The nearest value of 64 bits.
pub open spec fn saturated(x: int) -> int {
    if x < i64::MIN {
        i64::MIN as int
    } else if x > i64::MAX {
        i64::MAX as int
    } else {
        x
    }
}

fn saturate(x: i128) -> (r: i64)
    ensures
        r == saturated(x as int),
{
    if x < i64::MIN as i128 {
        i64::MIN
    } else if x > i64::MAX as i128 {
        i64::MAX
    } else {
        x as i64
    }
}

/// A hundredth, rounded towards zero.
pub open spec fn hundredth(x: int) -> int {
    if x >= 0 {
        x / 100
    } else {
        -((-x) / 100)
    }
}

/// Mebibytes that remain for new servers: the operator's limit, or else what
/// the machine has, raised by the percentage that may be promised beyond it,
/// less what is in use.
pub open spec fn available(limit: int, total: int, overallocate: int, used: int) -> int {
    let hard = if limit > 0 {
        limit
    } else {
        total / MEBIBYTE as int
    };
    saturated(hundredth(saturated(hard * (100 + overallocate))) - used / MEBIBYTE as int)
}

fn available_of(limit: i64, total: u64, overallocate: i64, used: u64) -> (r: i64)
    requires
        overallocate <= i64::MAX - 100,
    ensures
        r == available(limit as int, total as int, overallocate as int, used as int),
{
    let hard: i64 = if limit > 0 {
        limit
    } else {
        (total / MEBIBYTE) as i64
    };
    let factor: i64 = 100 + overallocate;
    assert(-0x4000_0000_0000_0000_0000_0000_0000_0000 <= hard * factor
        <= 0x4000_0000_0000_0000_0000_0000_0000_0000) by (nonlinear_arith)
        requires
            -0x8000_0000_0000_0000 <= hard <= 0x7fff_ffff_ffff_ffff,
            -0x8000_0000_0000_0000 <= factor <= 0x7fff_ffff_ffff_ffff,
    ;
    let raised: i64 = saturate((hard as i128) * (factor as i128));
    let allowed: i128 = if raised >= 0 {
        (raised as i128) / 100
    } else {
        -((-(raised as i128)) / 100)
    };
    saturate(allowed - ((used / MEBIBYTE) as i128))
}

/// A node of the cluster.
#[derive(Debug)]
pub struct Node {
    pub id: i64,
    pub uuid: String,
    pub name: String,
    pub public_url: String,
    pub secret: String,
    pub enrollment_token: Option<String>,
    pub enrolled: bool,
    pub enabled: bool,
    pub maintenance: bool,
    pub schedulable: bool,
    pub location: String,
    pub tags: Vec<String>,
    pub memory_limit_mb: i64,
    pub disk_limit_mb: i64,
    pub cpu_limit_percent: i64,
    pub memory_overallocate: i64,
    pub disk_overallocate: i64,
    pub daemon_version: String,
    pub hostname: String,
    pub os: String,
    pub arch: String,
    pub capacity: NodeCapacity,
    pub last_heartbeat: Option<String>,
    pub last_error: String,
    pub created_at: String,
    pub updated_at: String,
    /// Fingerprint of the agent's certificate that was pinned at enrollment.
    /// Empty for an agent that speaks plain HTTP.
    pub tls_fingerprint: String,
    /// Fingerprint that the operator declared, and that an enrollment must
    /// present. Empty where none is declared.
    pub expected_fingerprint: String,
    /// Empty, `hold` or `stop`: whether the node is drained, and how.
    pub drain_mode: String,
    pub drain_reason: String,
    /// Instant from which the drain is lifted, as RFC 3339 text.
    pub drain_deadline: Option<String>,
    /// Seconds between the last two heartbeats, where plausible; 0 before any
    /// are known. Kept in memory alone.
    pub cadence: i64,
}

/// Whether a heartbeat seen then is fresh enough now.
pub open spec fn fresh(seen: Option<(i64, u32)>, now: int, window: int) -> bool {
    match seen {
        Some(t) => t.0 * SECOND + t.1 > now - window * SECOND,
        None => false,
    }
}

impl Node {
    /// Whether the node is online, given when its last heartbeat was seen.
    pub open spec fn online_given(self, seen: Option<(i64, u32)>, now: int) -> bool {
        self.enabled && self.enrolled && fresh(seen, now, window_of(self.cadence as int))
    }

    /// Whether the node is online.
    pub open spec fn is_online(self, now: int) -> bool {
        self.online_given(
            match self.last_heartbeat {
                Some(s) => rfc3339_time(s@),
                None => None,
            },
            now,
        )
    }

    /// Whether the node is online, given when its last heartbeat was seen, in
    /// seconds since 1970 and nanoseconds beyond them.
    pub fn online_since(&self, seen: Option<(i64, u32)>, now: &Moment) -> (r: bool)
        ensures
            r == self.online_given(seen, now.nanos()),
    {
        if !self.enabled || !self.enrolled {
            return false;
        }
        match seen {
            Some(t) => {
                let window: i64 = online_window_secs(self.cadence);
                let at: i128 = (t.0 as i128) * SECOND + (t.1 as i128);
                at + (window as i128) * SECOND > now.to_nanos()
            },
            None => false,
        }
    }

    /// Whether the node is enabled and enrolled, and its last heartbeat is no
    /// older than the window of its cadence.
    pub fn online(&self, now: &Moment) -> (r: bool)
        ensures
            r == self.is_online(now.nanos()),
    {
        match &self.last_heartbeat {
            Some(s) => self.online_since(parse_rfc3339(s.as_str()), now),
            None => self.online_since(None, now),
        }
    }

    /// Mebibytes of memory for new servers.
    pub open spec fn memory_left(self) -> int {
        available(
            self.memory_limit_mb as int,
            self.capacity.memory_total as int,
            self.memory_overallocate as int,
            self.capacity.memory_used as int,
        )
    }

    /// Mebibytes of disk for new servers.
    pub open spec fn disk_left(self) -> int {
        available(
            self.disk_limit_mb as int,
            self.capacity.disk_total as int,
            self.disk_overallocate as int,
            self.capacity.disk_used as int,
        )
    }

    /// Whether the percentages that may be promised beyond the limits can be
    /// added to a hundred.
    pub open spec fn countable(self) -> bool {
        self.memory_overallocate <= i64::MAX - 100 && self.disk_overallocate <= i64::MAX - 100
    }

    /// Mebibytes of memory for new servers.
    pub fn available_memory_mb(&self) -> (r: i64)
        requires
            self.memory_overallocate <= i64::MAX - 100,
        ensures
            r == self.memory_left(),
    {
        available_of(
            self.memory_limit_mb,
            self.capacity.memory_total,
            self.memory_overallocate,
            self.capacity.memory_used,
        )
    }

    /// Mebibytes of disk for new servers.
    pub fn available_disk_mb(&self) -> (r: i64)
        requires
            self.disk_overallocate <= i64::MAX - 100,
        ensures
            r == self.disk_left(),
    {
        available_of(
            self.disk_limit_mb,
            self.capacity.disk_total,
            self.disk_overallocate,
            self.capacity.disk_used,
        )
    }
}

/// A text without the slashes at its end.
pub open spec fn unslashed(s: Seq<char>) -> Seq<char>
    decreases s.len(),
{
    if s.len() > 0 && s.last() == '/' {
        unslashed(s.drop_last())
    } else {
        s
    }
}

/// A text without the slashes at its end.
pub fn trim_slashes(s: &str) -> (r: String)
    ensures
        r@ == unslashed(s@),
{
    let mut cs = text::chars_of(s);
    while cs.len() > 0 && cs[cs.len() - 1] == '/'
        invariant
            unslashed(cs@) == unslashed(s@),
        decreases cs.len(),
    {
        let ghost before = cs@;
        let _ = cs.pop();
        assert(cs@ == before.drop_last());
    }
    text::string_of(cs.as_slice())
}

/// Whether a node's URL is accepted, given whether it parses, its scheme and
/// its host; why not, otherwise.
pub open spec fn url_verdict(parses: bool, scheme: Seq<char>, hosted: bool) -> Option<NodeError> {
    if !parses {
        Some(NodeError::InvalidUrl)
    } else if scheme != "http"@ && scheme != "https"@ {
        Some(NodeError::UrlScheme)
    } else if !hosted {
        Some(NodeError::UrlHost)
    } else {
        None
    }
}

/// What is wrong with a node's URL, given whether it parses, its scheme and
/// whether it has a host.
pub fn judge_public_url(parses: bool, scheme: &str, hosted: bool) -> (r: Option<NodeError>)
    ensures
        r == url_verdict(parses, scheme@, hosted),
{
    if !parses {
        Some(NodeError::InvalidUrl)
    } else if !text::same(scheme, "http") && !text::same(scheme, "https") {
        Some(NodeError::UrlScheme)
    } else if !hosted {
        Some(NodeError::UrlHost)
    } else {
        None
    }
}

/// What is wrong with a node's URL.
pub open spec fn public_url_fault(raw: Seq<char>) -> Option<NodeError> {
    let url = unslashed(raw);
    url_verdict(pull::url_parsed(url) is Ok, pull::url_scheme(url), pull::url_host(url) is Some)
}

/// A node's URL as it is kept: without slashes at its end. It must be a URL of
/// `http` or `https` with a host.
pub fn validate_public_url(raw: &str) -> (r: Result<String, NodeError>)
    ensures
        match r {
            Ok(s) => public_url_fault(raw@) is None && s@ == unslashed(raw@),
            Err(e) => public_url_fault(raw@) == Some(e),
        },
{
    let url = trim_slashes(raw);
    let parses = pull::parse_url(url.as_str()).is_ok();
    let scheme = pull::scheme_of(url.as_str());
    let hosted = pull::host_of(url.as_str()).is_some();
    match judge_public_url(parses, scheme.as_str(), hosted) {
        Some(e) => Err(e),
        None => Ok(url),
    }
}

/// A fingerprint without white space around it and without colons, in small
/// letters.
pub open spec fn normalized(raw: Seq<char>) -> Seq<char> {
    text::lowered(text::trimmed(raw).filter(|c: char| c != ':'))
}

/// A fingerprint without white space around it and without colons, in small
/// letters.
pub fn normalize_fingerprint(raw: &str) -> (r: String)
    ensures
        r@ == normalized(raw@),
{
    let cs = text::chars_of(raw);
    let inner = text::trim(cs.as_slice());
    let mut kept: Vec<char> = Vec::new();
    let mut i: usize = 0;
    let ghost keep = |c: char| c != ':';
    while i < inner.len()
        invariant
            i <= inner.len(),
            keep == (|c: char| c != ':'),
            kept@ == inner@.take(i as int).filter(keep),
        decreases inner.len() - i,
    {
        proof {
            let upto = inner@.take(i + 1);
            assert(upto.drop_last() =~= inner@.take(i as int));
            reveal(Seq::filter);
        }
        if inner[i] != ':' {
            kept.push(inner[i]);
        }
        i += 1;
    }
    assert(inner@.take(inner@.len() as int) =~= inner@);
    let low = text::to_lower(kept.as_slice());
    text::string_of(low.as_slice())
}

/// Whether a text is the digest of a certificate: 64 hexadecimal digits.
pub open spec fn is_fingerprint(s: Seq<char>) -> bool {
    s.len() == 64 && forall|i: int| 0 <= i < s.len() ==> digest::hex_value(#[trigger] s[i]) is Some
}

/// Whether a presented fingerprint can be pinned: it is empty, or a digest.
pub open spec fn pinnable(raw: Seq<char>) -> bool {
    normalized(raw).len() == 0 || is_fingerprint(normalized(raw))
}

/// A presented fingerprint as it is pinned: empty, or 64 hexadecimal digits.
pub fn pinned_fingerprint(raw: &str) -> (r: Result<String, NodeError>)
    ensures
        match r {
            Ok(s) => pinnable(raw@) && s@ == normalized(raw@),
            Err(e) => !pinnable(raw@) && e == NodeError::Fingerprint,
        },
{
    let s = normalize_fingerprint(raw);
    let cs = text::chars_of(s.as_str());
    if cs.len() == 0 {
        return Ok(s);
    }
    if cs.len() != 64 {
        return Err(NodeError::Fingerprint);
    }
    let mut i: usize = 0;
    while i < cs.len()
        invariant
            i <= cs.len(),
            cs@ == normalized(raw@),
            cs.len() == 64,
            forall|j: int| 0 <= j < i ==> digest::hex_value(#[trigger] cs@[j]) is Some,
        decreases cs.len() - i,
    {
        let c = cs[i];
        let hex = ('0' <= c && c <= '9') || ('a' <= c && c <= 'f') || ('A' <= c && c <= 'F');
        if !hex {
            assert(digest::hex_value(cs@[i as int]) is None);
            return Err(NodeError::Fingerprint);
        }
        i += 1;
    }
    Ok(s)
}

/// Capacity claimed on a node for a server that is being created.
#[derive(Debug, Clone)]
pub struct Reservation {
    pub id: i64,
    pub node_id: i64,
    pub memory_mb: i64,
    pub disk_mb: i64,
    /// When the claim lapses, in nanoseconds since 1970.
    pub until: i128,
}

/// A live server: the name of its node, and its port.
#[derive(Debug, Clone)]
pub struct Assignment {
    pub node: String,
    pub port: i64,
}

/// Something that happened to a node.
#[derive(Debug)]
pub struct NodeEvent {
    pub id: i64,
    pub node_id: i64,
    pub level: String,
    pub kind: String,
    pub message: String,
    pub payload: Json,
    pub created_at: String,
}

/// What is kept of the nodes, with the live servers assigned to them.
#[derive(Debug)]
pub struct Cluster {
    pub nodes: Vec<Node>,
    pub reservations: Vec<Reservation>,
    pub servers: Vec<Assignment>,
    pub events: Vec<NodeEvent>,
    /// The ids that the next node, reservation and event get.
    pub next_node: i64,
    pub next_reservation: i64,
    pub next_event: i64,
}

impl Cluster {
    /// A cluster without nodes.
    pub fn new() -> (r: Cluster)
        ensures
            distinct(r),
            r.nodes@.len() == 0,
            r.reservations@.len() == 0,
            r.servers@.len() == 0,
            r.events@.len() == 0,
            r.next_node == 1 && r.next_reservation == 1 && r.next_event == 1,
    {
        Cluster {
            nodes: Vec::new(),
            reservations: Vec::new(),
            servers: Vec::new(),
            events: Vec::new(),
            next_node: 1,
            next_reservation: 1,
            next_event: 1,
        }
    }
}

/// Place of the first node of a kind.
pub open spec fn found(nodes: Seq<Node>, kind: spec_fn(Node) -> bool) -> Option<int>
    decreases nodes.len(),
{
    if nodes.len() == 0 {
        None
    } else {
        match found(nodes.drop_last(), kind) {
            Some(i) => Some(i),
            None => if kind(nodes.last()) {
                Some(nodes.len() - 1)
            } else {
                None
            },
        }
    }
}

proof fn lemma_found(nodes: Seq<Node>, kind: spec_fn(Node) -> bool, upto: int)
    requires
        0 <= upto <= nodes.len(),
        forall|j: int| 0 <= j < upto ==> !kind(#[trigger] nodes[j]),
        upto < nodes.len() ==> kind(nodes[upto]),
    ensures
        found(nodes, kind) == (if upto < nodes.len() {
            Some(upto)
        } else {
            None::<int>
        }),
    decreases nodes.len(),
{
    if nodes.len() > 0 {
        let init = nodes.drop_last();
        if upto < nodes.len() {
            if upto < init.len() {
                assert(init[upto] == nodes[upto]);
            }
            assert forall|j: int| 0 <= j < upto implies !kind(#[trigger] init[j]) by {
                assert(init[j] == nodes[j]);
            }
            lemma_found(init, kind, upto);
        } else {
            assert forall|j: int| 0 <= j < init.len() implies !kind(#[trigger] init[j]) by {
                assert(init[j] == nodes[j]);
            }
            assert(!kind(nodes[nodes.len() - 1]));
            lemma_found(init, kind, init.len() as int);
        }
    }
}

/// What is found is of the kind; where nothing is, no node is.
pub proof fn lemma_found_is(nodes: Seq<Node>, kind: spec_fn(Node) -> bool)
    ensures
        match found(nodes, kind) {
            Some(i) => 0 <= i < nodes.len() && kind(nodes[i]),
            None => forall|j: int| 0 <= j < nodes.len() ==> !kind(#[trigger] nodes[j]),
        },
    decreases nodes.len(),
{
    if nodes.len() > 0 {
        lemma_found_is(nodes.drop_last(), kind);
        if found(nodes, kind) is None {
            assert forall|j: int| 0 <= j < nodes.len() implies !kind(#[trigger] nodes[j]) by {
                if j < nodes.len() - 1 {
                    assert(nodes.drop_last()[j] == nodes[j]);
                }
            }
        }
    }
}

/// Nodes of this id.
pub open spec fn with_id(id: i64) -> spec_fn(Node) -> bool {
    |n: Node| n.id == id
}

/// Nodes of this uuid.
pub open spec fn with_uuid(uuid: Seq<char>) -> spec_fn(Node) -> bool {
    |n: Node| n.uuid@ == uuid
}

/// Nodes of this name.
pub open spec fn with_name(name: Seq<char>) -> spec_fn(Node) -> bool {
    |n: Node| n.name@ == name
}

/// Enrolled nodes of this uuid.
pub open spec fn enrolled_with_uuid(uuid: Seq<char>) -> spec_fn(Node) -> bool {
    |n: Node| n.enrolled && n.uuid@ == uuid
}

/// Whether a node may be enrolled by who presents this certificate: nothing is
/// pinned and nothing declared, or it is the pinned or the declared one.
pub open spec fn admits(n: Node, presented: Seq<char>) -> bool {
    ||| n.tls_fingerprint@.len() == 0 && n.expected_fingerprint@.len() == 0
    ||| n.tls_fingerprint@.len() > 0 && n.tls_fingerprint@ == presented
    ||| n.expected_fingerprint@.len() > 0 && n.expected_fingerprint@ == presented
}

/// Nodes that this token enrolls, with this certificate presented.
pub open spec fn opened_by(token: Seq<char>, presented: Seq<char>) -> spec_fn(Node) -> bool {
    |n: Node|
        n.enrollment_token is Some && n.enrollment_token->0@ == token && !n.enrolled && admits(
            n,
            presented,
        )
}

fn find_id(nodes: &Vec<Node>, id: i64) -> (r: Option<usize>)
    ensures
        match r {
            Some(i) => i < nodes@.len() && found(nodes@, with_id(id)) == Some(i as int),
            None => found(nodes@, with_id(id)) is None,
        },
{
    let mut i: usize = 0;
    while i < nodes.len()
        invariant
            i <= nodes.len(),
            forall|j: int| 0 <= j < i ==> !with_id(id)(#[trigger] nodes@[j]),
        decreases nodes.len() - i,
    {
        if nodes[i].id == id {
            proof {
                lemma_found(nodes@, with_id(id), i as int);
            }
            return Some(i);
        }
        i += 1;
    }
    proof {
        lemma_found(nodes@, with_id(id), i as int);
    }
    None
}

fn find_uuid(nodes: &Vec<Node>, uuid: &str) -> (r: Option<usize>)
    ensures
        match r {
            Some(i) => i < nodes@.len() && found(nodes@, with_uuid(uuid@)) == Some(i as int),
            None => found(nodes@, with_uuid(uuid@)) is None,
        },
{
    let mut i: usize = 0;
    while i < nodes.len()
        invariant
            i <= nodes.len(),
            forall|j: int| 0 <= j < i ==> !with_uuid(uuid@)(#[trigger] nodes@[j]),
        decreases nodes.len() - i,
    {
        if text::same(nodes[i].uuid.as_str(), uuid) {
            proof {
                lemma_found(nodes@, with_uuid(uuid@), i as int);
            }
            return Some(i);
        }
        i += 1;
    }
    proof {
        lemma_found(nodes@, with_uuid(uuid@), i as int);
    }
    None
}

fn find_name(nodes: &Vec<Node>, name: &str) -> (r: Option<usize>)
    ensures
        match r {
            Some(i) => i < nodes@.len() && found(nodes@, with_name(name@)) == Some(i as int),
            None => found(nodes@, with_name(name@)) is None,
        },
{
    let mut i: usize = 0;
    while i < nodes.len()
        invariant
            i <= nodes.len(),
            forall|j: int| 0 <= j < i ==> !with_name(name@)(#[trigger] nodes@[j]),
        decreases nodes.len() - i,
    {
        if text::same(nodes[i].name.as_str(), name) {
            proof {
                lemma_found(nodes@, with_name(name@), i as int);
            }
            return Some(i);
        }
        i += 1;
    }
    proof {
        lemma_found(nodes@, with_name(name@), i as int);
    }
    None
}

fn find_enrolled(nodes: &Vec<Node>, uuid: &str) -> (r: Option<usize>)
    ensures
        match r {
            Some(i) => i < nodes@.len() && nodes@[i as int].enrolled && found(
                nodes@,
                enrolled_with_uuid(uuid@),
            ) == Some(i as int),
            None => found(nodes@, enrolled_with_uuid(uuid@)) is None,
        },
{
    let mut i: usize = 0;
    while i < nodes.len()
        invariant
            i <= nodes.len(),
            forall|j: int| 0 <= j < i ==> !enrolled_with_uuid(uuid@)(#[trigger] nodes@[j]),
        decreases nodes.len() - i,
    {
        if nodes[i].enrolled && text::same(nodes[i].uuid.as_str(), uuid) {
            proof {
                lemma_found(nodes@, enrolled_with_uuid(uuid@), i as int);
            }
            return Some(i);
        }
        i += 1;
    }
    proof {
        lemma_found(nodes@, enrolled_with_uuid(uuid@), i as int);
    }
    None
}

fn admits_pin(n: &Node, presented: &str) -> (r: bool)
    ensures
        r == admits(*n, presented@),
{
    let pin = n.tls_fingerprint.as_str();
    let declared = n.expected_fingerprint.as_str();
    (pin.is_empty() && declared.is_empty()) || (!pin.is_empty() && text::same(pin, presented)) || (
    !declared.is_empty() && text::same(declared, presented))
}

fn find_opened(nodes: &Vec<Node>, token: &str, presented: &str) -> (r: Option<usize>)
    ensures
        match r {
            Some(i) => i < nodes@.len() && found(nodes@, opened_by(token@, presented@)) == Some(
                i as int,
            ),
            None => found(nodes@, opened_by(token@, presented@)) is None,
        },
{
    let mut i: usize = 0;
    while i < nodes.len()
        invariant
            i <= nodes.len(),
            forall|j: int| 0 <= j < i ==> !opened_by(token@, presented@)(#[trigger] nodes@[j]),
        decreases nodes.len() - i,
    {
        let held = match &nodes[i].enrollment_token {
            Some(t) => text::same(t.as_str(), token),
            None => false,
        };
        if held && !nodes[i].enrolled && admits_pin(&nodes[i], presented) {
            proof {
                lemma_found(nodes@, opened_by(token@, presented@), i as int);
            }
            return Some(i);
        }
        i += 1;
    }
    proof {
        lemma_found(nodes@, opened_by(token@, presented@), i as int);
    }
    None
}

/// The node of an id.
pub fn get(db: &Cluster, id: i64) -> (r: Result<&Node, NodeError>)
    ensures
        match found(db.nodes@, with_id(id)) {
            Some(i) => r == Ok::<&Node, NodeError>(&db.nodes@[i]),
            None => r == Err::<&Node, NodeError>(NodeError::NotFound),
        },
{
    match find_id(&db.nodes, id) {
        Some(i) => Ok(&db.nodes[i]),
        None => Err(NodeError::NotFound),
    }
}

/// The node of a uuid.
pub fn get_by_uuid<'a>(db: &'a Cluster, uuid: &str) -> (r: Result<&'a Node, NodeError>)
    ensures
        match found(db.nodes@, with_uuid(uuid@)) {
            Some(i) => r == Ok::<&Node, NodeError>(&db.nodes@[i]),
            None => r == Err::<&Node, NodeError>(NodeError::NotFound),
        },
{
    match find_uuid(&db.nodes, uuid) {
        Some(i) => Ok(&db.nodes[i]),
        None => Err(NodeError::NotFound),
    }
}

/// The node of a name.
pub fn get_by_name<'a>(db: &'a Cluster, name: &str) -> (r: Result<&'a Node, NodeError>)
    ensures
        match found(db.nodes@, with_name(name@)) {
            Some(i) => r == Ok::<&Node, NodeError>(&db.nodes@[i]),
            None => r == Err::<&Node, NodeError>(NodeError::NotFound),
        },
{
    match find_name(&db.nodes, name) {
        Some(i) => Ok(&db.nodes[i]),
        None => Err(NodeError::NotFound),
    }
}

/// Whether a change of the cluster touched one node alone.
pub open spec fn only_node(before: Cluster, after: Cluster, i: int) -> bool {
    &&& after == (Cluster { nodes: after.nodes, ..before })
    &&& 0 <= i < before.nodes@.len()
    &&& after.nodes@ == before.nodes@.update(i, after.nodes@[i])
}

/// Whether no node waits for this enrollment token.
pub open spec fn unheld(nodes: Seq<Node>, token: Seq<char>) -> bool {
    forall|i: int|
        0 <= i < nodes.len() && (#[trigger] nodes[i]).enrollment_token is Some
            ==> nodes[i].enrollment_token->0@ != token
}

/// Whether no node of this uuid is enrolled.
pub open spec fn detached(nodes: Seq<Node>, uuid: Seq<char>) -> bool {
    forall|i: int| 0 <= i < nodes.len() && (#[trigger] nodes[i]).uuid@ == uuid ==> !nodes[i].enrolled
}

/// Whether no two nodes share an id, a uuid or an enrollment token, and the next
/// node gets an id that none has.
pub open spec fn distinct(db: Cluster) -> bool {
    &&& forall|i: int| 0 <= i < db.nodes@.len() ==> (#[trigger] db.nodes@[i]).id < db.next_node
    &&& forall|i: int, j: int|
        0 <= i < j < db.nodes@.len() ==> apart(#[trigger] db.nodes@[i], #[trigger] db.nodes@[j])
}

/// Whether two nodes share no id, no uuid and no enrollment token.
pub open spec fn apart(a: Node, b: Node) -> bool {
    &&& a.id != b.id
    &&& a.uuid@ != b.uuid@
    &&& a.enrollment_token is Some && b.enrollment_token is Some ==> a.enrollment_token->0@
        != b.enrollment_token->0@
}

/// Whether a change of the cluster left every node its identity, its enrollment
/// and its enrollment token, and brought none and took none away.
pub open spec fn undisturbed(before: Cluster, after: Cluster) -> bool {
    &&& after.next_node == before.next_node
    &&& after.nodes@.len() == before.nodes@.len()
    &&& forall|i: int|
        0 <= i < before.nodes@.len() ==> same_standing(before.nodes@[i], #[trigger] after.nodes@[i])
}

/// Whether a node kept its identity, its enrollment and its enrollment token.
pub open spec fn same_standing(n: Node, m: Node) -> bool {
    &&& m.id == n.id
    &&& m.uuid@ == n.uuid@
    &&& m.enrolled == n.enrolled
    &&& m.enrollment_token == n.enrollment_token
}

/// Whether a change of the cluster brought back no enrollment token but the minted
/// one, and enrolled no node but the joined one, told by its uuid.
pub open spec fn carries(
    before: Cluster,
    after: Cluster,
    minted: Option<Seq<char>>,
    joined: Option<Seq<char>>,
) -> bool {
    &&& forall|token: Seq<char>|
        unheld(before.nodes@, token) && minted != Some(token) ==> #[trigger] unheld(
            after.nodes@,
            token,
        )
    &&& forall|uuid: Seq<char>|
        detached(before.nodes@, uuid) && joined != Some(uuid) ==> #[trigger] detached(
            after.nodes@,
            uuid,
        )
}

/// A node whose drain was lifted.
pub open spec fn lifted(n: Node, m: Node, now: Seq<char>) -> bool {
    &&& m == (Node {
        schedulable: true,
        maintenance: false,
        drain_mode: m.drain_mode,
        drain_reason: m.drain_reason,
        drain_deadline: None,
        updated_at: m.updated_at,
        ..n
    })
    &&& m.drain_mode@.len() == 0
    &&& m.drain_reason@.len() == 0
    &&& m.updated_at@ == now
}

/// Lifts a drain and lets servers be placed on the node again. A node that is not
/// being drained stays as it is.
pub fn clear_drain(db: &mut Cluster, id: i64, now: &Moment) -> (r: Result<(), NodeError>)
    ensures
        undisturbed(*old(db), *final(db)),
        match found(old(db).nodes@, with_id(id)) {
            Some(i) => r is Ok && if old(db).nodes@[i].drain_mode@.len() == 0 {
                *final(db) == *old(db)
            } else {
                only_node(*old(db), *final(db), i) && lifted(
                    old(db).nodes@[i],
                    final(db).nodes@[i],
                    now.text@,
                )
            },
            None => r == Err::<(), NodeError>(NodeError::NotFound) && *final(db) == *old(db),
        },
{
    let i: usize = match find_id(&db.nodes, id) {
        Some(i) => i,
        None => return Err(NodeError::NotFound),
    };
    if db.nodes[i].drain_mode.as_str().is_empty() {
        return Ok(());
    }
    let n = &mut db.nodes[i];
    n.schedulable = true;
    n.maintenance = false;
    n.drain_mode = String::new();
    n.drain_reason = String::new();
    n.drain_deadline = None;
    n.updated_at = text::copy_of(now.text.as_str());
    Ok(())
}

/// Live servers on the node of a name.
pub open spec fn assigned(servers: Seq<Assignment>, node: Seq<char>) -> nat {
    servers.filter(|s: Assignment| s.node@ == node).len()
}

/// Number of live servers assigned to the node of a name.
pub fn server_count(db: &Cluster, node_name: &str) -> (r: usize)
    ensures
        r == assigned(db.servers@, node_name@),
{
    let ghost kind = |s: Assignment| s.node@ == node_name@;
    let mut count: usize = 0;
    let mut i: usize = 0;
    while i < db.servers.len()
        invariant
            i <= db.servers.len(),
            count <= i,
            kind == (|s: Assignment| s.node@ == node_name@),
            count == db.servers@.take(i as int).filter(kind).len(),
        decreases db.servers.len() - i,
    {
        proof {
            assert(db.servers@.take(i + 1).drop_last() =~= db.servers@.take(i as int));
            reveal(Seq::filter);
        }
        if text::same(db.servers[i].node.as_str(), node_name) {
            count += 1;
        }
        i += 1;
    }
    assert(db.servers@.take(db.servers@.len() as int) =~= db.servers@);
    count
}

/// Whether a live server on the node of a name uses a port.
pub open spec fn port_used(servers: Seq<Assignment>, node: Seq<char>, port: i64) -> bool {
    exists|i: int|
        0 <= i < servers.len() && (#[trigger] servers[i]).node@ == node && servers[i].port == port
}

/// Whether no live server on the node of a name uses a port.
pub fn port_available_on_node(db: &Cluster, node: &str, port: i64) -> (r: bool)
    ensures
        r == !port_used(db.servers@, node@, port),
{
    let mut i: usize = 0;
    while i < db.servers.len()
        invariant
            i <= db.servers.len(),
            forall|j: int|
                0 <= j < i ==> !((#[trigger] db.servers@[j]).node@ == node@ && db.servers@[j].port
                    == port),
        decreases db.servers.len() - i,
    {
        if db.servers[i].port == port && text::same(db.servers[i].node.as_str(), node) {
            assert(db.servers@[i as int].node@ == node@);
            return false;
        }
        i += 1;
    }
    true
}

/// A node that was put in drain.
pub open spec fn drained(
    n: Node,
    m: Node,
    mode: String,
    reason: String,
    deadline: Option<String>,
    now: Seq<char>,
) -> bool {
    &&& m == (Node {
        schedulable: false,
        maintenance: true,
        drain_mode: mode,
        drain_reason: reason,
        drain_deadline: deadline,
        updated_at: m.updated_at,
        ..n
    })
    &&& m.updated_at@ == now
}

/// Cordons a node and records why, and until when at most. Returns the number of
/// live servers that are affected.
pub fn set_drain(
    db: &mut Cluster,
    id: i64,
    mode: String,
    reason: String,
    deadline: Option<String>,
    now: &Moment,
) -> (r: Result<usize, NodeError>)
    ensures
        undisturbed(*old(db), *final(db)),
        match found(old(db).nodes@, with_id(id)) {
            Some(i) => {
                &&& only_node(*old(db), *final(db), i)
                &&& drained(
                    old(db).nodes@[i],
                    final(db).nodes@[i],
                    mode,
                    reason,
                    deadline,
                    now.text@,
                )
                &&& r == Ok::<usize, NodeError>(
                    assigned(old(db).servers@, old(db).nodes@[i].name@) as usize,
                )
                &&& assigned(old(db).servers@, old(db).nodes@[i].name@) <= usize::MAX
            },
            None => r == Err::<usize, NodeError>(NodeError::NotFound) && *final(db) == *old(db),
        },
{
    let i: usize = match find_id(&db.nodes, id) {
        Some(i) => i,
        None => return Err(NodeError::NotFound),
    };
    let affected: usize = server_count(db, db.nodes[i].name.as_str());
    let n = &mut db.nodes[i];
    n.schedulable = false;
    n.maintenance = true;
    n.drain_mode = mode;
    n.drain_reason = reason;
    n.drain_deadline = deadline;
    n.updated_at = text::copy_of(now.text.as_str());
    Ok(affected)
}

/// A node as it is created.
pub open spec fn fresh_node(
    n: Node,
    id: i64,
    uuid: String,
    name: String,
    url: Seq<char>,
    secret: String,
    token: String,
    location: String,
    tags: Vec<String>,
    now: Seq<char>,
) -> bool {
    &&& n.id == id && n.uuid == uuid && n.name == name && n.public_url@ == url
    &&& n.secret == secret && n.enrollment_token == Some(token)
    &&& !n.enrolled && n.enabled && !n.maintenance && n.schedulable
    &&& n.location == location && n.tags == tags
    &&& n.memory_limit_mb == 0 && n.disk_limit_mb == 0 && n.cpu_limit_percent == 0
    &&& n.memory_overallocate == 0 && n.disk_overallocate == 0
    &&& n.daemon_version@.len() == 0 && n.hostname@.len() == 0 && n.os@.len() == 0
    &&& n.arch@.len() == 0
    &&& n.capacity == no_capacity()
    &&& n.last_heartbeat is None && n.last_error@.len() == 0
    &&& n.created_at@ == now && n.updated_at@ == now
    &&& n.tls_fingerprint@.len() == 0 && n.expected_fingerprint@.len() == 0
    &&& n.drain_mode@.len() == 0 && n.drain_reason@.len() == 0 && n.drain_deadline is None
    &&& n.cadence == 0
}

/// The capacity of a node that has reported none.
pub open spec fn no_capacity() -> NodeCapacity {
    NodeCapacity {
        memory_total: 0,
        memory_used: 0,
        disk_total: 0,
        disk_used: 0,
        cpu_threads: 0,
        servers_running: 0,
        servers_total: 0,
    }
}

/// Adds a node under an identity, with a secret and an enrollment token that
/// were minted for it. It is not enrolled yet.
pub fn create_as(
    db: &mut Cluster,
    name: String,
    public_url: &str,
    location: String,
    tags: Vec<String>,
    uuid: String,
    secret: String,
    token: String,
    now: &Moment,
) -> (r: Result<i64, NodeError>)
    requires
        old(db).next_node < i64::MAX,
    ensures
        carries(*old(db), *final(db), Some(token@), None),
        distinct(*old(db)) && unheld(old(db).nodes@, token@) && found(
            old(db).nodes@,
            with_uuid(uuid@),
        ) is None ==> distinct(*final(db)),
        match public_url_fault(public_url@) {
            Some(e) => r == Err::<i64, NodeError>(e) && *final(db) == *old(db),
            None => {
                &&& r == Ok::<i64, NodeError>(old(db).next_node)
                &&& *final(db) == (Cluster {
                    nodes: final(db).nodes,
                    next_node: (old(db).next_node + 1) as i64,
                    ..*old(db)
                })
                &&& final(db).nodes@ == old(db).nodes@.push(final(db).nodes@.last())
                &&& fresh_node(
                    final(db).nodes@.last(),
                    old(db).next_node,
                    uuid,
                    name,
                    unslashed(public_url@),
                    secret,
                    token,
                    location,
                    tags,
                    now.text@,
                )
            },
        },
{
    let url = match validate_public_url(public_url) {
        Ok(u) => u,
        Err(e) => return Err(e),
    };
    proof {
        lemma_found_is(db.nodes@, with_uuid(uuid@));
    }
    let ghost told = uuid@;
    let id: i64 = db.next_node;
    db.next_node = id + 1;
    db.nodes.push(
        Node {
            id,
            uuid,
            name,
            public_url: url,
            secret,
            enrollment_token: Some(token),
            enrolled: false,
            enabled: true,
            maintenance: false,
            schedulable: true,
            location,
            tags,
            memory_limit_mb: 0,
            disk_limit_mb: 0,
            cpu_limit_percent: 0,
            memory_overallocate: 0,
            disk_overallocate: 0,
            daemon_version: String::new(),
            hostname: String::new(),
            os: String::new(),
            arch: String::new(),
            capacity: NodeCapacity {
                memory_total: 0,
                memory_used: 0,
                disk_total: 0,
                disk_used: 0,
                cpu_threads: 0,
                servers_running: 0,
                servers_total: 0,
            },
            last_heartbeat: None,
            last_error: String::new(),
            created_at: text::copy_of(now.text.as_str()),
            updated_at: text::copy_of(now.text.as_str()),
            tls_fingerprint: String::new(),
            expected_fingerprint: String::new(),
            drain_mode: String::new(),
            drain_reason: String::new(),
            drain_deadline: None,
            cadence: 0,
        },
    );
    proof {
        if found(old(db).nodes@, with_uuid(told)) is None {
            assert forall|j: int| 0 <= j < old(db).nodes@.len() implies (
            #[trigger] old(db).nodes@[j]).uuid@ != told by {
                assert(!with_uuid(told)(old(db).nodes@[j]));
            }
        }
    }
    Ok(id)
}

/// Adds a node under a new identity, with a secret and an enrollment token that
/// were minted for it. It is not enrolled yet.
pub fn create(
    db: &mut Cluster,
    name: String,
    public_url: &str,
    location: String,
    tags: Vec<String>,
    secret: String,
    token: String,
    now: &Moment,
) -> (r: Result<i64, NodeError>)
    requires
        old(db).next_node < i64::MAX,
    ensures
        carries(*old(db), *final(db), Some(token@), None),
        r is Ok && distinct(*old(db)) && unheld(old(db).nodes@, token@) && found(
            old(db).nodes@,
            with_uuid(final(db).nodes@.last().uuid@),
        ) is None ==> distinct(*final(db)),
        match public_url_fault(public_url@) {
            Some(e) => r == Err::<i64, NodeError>(e) && *final(db) == *old(db),
            None => {
                &&& r == Ok::<i64, NodeError>(old(db).next_node)
                &&& *final(db) == (Cluster {
                    nodes: final(db).nodes,
                    next_node: (old(db).next_node + 1) as i64,
                    ..*old(db)
                })
                &&& final(db).nodes@ == old(db).nodes@.push(final(db).nodes@.last())
                &&& node_protocol::is_hyphenated(final(db).nodes@.last().uuid@)
                &&& node_protocol::uuid_text(final(db).nodes@.last().uuid@)
                &&& fresh_node(
                    final(db).nodes@.last(),
                    old(db).next_node,
                    final(db).nodes@.last().uuid,
                    name,
                    unslashed(public_url@),
                    secret,
                    token,
                    location,
                    tags,
                    now.text@,
                )
            },
        },
{
    let uuid = node_protocol::fresh_uuid();
    create_as(db, name, public_url, location, tags, uuid, secret, token, now)
}

/// A node that was enrolled by this heartbeat, under a new secret.
pub open spec fn enrolled_as(
    n: Node,
    m: Node,
    heartbeat: NodeHeartbeat,
    secret: String,
    now: Seq<char>,
) -> bool {
    &&& m == (Node {
        enrolled: true,
        enrollment_token: None,
        secret,
        daemon_version: heartbeat.daemon_version,
        hostname: heartbeat.hostname,
        os: heartbeat.os,
        arch: heartbeat.arch,
        capacity: heartbeat.capacity,
        last_heartbeat: m.last_heartbeat,
        last_error: m.last_error,
        tls_fingerprint: m.tls_fingerprint,
        updated_at: m.updated_at,
        ..n
    })
    &&& m.last_heartbeat is Some && m.last_heartbeat->0@ == now
    &&& m.last_error@.len() == 0
    &&& m.tls_fingerprint@ == normalized(heartbeat.tls_fingerprint@)
    &&& m.updated_at@ == now
}

/// Enrolls the node of a token under a newly minted secret, and returns its
/// place. A token works once, and only for a certificate that the node admits;
/// what is refused changes nothing.
pub fn enroll(
    db: &mut Cluster,
    token: &str,
    heartbeat: NodeHeartbeat,
    secret: String,
    now: &Moment,
) -> (r: Result<usize, NodeError>)
    ensures
        carries(
            *old(db),
            *final(db),
            None,
            if r is Ok {
                Some(old(db).nodes@[r->Ok_0 as int].uuid@)
            } else {
                None
            },
        ),
        distinct(*old(db)) ==> distinct(*final(db)),
        distinct(*old(db)) && r is Ok ==> unheld(final(db).nodes@, token@),
        unheld(old(db).nodes@, token@) ==> r is Err && *final(db) == *old(db),
        !pinnable(heartbeat.tls_fingerprint@) ==> r == Err::<usize, NodeError>(
            NodeError::Fingerprint,
        ) && *final(db) == *old(db),
        pinnable(heartbeat.tls_fingerprint@) ==> match found(
            old(db).nodes@,
            opened_by(token@, normalized(heartbeat.tls_fingerprint@)),
        ) {
            Some(i) => r is Ok && r->Ok_0 == i && only_node(*old(db), *final(db), i) && enrolled_as(
                old(db).nodes@[i],
                final(db).nodes@[i],
                heartbeat,
                secret,
                now.text@,
            ),
            None => r == Err::<usize, NodeError>(NodeError::Token) && *final(db) == *old(db),
        },
{
    let pin = match pinned_fingerprint(heartbeat.tls_fingerprint.as_str()) {
        Ok(p) => p,
        Err(e) => return Err(e),
    };
    let i: usize = match find_opened(&db.nodes, token, pin.as_str()) {
        Some(i) => i,
        None => return Err(NodeError::Token),
    };
    proof {
        lemma_found_is(db.nodes@, opened_by(token@, pin@));
    }
    let n = &mut db.nodes[i];
    n.enrolled = true;
    n.enrollment_token = None;
    n.secret = secret;
    n.daemon_version = heartbeat.daemon_version;
    n.hostname = heartbeat.hostname;
    n.os = heartbeat.os;
    n.arch = heartbeat.arch;
    n.capacity = heartbeat.capacity;
    n.last_heartbeat = Some(text::copy_of(now.text.as_str()));
    n.last_error = String::new();
    n.tls_fingerprint = pin;
    n.updated_at = text::copy_of(now.text.as_str());
    Ok(i)
}

/// Declares the certificate that an enrollment of the node must present; an
/// empty or absent one takes the declaration back.
pub fn set_expected_fingerprint(
    db: &mut Cluster,
    id: i64,
    expected_fingerprint: Option<&str>,
    now: &Moment,
) -> (r: Result<(), NodeError>)
    ensures
        undisturbed(*old(db), *final(db)),
        ({
            let raw = match expected_fingerprint {
                Some(s) => s@,
                None => Seq::<char>::empty(),
            };
            if !pinnable(raw) {
                r == Err::<(), NodeError>(NodeError::Fingerprint) && *final(db) == *old(db)
            } else {
                match found(old(db).nodes@, with_id(id)) {
                    Some(i) => {
                        let n = old(db).nodes@[i];
                        let m = final(db).nodes@[i];
                        &&& r is Ok
                        &&& only_node(*old(db), *final(db), i)
                        &&& m == (Node {
                            expected_fingerprint: m.expected_fingerprint,
                            updated_at: m.updated_at,
                            ..n
                        })
                        &&& m.expected_fingerprint@ == normalized(raw)
                        &&& m.updated_at@ == now.text@
                    },
                    None => r == Err::<(), NodeError>(NodeError::NotFound) && *final(db) == *old(
                        db,
                    ),
                }
            }
        }),
{
    let raw = match expected_fingerprint {
        Some(s) => s,
        None => "",
    };
    proof {
        reveal_strlit("");
    }
    assert(expected_fingerprint is None ==> raw@ =~= Seq::<char>::empty());
    let pin = match pinned_fingerprint(raw) {
        Ok(p) => p,
        Err(e) => return Err(e),
    };
    let i: usize = match find_id(&db.nodes, id) {
        Some(i) => i,
        None => return Err(NodeError::NotFound),
    };
    let n = &mut db.nodes[i];
    n.expected_fingerprint = pin;
    n.updated_at = text::copy_of(now.text.as_str());
    Ok(())
}

/// A node that got a new secret and a new enrollment token, and counts as not
/// enrolled until that is used. What was pinned and declared stays.
pub open spec fn rotated(n: Node, m: Node, secret: String, token: String, now: Seq<char>) -> bool {
    &&& m == (Node {
        secret,
        enrollment_token: Some(token),
        enrolled: false,
        last_heartbeat: None,
        updated_at: m.updated_at,
        ..n
    })
    &&& m.updated_at@ == now
}

/// Gives a node a newly minted secret and enrollment token, and detaches it until
/// it enrolls again.
pub fn rotate_secret(
    db: &mut Cluster,
    id: i64,
    secret: String,
    token: String,
    now: &Moment,
) -> (r: Result<(), NodeError>)
    ensures
        carries(*old(db), *final(db), Some(token@), None),
        distinct(*old(db)) && unheld(old(db).nodes@, token@) ==> distinct(*final(db)),
        distinct(*old(db)) && r is Ok ==> detached(
            final(db).nodes@,
            old(db).nodes@[found(old(db).nodes@, with_id(id))->0].uuid@,
        ),
        match found(old(db).nodes@, with_id(id)) {
            Some(i) => r is Ok && only_node(*old(db), *final(db), i) && rotated(
                old(db).nodes@[i],
                final(db).nodes@[i],
                secret,
                token,
                now.text@,
            ),
            None => r == Err::<(), NodeError>(NodeError::NotFound) && *final(db) == *old(db),
        },
{
    let i: usize = match find_id(&db.nodes, id) {
        Some(i) => i,
        None => return Err(NodeError::NotFound),
    };
    let n = &mut db.nodes[i];
    n.secret = secret;
    n.enrollment_token = Some(token);
    n.enrolled = false;
    n.last_heartbeat = None;
    n.updated_at = text::copy_of(now.text.as_str());
    Ok(())
}

/// Gives a node a new enrollment token, and with it a new secret: the old one is
/// dead as soon as the token is minted. Returns the token.
pub fn regenerate_enrollment(
    db: &mut Cluster,
    id: i64,
    secret: String,
    token: String,
    now: &Moment,
) -> (r: Result<String, NodeError>)
    ensures
        carries(*old(db), *final(db), Some(token@), None),
        distinct(*old(db)) && unheld(old(db).nodes@, token@) ==> distinct(*final(db)),
        distinct(*old(db)) && r is Ok ==> detached(
            final(db).nodes@,
            old(db).nodes@[found(old(db).nodes@, with_id(id))->0].uuid@,
        ),
        match found(old(db).nodes@, with_id(id)) {
            Some(i) => r is Ok && r->Ok_0@ == token@ && only_node(*old(db), *final(db), i) && rotated(
                old(db).nodes@[i],
                final(db).nodes@[i],
                secret,
                token,
                now.text@,
            ),
            None => r is Err && r->Err_0 == NodeError::NotFound && *final(db) == *old(db),
        },
{
    let given = text::copy_of(token.as_str());
    match rotate_secret(db, id, secret, token, now) {
        Ok(()) => Ok(given),
        Err(e) => Err(e),
    }
}

/// Pins the certificate that an enrolled node presents.
pub fn set_tls_fingerprint(
    db: &mut Cluster,
    uuid: &str,
    fingerprint: &str,
    now: &Moment,
) -> (r: Result<(), NodeError>)
    ensures
        undisturbed(*old(db), *final(db)),
        !pinnable(fingerprint@) ==> r == Err::<(), NodeError>(NodeError::Fingerprint) && *final(db)
            == *old(db),
        pinnable(fingerprint@) ==> match found(old(db).nodes@, enrolled_with_uuid(uuid@)) {
            Some(i) => {
                let n = old(db).nodes@[i];
                let m = final(db).nodes@[i];
                &&& r is Ok
                &&& only_node(*old(db), *final(db), i)
                &&& m == (Node {
                    tls_fingerprint: m.tls_fingerprint,
                    updated_at: m.updated_at,
                    ..n
                })
                &&& m.tls_fingerprint@ == normalized(fingerprint@)
                &&& m.updated_at@ == now.text@
            },
            None => r == Err::<(), NodeError>(NodeError::NotEnrolled) && *final(db) == *old(db),
        },
{
    let pin = match pinned_fingerprint(fingerprint) {
        Ok(p) => p,
        Err(e) => return Err(e),
    };
    let i: usize = match find_enrolled(&db.nodes, uuid) {
        Some(i) => i,
        None => return Err(NodeError::NotEnrolled),
    };
    let n = &mut db.nodes[i];
    n.tls_fingerprint = pin;
    n.updated_at = text::copy_of(now.text.as_str());
    Ok(())
}

/// Records what last went wrong on an enrolled node.
pub fn set_error(db: &mut Cluster, uuid: &str, error: String, now: &Moment) -> (r: Result<
    (),
    NodeError,
>)
    ensures
        undisturbed(*old(db), *final(db)),
        match found(old(db).nodes@, enrolled_with_uuid(uuid@)) {
            Some(i) => {
                let n = old(db).nodes@[i];
                let m = final(db).nodes@[i];
                &&& r is Ok
                &&& only_node(*old(db), *final(db), i)
                &&& m == (Node { last_error: error, updated_at: m.updated_at, ..n })
                &&& m.updated_at@ == now.text@
            },
            None => r == Err::<(), NodeError>(NodeError::NotEnrolled) && *final(db) == *old(db),
        },
{
    let i: usize = match find_enrolled(&db.nodes, uuid) {
        Some(i) => i,
        None => return Err(NodeError::NotEnrolled),
    };
    let n = &mut db.nodes[i];
    n.last_error = error;
    n.updated_at = text::copy_of(now.text.as_str());
    Ok(())
}

/// Reservations that have not lapsed before now.
pub open spec fn unlapsed(now: int) -> spec_fn(Reservation) -> bool {
    |r: Reservation| r.until >= now
}

/// Drops the reservations that lapsed before now.
fn expire_stale_reservations(db: &mut Cluster, now: &Moment)
    ensures
        *final(db) == (Cluster { reservations: final(db).reservations, ..*old(db) }),
        final(db).reservations@ == old(db).reservations@.filter(unlapsed(now.nanos())),
{
    let at: i128 = now.to_nanos();
    let ghost all = db.reservations@;
    let ghost keep = unlapsed(now.nanos());
    let mut kept: Vec<Reservation> = Vec::new();
    let mut i: usize = 0;
    while i < db.reservations.len()
        invariant
            i <= db.reservations.len(),
            db.reservations@ == all,
            *db == *old(db),
            at == now.nanos(),
            keep == unlapsed(now.nanos()),
            kept@ == all.take(i as int).filter(keep),
        decreases db.reservations.len() - i,
    {
        proof {
            assert(all.take(i + 1).drop_last() =~= all.take(i as int));
            reveal(Seq::filter);
        }
        let r = &db.reservations[i];
        if r.until >= at {
            kept.push(
                Reservation {
                    id: r.id,
                    node_id: r.node_id,
                    memory_mb: r.memory_mb,
                    disk_mb: r.disk_mb,
                    until: r.until,
                },
            );
        }
        i += 1;
    }
    assert(all.take(all.len() as int) =~= all);
    db.reservations = kept;
}

/// The cadence of a node after a heartbeat now, given when the one before was
/// seen: the seconds between them where that is plausible, and what was known
/// otherwise.
pub open spec fn learned(cadence: i64, seen: Option<(i64, u32)>, now: int) -> int {
    match seen {
        Some(t) => {
            let gap = (now - (t.0 * SECOND + t.1)) / SECOND as int;
            if 5 <= gap <= 3600 {
                gap
            } else {
                cadence as int
            }
        },
        None => cadence as int,
    }
}

fn learn_cadence(cadence: i64, seen: Option<(i64, u32)>, now: &Moment) -> (r: i64)
    ensures
        r == learned(cadence, seen, now.nanos()),
{
    match seen {
        Some(t) => {
            let before: i128 = (t.0 as i128) * SECOND + (t.1 as i128);
            let since: i128 = now.to_nanos() - before;
            if since >= 0 {
                let gap: i128 = since / SECOND;
                if 5 <= gap && gap <= 3600 {
                    gap as i64
                } else {
                    cadence
                }
            } else {
                cadence
            }
        },
        None => cadence,
    }
}

/// A node that sent a heartbeat, given when the one before was seen.
pub open spec fn beaten(
    n: Node,
    m: Node,
    heartbeat: NodeHeartbeat,
    seen: Option<(i64, u32)>,
    now: Moment,
) -> bool {
    &&& m == (Node {
        daemon_version: heartbeat.daemon_version,
        hostname: heartbeat.hostname,
        os: heartbeat.os,
        arch: heartbeat.arch,
        capacity: heartbeat.capacity,
        last_heartbeat: m.last_heartbeat,
        last_error: m.last_error,
        updated_at: m.updated_at,
        cadence: learned(n.cadence, seen, now.nanos()) as i64,
        ..n
    })
    &&& m.last_heartbeat is Some && m.last_heartbeat->0@ == now.text@
    &&& m.last_error@.len() == 0
    &&& m.updated_at@ == now.text@
}

/// When the last heartbeat of an enrolled node was seen.
pub open spec fn last_seen(nodes: Seq<Node>, uuid: Seq<char>) -> Option<(i64, u32)> {
    match found(nodes, enrolled_with_uuid(uuid)) {
        Some(i) => match nodes[i].last_heartbeat {
            Some(s) => rfc3339_time(s@),
            None => None,
        },
        None => None,
    }
}

/// What a heartbeat does to the cluster, given when the one before was seen.
pub open spec fn beat(
    before: Cluster,
    after: Cluster,
    r: Result<(), NodeError>,
    uuid: Seq<char>,
    heartbeat: NodeHeartbeat,
    seen: Option<(i64, u32)>,
    now: Moment,
) -> bool {
    &&& after.reservations@ == before.reservations@.filter(unlapsed(now.nanos()))
    &&& match found(before.nodes@, enrolled_with_uuid(uuid)) {
        Some(i) => {
            &&& r is Ok
            &&& only_node((Cluster { reservations: after.reservations, ..before }), after, i)
            &&& beaten(before.nodes@[i], after.nodes@[i], heartbeat, seen, now)
        },
        None => {
            &&& r == Err::<(), NodeError>(NodeError::NotEnrolled)
            &&& after == (Cluster { reservations: after.reservations, ..before })
        },
    }
}

/// Takes the heartbeat of an enrolled node, given when the one before was seen;
/// drops lapsed reservations on the way.
pub fn heartbeat_after(
    db: &mut Cluster,
    uuid: &str,
    heartbeat: NodeHeartbeat,
    seen: Option<(i64, u32)>,
    now: &Moment,
) -> (r: Result<(), NodeError>)
    ensures
        detached(old(db).nodes@, uuid@) ==> r == Err::<(), NodeError>(NodeError::NotEnrolled),
        undisturbed(*old(db), *final(db)),
        beat(*old(db), *final(db), r, uuid@, heartbeat, seen, *now),
{
    expire_stale_reservations(db, now);
    proof {
        lemma_found_is(db.nodes@, enrolled_with_uuid(uuid@));
    }
    let i: usize = match find_enrolled(&db.nodes, uuid) {
        Some(i) => i,
        None => return Err(NodeError::NotEnrolled),
    };
    let n = &mut db.nodes[i];
    n.daemon_version = heartbeat.daemon_version;
    n.hostname = heartbeat.hostname;
    n.os = heartbeat.os;
    n.arch = heartbeat.arch;
    n.capacity = heartbeat.capacity;
    n.last_heartbeat = Some(text::copy_of(now.text.as_str()));
    n.last_error = String::new();
    n.updated_at = text::copy_of(now.text.as_str());
    n.cadence = learn_cadence(n.cadence, seen, now);
    Ok(())
}

/// Takes the heartbeat of an enrolled node: its capacity is kept, its cadence is
/// learned, and lapsed reservations are dropped.
pub fn heartbeat(db: &mut Cluster, uuid: &str, report: NodeHeartbeat, now: &Moment) -> (r: Result<
    (),
    NodeError,
>)
    ensures
        detached(old(db).nodes@, uuid@) ==> r == Err::<(), NodeError>(NodeError::NotEnrolled),
        undisturbed(*old(db), *final(db)),
        beat(
            *old(db),
            *final(db),
            r,
            uuid@,
            report,
            last_seen(old(db).nodes@, uuid@),
            *now,
        ),
{
    let seen = match find_enrolled(&db.nodes, uuid) {
        Some(i) => match &db.nodes[i].last_heartbeat {
            Some(s) => parse_rfc3339(s.as_str()),
            None => None,
        },
        None => None,
    };
    heartbeat_after(db, uuid, report, seen, now)
}

/// Changes what the operator sets on a node. A node with servers keeps its name:
/// they are assigned to it by that.
pub fn update(
    db: &mut Cluster,
    id: i64,
    name: String,
    public_url: &str,
    enabled: bool,
    maintenance: bool,
    schedulable: bool,
    location: String,
    tags: Vec<String>,
    memory_limit_mb: i64,
    disk_limit_mb: i64,
    memory_overallocate: i64,
    disk_overallocate: i64,
    now: &Moment,
) -> (r: Result<usize, NodeError>)
    ensures
        undisturbed(*old(db), *final(db)),
        match r {
            Err(e) => *final(db) == *old(db),
            Ok(_) => true,
        },
        ({
            let negative = memory_limit_mb < 0 || disk_limit_mb < 0 || memory_overallocate < 0
                || disk_overallocate < 0;
            if negative {
                r == Err::<usize, NodeError>(NodeError::NegativeLimit)
            } else if public_url_fault(public_url@) is Some {
                r == Err::<usize, NodeError>(public_url_fault(public_url@)->0)
            } else {
                match found(old(db).nodes@, with_id(id)) {
                    None => r == Err::<usize, NodeError>(NodeError::NotFound),
                    Some(i) => {
                        let n = old(db).nodes@[i];
                        let m = final(db).nodes@[i];
                        let count = assigned(old(db).servers@, n.name@);
                        if name@ != n.name@ && count > 0 {
                            r is Err && (r->Err_0 matches NodeError::Rename { assigned } && assigned
                                == count)
                        } else {
                            &&& r is Ok && r->Ok_0 == i
                            &&& only_node(*old(db), *final(db), i)
                            &&& m == (Node {
                                name,
                                public_url: m.public_url,
                                enabled,
                                maintenance,
                                schedulable,
                                location,
                                tags,
                                memory_limit_mb,
                                disk_limit_mb,
                                memory_overallocate,
                                disk_overallocate,
                                updated_at: m.updated_at,
                                ..n
                            })
                            &&& m.public_url@ == unslashed(public_url@)
                            &&& m.updated_at@ == now.text@
                        }
                    },
                }
            }
        }),
{
    if memory_limit_mb < 0 || disk_limit_mb < 0 || memory_overallocate < 0 || disk_overallocate
        < 0 {
        return Err(NodeError::NegativeLimit);
    }
    let url = match validate_public_url(public_url) {
        Ok(u) => u,
        Err(e) => return Err(e),
    };
    let i: usize = match find_id(&db.nodes, id) {
        Some(i) => i,
        None => return Err(NodeError::NotFound),
    };
    if !text::same(name.as_str(), db.nodes[i].name.as_str()) {
        let count: usize = server_count(db, db.nodes[i].name.as_str());
        if count > 0 {
            return Err(NodeError::Rename { assigned: count });
        }
    }
    let n = &mut db.nodes[i];
    n.name = name;
    n.public_url = url;
    n.enabled = enabled;
    n.maintenance = maintenance;
    n.schedulable = schedulable;
    n.location = location;
    n.tags = tags;
    n.memory_limit_mb = memory_limit_mb;
    n.disk_limit_mb = disk_limit_mb;
    n.memory_overallocate = memory_overallocate;
    n.disk_overallocate = disk_overallocate;
    n.updated_at = text::copy_of(now.text.as_str());
    Ok(i)
}

/// Reservations on other nodes.
pub open spec fn elsewhere(node_id: i64) -> spec_fn(Reservation) -> bool {
    |r: Reservation| r.node_id != node_id
}

/// Removes a node, and the reservations on it, unless servers are assigned to
/// it. That there is none of this id is no error.
pub fn delete(db: &mut Cluster, id: i64) -> (r: Result<(), NodeError>)
    ensures
        carries(*old(db), *final(db), None, None),
        distinct(*old(db)) ==> distinct(*final(db)),
        match found(old(db).nodes@, with_id(id)) {
            None => r is Ok && *final(db) == *old(db),
            Some(i) => {
                let count = assigned(old(db).servers@, old(db).nodes@[i].name@);
                if count > 0 {
                    r is Err && (r->Err_0 matches NodeError::Assigned { count: c } && c == count)
                        && *final(db) == *old(db)
                } else {
                    &&& r is Ok
                    &&& *final(db) == (Cluster {
                        nodes: final(db).nodes,
                        reservations: final(db).reservations,
                        ..*old(db)
                    })
                    &&& final(db).nodes@ == old(db).nodes@.remove(i)
                    &&& final(db).reservations@ == old(db).reservations@.filter(elsewhere(id))
                }
            },
        },
{
    let i: usize = match find_id(&db.nodes, id) {
        Some(i) => i,
        None => return Ok(()),
    };
    let count: usize = server_count(db, db.nodes[i].name.as_str());
    if count > 0 {
        return Err(NodeError::Assigned { count });
    }
    let ghost all = db.reservations@;
    let mut kept: Vec<Reservation> = Vec::new();
    let mut k: usize = 0;
    while k < db.reservations.len()
        invariant
            k <= db.reservations.len(),
            db.reservations@ == all,
            *db == *old(db),
            kept@ == all.take(k as int).filter(elsewhere(id)),
        decreases db.reservations.len() - k,
    {
        proof {
            assert(all.take(k + 1).drop_last() =~= all.take(k as int));
            reveal(Seq::filter);
        }
        let r = &db.reservations[k];
        if r.node_id != id {
            kept.push(
                Reservation {
                    id: r.id,
                    node_id: r.node_id,
                    memory_mb: r.memory_mb,
                    disk_mb: r.disk_mb,
                    until: r.until,
                },
            );
        }
        k += 1;
    }
    assert(all.take(all.len() as int) =~= all);
    db.reservations = kept;
    let _ = db.nodes.remove(i);
    Ok(())
}

/// What a new server asks of a node.
#[derive(Debug, Clone)]
pub struct Demand {
    pub memory_mb: i64,
    pub disk_mb: i64,
    pub required_tags: Vec<String>,
    pub location: Option<String>,
}

/// Whether a reservation counts on a node: it is on it, and not lapsed.
pub open spec fn counts(r: Reservation, node_id: i64, now: int) -> bool {
    r.node_id == node_id && r.until > now
}

/// Memory and disk that live reservations claim on a node.
pub open spec fn reserved(rs: Seq<Reservation>, node_id: i64, now: int) -> (int, int)
    decreases rs.len(),
{
    if rs.len() == 0 {
        (0, 0)
    } else {
        let before = reserved(rs.drop_last(), node_id, now);
        if counts(rs.last(), node_id, now) {
            (before.0 + rs.last().memory_mb, before.1 + rs.last().disk_mb)
        } else {
            before
        }
    }
}

/// Memory and disk that live reservations claim on a node.
pub fn reserved_usage(db: &Cluster, node_id: i64, now: &Moment) -> (r: (i128, i128))
    ensures
        (r.0 as int, r.1 as int) == reserved(db.reservations@, node_id, now.nanos()),
        -0x8000_0000_0000_0000 * usize::MAX <= r.0 <= 0x8000_0000_0000_0000 * usize::MAX,
        -0x8000_0000_0000_0000 * usize::MAX <= r.1 <= 0x8000_0000_0000_0000 * usize::MAX,
{
    let at: i128 = now.to_nanos();
    let mut memory: i128 = 0;
    let mut disk: i128 = 0;
    let mut i: usize = 0;
    while i < db.reservations.len()
        invariant
            i <= db.reservations.len(),
            at == now.nanos(),
            (memory as int, disk as int) == reserved(
                db.reservations@.take(i as int),
                node_id,
                now.nanos(),
            ),
            -0x8000_0000_0000_0000 * i <= memory <= 0x8000_0000_0000_0000 * i,
            -0x8000_0000_0000_0000 * i <= disk <= 0x8000_0000_0000_0000 * i,
        decreases db.reservations.len() - i,
    {
        assert(db.reservations@.take(i + 1).drop_last() =~= db.reservations@.take(i as int));
        let r = &db.reservations[i];
        if r.node_id == node_id && r.until > at {
            memory = memory + r.memory_mb as i128;
            disk = disk + r.disk_mb as i128;
        }
        i += 1;
    }
    assert(db.reservations@.take(db.reservations@.len() as int) =~= db.reservations@);
    (memory, disk)
}

/// Whether a tag is one of a node's.
pub open spec fn has_tag(tags: Seq<String>, tag: Seq<char>) -> bool {
    exists|j: int| 0 <= j < tags.len() && (#[trigger] tags[j])@ == tag
}

fn is_tagged(tags: &Vec<String>, tag: &str) -> (r: bool)
    ensures
        r == has_tag(tags@, tag@),
{
    let mut j: usize = 0;
    while j < tags.len()
        invariant
            j <= tags.len(),
            forall|k: int| 0 <= k < j ==> (#[trigger] tags@[k])@ != tag@,
        decreases tags.len() - j,
    {
        if text::same(tags[j].as_str(), tag) {
            assert(tags@[j as int]@ == tag@);
            return true;
        }
        j += 1;
    }
    false
}

/// Whether every required tag is one of a node's.
pub open spec fn tagged(required: Seq<String>, tags: Seq<String>) -> bool {
    forall|i: int| 0 <= i < required.len() ==> has_tag(tags, (#[trigger] required[i])@)
}

fn has_tags(required: &Vec<String>, tags: &Vec<String>) -> (r: bool)
    ensures
        r == tagged(required@, tags@),
{
    let mut i: usize = 0;
    while i < required.len()
        invariant
            i <= required.len(),
            forall|k: int| 0 <= k < i ==> has_tag(tags@, (#[trigger] required@[k])@),
        decreases required.len() - i,
    {
        if !is_tagged(tags, required[i].as_str()) {
            assert(!has_tag(tags@, required@[i as int]@));
            return false;
        }
        i += 1;
    }
    true
}

/// Whether a node is where a server is wanted.
pub open spec fn located(n: Node, location: Option<String>) -> bool {
    match location {
        Some(l) => l@.len() == 0 || n.location@ == l@,
        None => true,
    }
}

/// Whether a node comes into question for a server, given whether it is online: it
/// takes new servers, and it is where and what is asked for.
pub open spec fn suits(n: Node, online: bool, demand: Demand) -> bool {
    &&& online && n.enabled && n.schedulable && !n.maintenance && n.drain_mode@.len() == 0
    &&& located(n, demand.location)
    &&& tagged(demand.required_tags@, n.tags@)
}

/// Whether a server can be placed on a node, given whether it is online: it comes
/// into question, and what is left of it beyond the live reservations is enough.
pub open spec fn eligible(
    n: Node,
    online: bool,
    demand: Demand,
    rs: Seq<Reservation>,
    now: int,
) -> bool {
    &&& suits(n, online, demand)
    &&& saturated(n.memory_left() - reserved(rs, n.id, now).0) >= demand.memory_mb
    &&& saturated(n.disk_left() - reserved(rs, n.id, now).1) >= demand.disk_mb
}

fn is_eligible(db: &Cluster, i: usize, online: bool, demand: &Demand, now: &Moment) -> (r: bool)
    requires
        i < db.nodes@.len(),
        suits(db.nodes@[i as int], online, *demand) ==> db.nodes@[i as int].countable(),
    ensures
        r == eligible(
            db.nodes@[i as int],
            online,
            *demand,
            db.reservations@,
            now.nanos(),
        ),
{
    let n = &db.nodes[i];
    if !online || !n.enabled || !n.schedulable || n.maintenance
        || !n.drain_mode.as_str().is_empty() {
        return false;
    }
    if let Some(l) = &demand.location {
        if !l.as_str().is_empty() && !text::same(n.location.as_str(), l.as_str()) {
            return false;
        }
    }
    if !has_tags(&demand.required_tags, &n.tags) {
        return false;
    }
    let claimed = reserved_usage(db, n.id, now);
    assert(usize::MAX <= 0xffff_ffff_ffff_ffff);
    assert(0x8000_0000_0000_0000 * usize::MAX <= 0x8000_0000_0000_0000 * 0xffff_ffff_ffff_ffff)
        by (nonlinear_arith)
        requires
            usize::MAX <= 0xffff_ffff_ffff_ffff,
    ;
    if left_beyond(n.available_memory_mb(), claimed.0) < demand.memory_mb {
        return false;
    }
    left_beyond(n.available_disk_mb(), claimed.1) >= demand.disk_mb
}

/// What is left beyond a claim.
fn left_beyond(left: i64, claimed: i128) -> (r: i64)
    requires
        -0x7fff_ffff_ffff_ffff_8000_0000_0000_0000 <= claimed
            <= 0x7fff_ffff_ffff_ffff_8000_0000_0000_0000,
    ensures
        r == saturated(left - claimed),
{
    if claimed > 0x7fff_ffff_ffff_ffff_0000_0000_0000_0000 {
        i64::MIN
    } else if claimed < -0x7fff_ffff_ffff_ffff_0000_0000_0000_0000 {
        i64::MAX
    } else {
        saturate(left as i128 - claimed)
    }
}

/// Whether a node is where a demand is placed: it is eligible, and of those that
/// are, it has the least load, and stands first among equals.
pub open spec fn placed(
    db: Cluster,
    demand: Demand,
    online: Seq<bool>,
    loads: Seq<i64>,
    now: int,
    i: int,
) -> bool {
    &&& 0 <= i < db.nodes@.len()
    &&& eligible(db.nodes@[i], online[i], demand, db.reservations@, now)
    &&& forall|j: int|
        0 <= j < db.nodes@.len() && eligible(
            #[trigger] db.nodes@[j],
            online[j],
            demand,
            db.reservations@,
            now,
        ) ==> loads[i] <= loads[j] && (j < i ==> loads[i] < loads[j])
}

/// Whether no node is eligible for a demand.
pub open spec fn unplaceable(db: Cluster, demand: Demand, online: Seq<bool>, now: int) -> bool {
    forall|j: int|
        0 <= j < db.nodes@.len() ==> !eligible(
            #[trigger] db.nodes@[j],
            online[j],
            demand,
            db.reservations@,
            now,
        )
}

/// The place of the least loaded node that can take a server, given which nodes
/// are online and how loaded they are, in any measure that orders them.
pub fn pick_node_tx(
    db: &Cluster,
    demand: &Demand,
    online: &Vec<bool>,
    loads: &Vec<i64>,
    now: &Moment,
) -> (r: Result<usize, NodeError>)
    requires
        online@.len() == db.nodes@.len(),
        loads@.len() == db.nodes@.len(),
        forall|i: int|
            0 <= i < db.nodes@.len() && suits(#[trigger] db.nodes@[i], online@[i], *demand)
                ==> db.nodes@[i].countable(),
    ensures
        match r {
            Ok(i) => placed(*db, *demand, online@, loads@, now.nanos(), i as int),
            Err(e) => e == NodeError::NoCapacity && unplaceable(
                *db,
                *demand,
                online@,
                now.nanos(),
            ),
        },
        r matches Ok(i) ==> forall|k: int|
            0 <= k < demand.required_tags@.len() ==> text::views(
                db.nodes@[i as int].tags@,
            ).contains((#[trigger] demand.required_tags@[k])@),
{
    let mut best: Option<usize> = None;
    let mut i: usize = 0;
    while i < db.nodes.len()
        invariant
            i <= db.nodes.len(),
            online@.len() == db.nodes@.len(),
            loads@.len() == db.nodes@.len(),
            forall|i: int|
                0 <= i < db.nodes@.len() && suits(#[trigger] db.nodes@[i], online@[i], *demand)
                    ==> db.nodes@[i].countable(),
            match best {
                Some(b) => {
                    &&& b < i
                    &&& eligible(
                        db.nodes@[b as int],
                        online@[b as int],
                        *demand,
                        db.reservations@,
                        now.nanos(),
                    )
                    &&& forall|j: int|
                        0 <= j < i && eligible(
                            #[trigger] db.nodes@[j],
                            online@[j],
                            *demand,
                            db.reservations@,
                            now.nanos(),
                        ) ==> loads@[b as int] <= loads@[j] && (j < b ==> loads@[b as int]
                            < loads@[j])
                },
                None => forall|j: int|
                    0 <= j < i ==> !eligible(
                        #[trigger] db.nodes@[j],
                        online@[j],
                        *demand,
                        db.reservations@,
                        now.nanos(),
                    ),
            },
        decreases db.nodes.len() - i,
    {
        if is_eligible(db, i, online[i], demand, now) {
            match best {
                None => {
                    best = Some(i);
                },
                Some(b) => {
                    if loads[i] < loads[b] {
                        best = Some(i);
                    }
                },
            }
        }
        i += 1;
    }
    match best {
        Some(b) => {
            assert forall|k: int| 0 <= k < demand.required_tags@.len() implies text::views(
                db.nodes@[b as int].tags@,
            ).contains((#[trigger] demand.required_tags@[k])@) by {
                let tags = db.nodes@[b as int].tags@;
                let tag = demand.required_tags@[k]@;
                assert(has_tag(tags, tag));
                let j = choose|j: int| 0 <= j < tags.len() && (#[trigger] tags[j])@ == tag;
                assert(text::views(tags)[j] == tag);
            }
            Ok(b)
        },
        None => Err(NodeError::NoCapacity),
    }
}

/// Which nodes are online.
pub open spec fn online_nodes(nodes: Seq<Node>, now: int) -> Seq<bool> {
    Seq::new(nodes.len(), |i: int| nodes[i].is_online(now))
}

fn online_flags(db: &Cluster, now: &Moment) -> (r: Vec<bool>)
    ensures
        r@ == online_nodes(db.nodes@, now.nanos()),
{
    let mut out: Vec<bool> = Vec::new();
    let mut i: usize = 0;
    while i < db.nodes.len()
        invariant
            i <= db.nodes.len(),
            out@ == online_nodes(db.nodes@, now.nanos()).take(i as int),
        decreases db.nodes.len() - i,
    {
        out.push(db.nodes[i].online(now));
        i += 1;
        assert(out@ =~= online_nodes(db.nodes@, now.nanos()).take(i as int));
    }
    assert(out@ =~= online_nodes(db.nodes@, now.nanos()));
    out
}

/// The place of the node that a server would be placed on, with nothing claimed.
/// Lapsed reservations are dropped, unless no node was found.
pub fn select_for_server(
    db: &mut Cluster,
    demand: &Demand,
    loads: &Vec<i64>,
    now: &Moment,
) -> (r: Result<usize, NodeError>)
    requires
        loads@.len() == old(db).nodes@.len(),
        forall|i: int|
            0 <= i < old(db).nodes@.len() && suits(
                #[trigger] old(db).nodes@[i],
                old(db).nodes@[i].is_online(now.nanos()),
                *demand,
            ) ==> old(db).nodes@[i].countable(),
    ensures
        ({
            let online = online_nodes(old(db).nodes@, now.nanos());
            match r {
                Ok(i) => {
                    &&& placed(*old(db), *demand, online, loads@, now.nanos(), i as int)
                    &&& *final(db) == (Cluster { reservations: final(db).reservations, ..*old(db) })
                    &&& final(db).reservations@ == old(db).reservations@.filter(
                        unlapsed(now.nanos()),
                    )
                },
                Err(e) => {
                    &&& e == NodeError::NoCapacity
                    &&& unplaceable(*old(db), *demand, online, now.nanos())
                    &&& *final(db) == *old(db)
                },
            }
        }),
{
    let online = online_flags(db, now);
    match pick_node_tx(db, demand, &online, loads, now) {
        Ok(i) => {
            expire_stale_reservations(db, now);
            Ok(i)
        },
        Err(e) => Err(e),
    }
}

/// Claims capacity for a server on the node that takes it: the place of the node
/// and the id of the claim. `online` and `loads` say which nodes are online and
/// how loaded they are.
pub fn claim(
    db: &mut Cluster,
    demand: &Demand,
    online: &Vec<bool>,
    loads: &Vec<i64>,
    now: &Moment,
) -> (r: Result<(usize, i64), NodeError>)
    requires
        online@.len() == old(db).nodes@.len(),
        loads@.len() == old(db).nodes@.len(),
        forall|i: int|
            0 <= i < old(db).nodes@.len() && suits(
                #[trigger] old(db).nodes@[i],
                online@[i],
                *demand,
            ) ==> old(db).nodes@[i].countable(),
        old(db).next_reservation < i64::MAX,
    ensures
        undisturbed(*old(db), *final(db)),
        claimed(*old(db), *final(db), r, *demand, online@, loads@, now.nanos()),
{
    let picked = pick_node_tx(db, demand, online, loads, now);
    expire_stale_reservations(db, now);
    match picked {
        Ok(i) => {
            let ttl: i64 = reservation_ttl_secs(db.nodes[i].cadence);
            let id: i64 = db.next_reservation;
            db.next_reservation = id + 1;
            db.reservations.push(
                Reservation {
                    id,
                    node_id: db.nodes[i].id,
                    memory_mb: demand.memory_mb,
                    disk_mb: demand.disk_mb,
                    until: now.to_nanos() + (ttl as i128) * SECOND,
                },
            );
            assert(db.reservations@.drop_last() =~= old(db).reservations@.filter(
                unlapsed(now.nanos()),
            ));
            Ok((i, id))
        },
        Err(e) => Err(e),
    }
}

/// What a claim of capacity does to the cluster.
pub open spec fn claimed(
    before: Cluster,
    after: Cluster,
    r: Result<(usize, i64), NodeError>,
    demand: Demand,
    online: Seq<bool>,
    loads: Seq<i64>,
    now: int,
) -> bool {
    let live = before.reservations@.filter(unlapsed(now));
    match r {
        Ok(p) => {
            &&& placed(before, demand, online, loads, now, p.0 as int)
            &&& p.1 == before.next_reservation
            &&& after == (Cluster {
                reservations: after.reservations,
                next_reservation: (before.next_reservation + 1) as i64,
                ..before
            })
            &&& after.reservations@.len() == live.len() + 1
            &&& after.reservations@.drop_last() == live
            &&& ({
                let last = after.reservations@.last();
                &&& last.id == p.1
                &&& last.node_id == before.nodes@[p.0 as int].id
                &&& last.memory_mb == demand.memory_mb
                &&& last.disk_mb == demand.disk_mb
                &&& last.until == now + ttl_of(before.nodes@[p.0 as int].cadence as int) * SECOND
            })
        },
        Err(e) => {
            &&& e == NodeError::NoCapacity
            &&& unplaceable(before, demand, online, now)
            &&& after == (Cluster { reservations: after.reservations, ..before })
            &&& after.reservations@ == live
        },
    }
}

/// Claims capacity for a server on the least loaded node that can take it: the
/// place of the node and the id of the claim. The claim counts against the node
/// until it is released or lapses.
pub fn reserve_capacity_tx(
    db: &mut Cluster,
    demand: &Demand,
    loads: &Vec<i64>,
    now: &Moment,
) -> (r: Result<(usize, i64), NodeError>)
    requires
        loads@.len() == old(db).nodes@.len(),
        forall|i: int|
            0 <= i < old(db).nodes@.len() && suits(
                #[trigger] old(db).nodes@[i],
                old(db).nodes@[i].is_online(now.nanos()),
                *demand,
            ) ==> old(db).nodes@[i].countable(),
        old(db).next_reservation < i64::MAX,
    ensures
        undisturbed(*old(db), *final(db)),
        claimed(
            *old(db),
            *final(db),
            r,
            *demand,
            online_nodes(old(db).nodes@, now.nanos()),
            loads@,
            now.nanos(),
        ),
{
    let online = online_flags(db, now);
    claim(db, demand, &online, loads, now)
}

/// Reservations of other ids.
pub open spec fn other_than(id: i64) -> spec_fn(Reservation) -> bool {
    |r: Reservation| r.id != id
}

/// Takes a claim back before it lapses. That there is none of this id is no
/// error.
pub fn release_reservation(db: &mut Cluster, reservation_id: i64)
    ensures
        undisturbed(*old(db), *final(db)),
        *final(db) == (Cluster { reservations: final(db).reservations, ..*old(db) }),
        final(db).reservations@ == old(db).reservations@.filter(other_than(reservation_id)),
{
    let ghost all = db.reservations@;
    let mut kept: Vec<Reservation> = Vec::new();
    let mut k: usize = 0;
    while k < db.reservations.len()
        invariant
            k <= db.reservations.len(),
            db.reservations@ == all,
            *db == *old(db),
            kept@ == all.take(k as int).filter(other_than(reservation_id)),
        decreases db.reservations.len() - k,
    {
        proof {
            assert(all.take(k + 1).drop_last() =~= all.take(k as int));
            reveal(Seq::filter);
        }
        let r = &db.reservations[k];
        if r.id != reservation_id {
            kept.push(
                Reservation {
                    id: r.id,
                    node_id: r.node_id,
                    memory_mb: r.memory_mb,
                    disk_mb: r.disk_mb,
                    until: r.until,
                },
            );
        }
        k += 1;
    }
    assert(all.take(all.len() as int) =~= all);
    db.reservations = kept;
}

/// Records something that happened to a node.
pub fn record_event(
    db: &mut Cluster,
    node_id: i64,
    level: String,
    kind: String,
    message: String,
    payload: Json,
    now: String,
)
    requires
        old(db).next_event < i64::MAX,
    ensures
        undisturbed(*old(db), *final(db)),
        *final(db) == (Cluster {
            events: final(db).events,
            next_event: (old(db).next_event + 1) as i64,
            ..*old(db)
        }),
        final(db).events@ == old(db).events@.push(
            (NodeEvent {
                id: old(db).next_event,
                node_id,
                level,
                kind,
                message,
                payload,
                created_at: now,
            }),
        ),
{
    let id: i64 = db.next_event;
    db.next_event = id + 1;
    db.events.push(NodeEvent { id, node_id, level, kind, message, payload, created_at: now });
}

/// How many events a request for this many gets at most: one at least, and two
/// hundred at most.
pub open spec fn events_allowed(limit: int) -> int {
    if limit < 1 {
        1
    } else if limit > 200 {
        200
    } else {
        limit
    }
}

/// Places of the newest events of a node, the newest first.
pub open spec fn newest(events: Seq<NodeEvent>, node_id: i64, n: int) -> Seq<int>
    decreases events.len(),
{
    if events.len() == 0 || n <= 0 {
        Seq::empty()
    } else if events.last().node_id == node_id {
        seq![events.len() - 1] + newest(events.drop_last(), node_id, n - 1)
    } else {
        newest(events.drop_last(), node_id, n)
    }
}

/// The newest events of a node, the newest first.
pub fn events(db: &Cluster, node_id: i64, limit: i64) -> (r: Vec<&NodeEvent>)
    ensures
        ({
            let places = newest(db.events@, node_id, events_allowed(limit as int));
            &&& r@.len() == places.len()
            &&& forall|k: int|
                0 <= k < places.len() ==> 0 <= #[trigger] places[k] < db.events@.len() && r@[k]
                    == &db.events@[places[k]]
        }),
{
    let most: usize = if limit < 1 {
        1
    } else if limit > 200 {
        200
    } else {
        limit as usize
    };
    let mut out: Vec<&NodeEvent> = Vec::new();
    let mut i: usize = db.events.len();
    let ghost mut places: Seq<int> = Seq::empty();
    assert(db.events@.take(i as int) =~= db.events@);
    while i > 0 && out.len() < most
        invariant
            i <= db.events@.len(),
            out@.len() <= most,
            places.len() == out@.len(),
            places + newest(db.events@.take(i as int), node_id, most - out@.len()) =~= newest(
                db.events@,
                node_id,
                most as int,
            ),
            forall|k: int|
                0 <= k < places.len() ==> 0 <= #[trigger] places[k] < db.events@.len() && out@[k]
                    == &db.events@[places[k]],
        decreases i,
    {
        let ghost before = places;
        let ghost got = out@.len();
        proof {
            assert(db.events@.take(i as int).drop_last() =~= db.events@.take(i - 1));
            assert(db.events@.take(i as int).last() == db.events@[i - 1]);
        }
        i -= 1;
        if db.events[i].node_id == node_id {
            out.push(&db.events[i]);
            proof {
                places = places.push(i as int);
                let rest = newest(db.events@.take(i as int), node_id, most - got - 1);
                assert(before + (seq![i as int] + rest) =~= places + rest);
            }
        }
    }
    assert(places =~= newest(db.events@, node_id, most as int));
    out
}

/// Nodes in drain whose deadline is not after a time, both as RFC 3339 text.
pub open spec fn overdue(now: Seq<char>) -> spec_fn(Node) -> bool {
    |n: Node|
        n.drain_mode@.len() > 0 && n.drain_deadline is Some && text::lex_le(
            n.drain_deadline->0@,
            now,
        )
}

fn is_overdue(n: &Node, now: &str) -> (r: bool)
    ensures
        r == overdue(now@)(*n),
{
    if n.drain_mode.as_str().is_empty() {
        return false;
    }
    match &n.drain_deadline {
        Some(d) => {
            let a = text::chars_of(d.as_str());
            let b = text::chars_of(now);
            text::not_after(a.as_slice(), b.as_slice())
        },
        None => false,
    }
}

/// Whether a node is a copy of another.
pub open spec fn is_copy(n: Node, m: Node) -> bool {
    n == (Node { tags: n.tags, ..m }) && n.tags@ == m.tags@
}

/// A copy of a text that may be absent.
fn copy_option(s: &Option<String>) -> (r: Option<String>)
    ensures
        r == *s,
{
    match s {
        Some(t) => Some(t.clone()),
        None => None,
    }
}

/// A copy of a node.
fn copy_node(n: &Node) -> (r: Node)
    ensures
        is_copy(r, *n),
{
    let mut tags: Vec<String> = Vec::new();
    let mut i: usize = 0;
    while i < n.tags.len()
        invariant
            i <= n.tags@.len(),
            tags@ == n.tags@.take(i as int),
        decreases n.tags.len() - i,
    {
        tags.push(n.tags[i].clone());
        i += 1;
        assert(tags@ =~= n.tags@.take(i as int));
    }
    assert(n.tags@.take(i as int) =~= n.tags@);
    Node {
        id: n.id,
        uuid: n.uuid.clone(),
        name: n.name.clone(),
        public_url: n.public_url.clone(),
        secret: n.secret.clone(),
        enrollment_token: copy_option(&n.enrollment_token),
        enrolled: n.enrolled,
        enabled: n.enabled,
        maintenance: n.maintenance,
        schedulable: n.schedulable,
        location: n.location.clone(),
        tags,
        memory_limit_mb: n.memory_limit_mb,
        disk_limit_mb: n.disk_limit_mb,
        cpu_limit_percent: n.cpu_limit_percent,
        memory_overallocate: n.memory_overallocate,
        disk_overallocate: n.disk_overallocate,
        daemon_version: n.daemon_version.clone(),
        hostname: n.hostname.clone(),
        os: n.os.clone(),
        arch: n.arch.clone(),
        capacity: NodeCapacity {
            memory_total: n.capacity.memory_total,
            memory_used: n.capacity.memory_used,
            disk_total: n.capacity.disk_total,
            disk_used: n.capacity.disk_used,
            cpu_threads: n.capacity.cpu_threads,
            servers_running: n.capacity.servers_running,
            servers_total: n.capacity.servers_total,
        },
        last_heartbeat: copy_option(&n.last_heartbeat),
        last_error: n.last_error.clone(),
        created_at: n.created_at.clone(),
        updated_at: n.updated_at.clone(),
        tls_fingerprint: n.tls_fingerprint.clone(),
        expected_fingerprint: n.expected_fingerprint.clone(),
        drain_mode: n.drain_mode.clone(),
        drain_reason: n.drain_reason.clone(),
        drain_deadline: copy_option(&n.drain_deadline),
        cadence: n.cadence,
    }
}

/// The event that records the end of the drain of a node.
pub open spec fn is_drain_event(e: NodeEvent, id: int, n: Node, now: Seq<char>) -> bool {
    &&& e.id == id
    &&& e.node_id == n.id
    &&& e.level@ == "info"@
    &&& e.kind@ == "drain_expired"@
    &&& e.message@ == "drain deadline reached; drain lifted and scheduling restored"@
    &&& e.payload@ == json::inserted(
        json::inserted(
            json::Doc::Object(Seq::<(Seq<char>, json::Doc)>::empty()),
            "mode"@,
            json::Doc::Text(n.drain_mode@),
        ),
        "deadline"@,
        json::optional_text(n.drain_deadline),
    )
    &&& e.created_at@ == now
}

/// Lifts every drain whose deadline has passed, records an event for each, and
/// gives the nodes as they were before. A drain without a deadline stays.
pub fn clear_expired_drains(db: &mut Cluster, now: &Moment) -> (r: Vec<Node>)
    requires
        old(db).next_event + old(db).nodes@.len() <= i64::MAX,
    ensures
        undisturbed(*old(db), *final(db)),
        r@.len() == old(db).nodes@.filter(overdue(now.text@)).len(),
        forall|k: int|
            0 <= k < r@.len() ==> is_copy(
                #[trigger] r@[k],
                old(db).nodes@.filter(overdue(now.text@))[k],
            ),
        *final(db) == (Cluster {
            nodes: final(db).nodes,
            events: final(db).events,
            next_event: (old(db).next_event + r@.len()) as i64,
            ..*old(db)
        }),
        final(db).nodes@.len() == old(db).nodes@.len(),
        forall|i: int|
            0 <= i < old(db).nodes@.len() ==> if overdue(now.text@)(old(db).nodes@[i]) {
                lifted(old(db).nodes@[i], #[trigger] final(db).nodes@[i], now.text@)
            } else {
                final(db).nodes@[i] == old(db).nodes@[i]
            },
        final(db).events@.len() == old(db).events@.len() + r@.len(),
        final(db).events@.take(old(db).events@.len() as int) == old(db).events@,
        forall|k: int|
            0 <= k < r@.len() ==> is_drain_event(
                #[trigger] final(db).events@[old(db).events@.len() + k],
                old(db).next_event + k,
                r@[k],
                now.text@,
            ),
{
    let ghost before = *db;
    let ghost nodes = db.nodes@;
    let ghost kind = overdue(now.text@);
    let mut out: Vec<Node> = Vec::new();
    let mut i: usize = 0;
    assert(nodes.take(0).filter(kind) =~= Seq::<Node>::empty()) by {
        reveal(Seq::filter);
    }
    while i < db.nodes.len()
        invariant
            i <= nodes.len(),
            db.nodes@.len() == nodes.len(),
            *db == (Cluster { nodes: db.nodes, ..before }),
            kind == overdue(now.text@),
            forall|j: int| i <= j < nodes.len() ==> #[trigger] db.nodes@[j] == nodes[j],
            forall|j: int|
                0 <= j < i ==> if kind(nodes[j]) {
                    lifted(nodes[j], #[trigger] db.nodes@[j], now.text@)
                } else {
                    db.nodes@[j] == nodes[j]
                },
            out@.len() == nodes.take(i as int).filter(kind).len(),
            forall|k: int|
                0 <= k < out@.len() ==> is_copy(
                    #[trigger] out@[k],
                    nodes.take(i as int).filter(kind)[k],
                ),
            out@.len() <= i,
        decreases nodes.len() - i,
    {
        proof {
            assert(nodes.take(i + 1) =~= nodes.take(i as int).push(nodes[i as int]));
            lemma_filter_push(nodes.take(i as int), nodes[i as int], kind);
        }
        assert(db.nodes@[i as int] == nodes[i as int]);
        if is_overdue(&db.nodes[i], now.text.as_str()) {
            out.push(copy_node(&db.nodes[i]));
            let n = &mut db.nodes[i];
            n.schedulable = true;
            n.maintenance = false;
            n.drain_mode = String::new();
            n.drain_reason = String::new();
            n.drain_deadline = None;
            n.updated_at = text::copy_of(now.text.as_str());
        }
        i += 1;
    }
    assert(nodes.take(nodes.len() as int) =~= nodes);
    let ghost swept = *db;
    let ghost count = before.events@.len();
    let mut k: usize = 0;
    while k < out.len()
        invariant
            k <= out@.len() <= nodes.len(),
            count == before.events@.len(),
            before.next_event + nodes.len() <= i64::MAX,
            *db == (Cluster {
                events: db.events,
                next_event: (before.next_event + k) as i64,
                ..swept
            }),
            db.events@.len() == count + k,
            db.events@.take(count as int) == before.events@,
            forall|j: int|
                0 <= j < k ==> is_drain_event(
                    #[trigger] db.events@[count + j],
                    before.next_event + j,
                    out@[j],
                    now.text@,
                ),
        decreases out.len() - k,
    {
        let ghost earlier = db.events@;
        let payload = Json::object().insert("mode", Json::text(out[k].drain_mode.as_str()));
        let payload = payload.insert("deadline", Json::optional(&out[k].drain_deadline));
        record_event(
            db,
            out[k].id,
            text::copy_of("info"),
            text::copy_of("drain_expired"),
            text::copy_of("drain deadline reached; drain lifted and scheduling restored"),
            payload,
            text::copy_of(now.text.as_str()),
        );
        proof {
            assert(db.events@.take(count as int) =~= earlier.take(count as int));
            assert forall|j: int| 0 <= j < k + 1 implies is_drain_event(
                #[trigger] db.events@[count + j],
                before.next_event + j,
                out@[j],
                now.text@,
            ) by {
                if j < k {
                    assert(db.events@[count + j] == earlier[count + j]);
                }
            }
        }
        k += 1;
    }
    out
}

/// A node in a listing.
pub struct Listed<'a> {
    pub node: &'a Node,
}

impl<'a> Ranked for Listed<'a> {
    open spec fn may_precede(&self, other: &Self) -> bool {
        text::lex_le(self.node.name@, other.node.name@)
    }

    fn precedes(&self, other: &Self) -> (r: bool) {
        let a = text::chars_of(self.node.name.as_str());
        let b = text::chars_of(other.node.name.as_str());
        text::not_after(a.as_slice(), b.as_slice())
    }
}

/// The nodes as they stand, each in a listing.
pub open spec fn listing(nodes: Seq<Node>) -> Seq<Listed<'static>> {
    Seq::new(nodes.len(), |i: int| Listed { node: &nodes[i] })
}

/// The nodes by name.
pub fn list(db: &Cluster) -> (r: Vec<Listed<'_>>)
    ensures
        r@ == order::sorted(listing(db.nodes@)),
{
    let mut out: Vec<Listed<'_>> = Vec::new();
    let mut i: usize = 0;
    while i < db.nodes.len()
        invariant
            i <= db.nodes.len(),
            out@ == listing(db.nodes@).take(i as int),
        decreases db.nodes.len() - i,
    {
        out.push(Listed { node: &db.nodes[i] });
        i += 1;
        assert(out@ =~= listing(db.nodes@).take(i as int));
    }
    assert(out@ =~= listing(db.nodes@));
    order::sort(out)
}

/// A node in drain is never selected, whatever a server asks for.
pub proof fn law_drained_node_is_never_selected(
    n: Node,
    m: Node,
    mode: String,
    reason: String,
    deadline: Option<String>,
    text: Seq<char>,
    online: bool,
    demand: Demand,
    rs: Seq<Reservation>,
    now: int,
)
    requires
        drained(n, m, mode, reason, deadline, text),
    ensures
        !eligible(m, online, demand, rs, now),
{
}

/// Lifting a drain undoes it: a node that took servers before has the state that
/// it had, but for the time of the change.
pub proof fn law_lifting_undoes_a_drain(
    n: Node,
    m: Node,
    k: Node,
    mode: String,
    reason: String,
    deadline: Option<String>,
    then: Seq<char>,
    now: Seq<char>,
)
    requires
        n.schedulable && !n.maintenance,
        n.drain_mode@.len() == 0 && n.drain_reason@.len() == 0 && n.drain_deadline is None,
        drained(n, m, mode, reason, deadline, then),
        mode@.len() > 0,
        lifted(m, k, now),
    ensures
        k == (Node {
            drain_mode: k.drain_mode,
            drain_reason: k.drain_reason,
            updated_at: k.updated_at,
            ..n
        }),
        k.drain_mode@ == n.drain_mode@,
        k.drain_reason@ == n.drain_reason@,
{
}

/// A lifted drain is not lifted again, and one without a deadline never is.
pub proof fn law_lifted_drain_stays_lifted(n: Node, m: Node, then: Seq<char>, now: Seq<char>)
    ensures
        lifted(n, m, then) ==> !overdue(now)(m),
        n.drain_deadline is None ==> !overdue(now)(n),
{
}

proof fn lemma_filter_push<T>(s: Seq<T>, x: T, keep: spec_fn(T) -> bool)
    ensures
        s.push(x).filter(keep) == if keep(x) {
            s.filter(keep).push(x)
        } else {
            s.filter(keep)
        },
{
    assert(s.push(x).drop_last() =~= s);
    reveal(Seq::filter);
}

proof fn lemma_lapsed_do_not_count(rs: Seq<Reservation>, node_id: i64, now: int)
    ensures
        reserved(rs.filter(unlapsed(now)), node_id, now) == reserved(rs, node_id, now),
    decreases rs.len(),
{
    reveal(Seq::filter);
    if rs.len() > 0 {
        lemma_lapsed_do_not_count(rs.drop_last(), node_id, now);
        let kept = rs.drop_last().filter(unlapsed(now));
        if unlapsed(now)(rs.last()) {
            assert(rs.filter(unlapsed(now)) == kept.push(rs.last()));
            assert(kept.push(rs.last()).drop_last() =~= kept);
        }
    }
}

/// Live claims never exceed what a node has left: a claim is granted only where
/// all of them together, the new one with them, still fit.
pub proof fn law_claims_fit_the_node(
    before: Cluster,
    after: Cluster,
    r: Result<(usize, i64), NodeError>,
    demand: Demand,
    online: Seq<bool>,
    loads: Seq<i64>,
    now: int,
)
    requires
        claimed(before, after, r, demand, online, loads, now),
        r is Ok,
        demand.memory_mb > i64::MIN && demand.disk_mb > i64::MIN,
    ensures
        ({
            let n = before.nodes@[(r->Ok_0).0 as int];
            let was = reserved(before.reservations@, n.id, now);
            let is = reserved(after.reservations@, n.id, now);
            &&& is.0 == was.0 + demand.memory_mb && is.0 <= n.memory_left()
            &&& is.1 == was.1 + demand.disk_mb && is.1 <= n.disk_left()
        }),
{
    let n = before.nodes@[(r->Ok_0).0 as int];
    lemma_lapsed_do_not_count(before.reservations@, n.id, now);
    assert(ttl_of(n.cadence as int) >= 120);
    assert(counts(after.reservations@.last(), n.id, now));
}

/// Releasing a claim undoes it: what was reserved before, and has not lapsed, is
/// what is reserved after.
pub proof fn law_release_undoes_a_claim(
    before: Cluster,
    after: Cluster,
    r: Result<(usize, i64), NodeError>,
    demand: Demand,
    online: Seq<bool>,
    loads: Seq<i64>,
    now: int,
)
    requires
        claimed(before, after, r, demand, online, loads, now),
        r is Ok,
        forall|i: int|
            0 <= i < before.reservations@.len() ==> (#[trigger] before.reservations@[i]).id
                < before.next_reservation,
    ensures
        after.reservations@.filter(other_than((r->Ok_0).1)) == before.reservations@.filter(
            unlapsed(now),
        ),
{
    let id = (r->Ok_0).1;
    let live = before.reservations@.filter(unlapsed(now));
    assert(after.reservations@ =~= live.push(after.reservations@.last()));
    lemma_filter_push(live, after.reservations@.last(), other_than(id));
    assert forall|i: int| 0 <= i < live.len() implies other_than(id)(#[trigger] live[i]) by {
        assert(live.contains(live[i]));
        before.reservations@.lemma_filter_contains_rev(unlapsed(now), live[i]);
    }
    lemma_filter_all(live, other_than(id));
}

proof fn lemma_filter_all<T>(s: Seq<T>, keep: spec_fn(T) -> bool)
    requires
        forall|i: int| 0 <= i < s.len() ==> keep(#[trigger] s[i]),
    ensures
        s.filter(keep) == s,
    decreases s.len(),
{
    reveal(Seq::filter);
    if s.len() > 0 {
        assert forall|i: int| 0 <= i < s.drop_last().len() implies keep(
            #[trigger] s.drop_last()[i],
        ) by {
            assert(s.drop_last()[i] == s[i]);
        }
        lemma_filter_all(s.drop_last(), keep);
        assert(s.drop_last().push(s.last()) =~= s);
    }
}

/// Releasing a claim again changes nothing.
pub proof fn law_release_is_idempotent(rs: Seq<Reservation>, id: i64)
    ensures
        rs.filter(other_than(id)).filter(other_than(id)) == rs.filter(other_than(id)),
{
    let once = rs.filter(other_than(id));
    assert forall|i: int| 0 <= i < once.len() implies other_than(id)(#[trigger] once[i]) by {
        rs.lemma_filter_pred(other_than(id), i);
    }
    lemma_filter_all(once, other_than(id));
}

proof fn lemma_none_found(nodes: Seq<Node>, kind: spec_fn(Node) -> bool)
    requires
        forall|j: int| 0 <= j < nodes.len() ==> !kind(#[trigger] nodes[j]),
    ensures
        found(nodes, kind) is None,
{
    lemma_found(nodes, kind, nodes.len() as int);
}

/// A change that leaves every node its standing brings back no token, enrolls no
/// node, and keeps identities apart.
pub proof fn law_undisturbed_cluster_stays_distinct(before: Cluster, after: Cluster)
    requires
        undisturbed(before, after),
    ensures
        carries(before, after, None, None),
        distinct(before) ==> distinct(after),
{
    assert forall|token: Seq<char>| unheld(before.nodes@, token) implies #[trigger] unheld(
        after.nodes@,
        token,
    ) by {
        assert forall|i: int|
            0 <= i < after.nodes@.len() && (
            #[trigger] after.nodes@[i]).enrollment_token is Some implies after.nodes@[i].enrollment_token->0@
            != token by {
            assert(same_standing(before.nodes@[i], after.nodes@[i]));
        }
    }
    assert forall|uuid: Seq<char>| detached(before.nodes@, uuid) implies #[trigger] detached(
        after.nodes@,
        uuid,
    ) by {
        assert forall|i: int|
            0 <= i < after.nodes@.len() && (
            #[trigger] after.nodes@[i]).uuid@ == uuid implies !after.nodes@[i].enrolled by {
            assert(same_standing(before.nodes@[i], after.nodes@[i]));
        }
    }
    if distinct(before) {
        assert forall|i: int, j: int| 0 <= i < j < after.nodes@.len() implies apart(
            #[trigger] after.nodes@[i],
            #[trigger] after.nodes@[j],
        ) by {
            assert(same_standing(before.nodes@[i], after.nodes@[i]));
            assert(same_standing(before.nodes@[j], after.nodes@[j]));
            assert(apart(before.nodes@[i], before.nodes@[j]));
        }
    }
}

/// Whether each state of the cluster came out of the one before, with what was
/// minted and who joined on the way.
pub open spec fn is_history(
    states: Seq<Cluster>,
    minted: Seq<Option<Seq<char>>>,
    joined: Seq<Option<Seq<char>>>,
) -> bool {
    &&& states.len() > 0
    &&& minted.len() == states.len() - 1
    &&& joined.len() == states.len() - 1
    &&& forall|k: int|
        0 <= k < minted.len() ==> carries(
            states[k],
            states[k + 1],
            #[trigger] minted[k],
            #[trigger] joined[k],
        )
}

proof fn lemma_history(
    states: Seq<Cluster>,
    minted: Seq<Option<Seq<char>>>,
    joined: Seq<Option<Seq<char>>>,
    token: Seq<char>,
    uuid: Seq<char>,
)
    requires
        is_history(states, minted, joined),
    ensures
        unheld(states[0].nodes@, token) && !minted.contains(Some(token)) ==> unheld(
            states.last().nodes@,
            token,
        ),
        detached(states[0].nodes@, uuid) && !joined.contains(Some(uuid)) ==> detached(
            states.last().nodes@,
            uuid,
        ),
    decreases states.len(),
{
    if states.len() > 1 {
        let k = states.len() - 2;
        let (earlier, m, j) = (states.drop_last(), minted.drop_last(), joined.drop_last());
        assert forall|q: int| 0 <= q < m.len() implies carries(
            earlier[q],
            earlier[q + 1],
            #[trigger] m[q],
            #[trigger] j[q],
        ) by {
            assert(carries(states[q], states[q + 1], minted[q], joined[q]));
        }
        lemma_history(earlier, m, j, token, uuid);
        assert(carries(states[k], states[k + 1], minted[k], joined[k]));
        if m.contains(Some(token)) {
            let q = choose|q: int| 0 <= q < m.len() && m[q] == Some(token);
            assert(minted[q] == Some(token));
        }
        if j.contains(Some(uuid)) {
            let q = choose|q: int| 0 <= q < j.len() && j[q] == Some(uuid);
            assert(joined[q] == Some(uuid));
        }
    }
}

/// An enrollment token works once: after it was used, whatever happens to the
/// cluster, it opens no node, with whatever certificate, unless the same one is
/// minted again.
pub proof fn law_token_works_once(
    before: Cluster,
    i: int,
    heartbeat: NodeHeartbeat,
    secret: String,
    now: Seq<char>,
    token: Seq<char>,
    states: Seq<Cluster>,
    minted: Seq<Option<Seq<char>>>,
    joined: Seq<Option<Seq<char>>>,
    presented: Seq<char>,
)
    requires
        distinct(before),
        found(before.nodes@, opened_by(token, normalized(heartbeat.tls_fingerprint@))) == Some(i),
        is_history(states, minted, joined),
        only_node(before, states[0], i),
        enrolled_as(before.nodes@[i], states[0].nodes@[i], heartbeat, secret, now),
        !minted.contains(Some(token)),
    ensures
        unheld(states.last().nodes@, token),
        found(states.last().nodes@, opened_by(token, presented)) is None,
{
    let after = states[0];
    lemma_found_is(before.nodes@, opened_by(token, normalized(heartbeat.tls_fingerprint@)));
    assert forall|j: int|
        0 <= j < after.nodes@.len() && (
        #[trigger] after.nodes@[j]).enrollment_token is Some implies after.nodes@[j].enrollment_token->0@
        != token by {
        if j < i {
            assert(apart(before.nodes@[j], before.nodes@[i]));
        } else if j > i {
            assert(apart(before.nodes@[i], before.nodes@[j]));
        }
    }
    lemma_history(states, minted, joined, token, Seq::empty());
    let last = states.last().nodes@;
    assert forall|j: int| 0 <= j < last.len() implies !opened_by(token, presented)(
        #[trigger] last[j],
    ) by {}
    lemma_none_found(last, opened_by(token, presented));
}

/// An enrollment uses up the token, pins what was presented, and puts the minted
/// secret in place of the old one.
pub proof fn law_enrollment_replaces_the_secret(
    n: Node,
    m: Node,
    heartbeat: NodeHeartbeat,
    secret: String,
    now: Seq<char>,
)
    requires
        enrolled_as(n, m, heartbeat, secret, now),
    ensures
        m.enrolled,
        m.enrollment_token is None,
        m.secret == secret,
        secret@ != n.secret@ ==> m.secret@ != n.secret@,
        m.tls_fingerprint@ == normalized(heartbeat.tls_fingerprint@),
        m.expected_fingerprint == n.expected_fingerprint,
{
}

/// A rotated node is cut off until it enrolls again: no heartbeat of it is taken
/// and it is not online. The minted secret and token replace the old ones; who may
/// enroll it stays the same.
pub proof fn law_rotation_detaches_a_node(
    n: Node,
    m: Node,
    secret: String,
    token: String,
    text: Seq<char>,
    uuid: Seq<char>,
    presented: Seq<char>,
    now: int,
)
    requires
        rotated(n, m, secret, token, text),
    ensures
        !enrolled_with_uuid(uuid)(m),
        !m.is_online(now),
        admits(m, presented) == admits(n, presented),
        opened_by(token@, presented)(m) == admits(n, presented),
        m.secret == secret,
        secret@ != n.secret@ ==> m.secret@ != n.secret@,
        m.enrollment_token == Some(token),
        m.last_heartbeat is None,
        m.tls_fingerprint == n.tls_fingerprint,
        m.expected_fingerprint == n.expected_fingerprint,
{
}

/// A node whose secret was rotated stays cut off, whatever else happens to the
/// cluster, until it enrolls again: no heartbeat of it is taken, and it is not
/// online.
pub proof fn law_rotated_node_stays_cut_off(
    before: Cluster,
    i: int,
    secret: String,
    token: String,
    text: Seq<char>,
    states: Seq<Cluster>,
    minted: Seq<Option<Seq<char>>>,
    joined: Seq<Option<Seq<char>>>,
    j: int,
    now: int,
)
    requires
        distinct(before),
        is_history(states, minted, joined),
        only_node(before, states[0], i),
        rotated(before.nodes@[i], states[0].nodes@[i], secret, token, text),
        !joined.contains(Some(before.nodes@[i].uuid@)),
    ensures
        found(states.last().nodes@, enrolled_with_uuid(before.nodes@[i].uuid@)) is None,
        0 <= j < states.last().nodes@.len() && states.last().nodes@[j].uuid@
            == before.nodes@[i].uuid@ ==> !states.last().nodes@[j].is_online(now),
{
    let uuid = before.nodes@[i].uuid@;
    let after = states[0];
    assert forall|k: int|
        0 <= k < after.nodes@.len() && (
        #[trigger] after.nodes@[k]).uuid@ == uuid implies !after.nodes@[k].enrolled by {
        if k < i {
            assert(apart(before.nodes@[k], before.nodes@[i]));
        } else if k > i {
            assert(apart(before.nodes@[i], before.nodes@[k]));
        }
    }
    lemma_history(states, minted, joined, Seq::empty(), uuid);
    let last = states.last().nodes@;
    assert forall|k: int| 0 <= k < last.len() implies !enrolled_with_uuid(uuid)(
        #[trigger] last[k],
    ) by {}
    lemma_none_found(last, enrolled_with_uuid(uuid));
}

/// A declared identity gates every enrollment: who presents neither a pinned nor
/// the declared certificate is refused with any token. Where nothing is pinned,
/// only the declared one enrolls.
pub proof fn law_declared_identity_gates_enrollment(
    n: Node,
    token: Seq<char>,
    presented: Seq<char>,
)
    requires
        n.expected_fingerprint@.len() > 0,
        presented != n.expected_fingerprint@,
        n.tls_fingerprint@.len() > 0 ==> presented != n.tls_fingerprint@,
    ensures
        !opened_by(token, presented)(n),
{
}

/// What an enrollment pins is empty or a digest of 64 hexadecimal digits.
pub proof fn law_pin_is_empty_or_a_digest(
    n: Node,
    m: Node,
    heartbeat: NodeHeartbeat,
    secret: String,
    now: Seq<char>,
)
    requires
        enrolled_as(n, m, heartbeat, secret, now),
        pinnable(heartbeat.tls_fingerprint@),
    ensures
        m.tls_fingerprint@.len() == 0 || is_fingerprint(m.tls_fingerprint@),
{
}

} // verus!
