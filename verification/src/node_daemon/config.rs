//! Configuration of the agent, and the paths and limits that follow from it.
use crate::node_daemon::error::DaemonError;
use crate::paths;
use crate::services::pull::Ip;
use crate::text;
use vstd::prelude::*;
use vstd::string::*;

verus! {

/// Seconds before the first automatic restart of a crashed server.
pub const RESTART_BACKOFF_BASE_SECS: u64 = 5;

/// Seconds before an automatic restart at most.
pub const RESTART_BACKOFF_MAX_SECS: u64 = 120;

/// Configuration of the agent.
#[derive(Debug, Clone)]
pub struct DaemonConfig {
    pub listen: String,
    pub data_dir: String,
    pub panel_url: String,
    /// URL that the panel dials this node on.
    pub public_url: String,
    pub node_id: String,
    pub secret: String,
    pub heartbeat_interval_secs: u64,
    pub max_upload_mb: u64,
    /// Whether the agent speaks plain HTTP.
    pub plaintext: bool,
    /// Fingerprint of the panel's certificate; empty where it is publicly
    /// trusted.
    pub panel_fingerprint: String,
    /// Whether plain HTTP may be spoken beyond the loopback interface.
    pub allow_http_bind: bool,
}

impl Default for DaemonConfig {
    fn default() -> (r: DaemonConfig)
        ensures
            r.listen@ == "0.0.0.0:8081"@,
            r.data_dir@ == "./voltd-data"@,
            r.panel_url@.len() == 0,
            r.public_url@.len() == 0,
            r.node_id@.len() == 0,
            r.secret@.len() == 0,
            r.heartbeat_interval_secs == 15,
            r.max_upload_mb == 256,
            !r.plaintext,
            r.panel_fingerprint@.len() == 0,
            !r.allow_http_bind,
    {
        DaemonConfig {
            listen: text::copy_of("0.0.0.0:8081"),
            data_dir: text::copy_of("./voltd-data"),
            panel_url: String::new(),
            public_url: String::new(),
            node_id: String::new(),
            secret: String::new(),
            heartbeat_interval_secs: 15,
            max_upload_mb: 256,
            plaintext: false,
            panel_fingerprint: String::new(),
            allow_http_bind: false,
        }
    }
}

/// Whether a text can be the uuid of a server: one to 64 letters, digits,
/// hyphens and underscores of ASCII.
pub open spec fn is_server_uuid(s: Seq<char>) -> bool {
    &&& 1 <= s.len() <= 64
    &&& forall|i: int|
        0 <= i < s.len() ==> text::is_alnum(#[trigger] s[i]) || s[i] == '-' || s[i] == '_'
}

/// Refuses what cannot be the uuid of a server.
pub fn validate_uuid(uuid: &str) -> (r: Result<(), DaemonError>)
    ensures
        match r {
            Ok(_) => is_server_uuid(uuid@),
            Err(e) => !is_server_uuid(uuid@) && e is InvalidUuid,
        },
{
    let cs = text::chars_of(uuid);
    if cs.len() == 0 || cs.len() > 64 {
        return Err(DaemonError::InvalidUuid);
    }
    let mut i: usize = 0;
    while i < cs.len()
        invariant
            i <= cs.len(),
            cs@ == uuid@,
            forall|j: int|
                0 <= j < i ==> text::is_alnum(#[trigger] cs@[j]) || cs@[j] == '-' || cs@[j] == '_',
        decreases cs.len() - i,
    {
        let c = cs[i];
        if !(text::is_ascii_alnum(c) || c == '-' || c == '_') {
            assert(!(text::is_alnum(uuid@[i as int]) || uuid@[i as int] == '-' || uuid@[i as int]
                == '_'));
            return Err(DaemonError::InvalidUuid);
        }
        i += 1;
    }
    Ok(())
}

impl DaemonConfig {
    /// Where the files of the servers lie.
    pub open spec fn servers(self) -> Seq<char> {
        paths::joined(self.data_dir@, "servers"@)
    }

    /// Where the files of the servers lie.
    pub fn servers_dir(&self) -> (r: String)
        ensures
            r@ == self.servers(),
    {
        paths::join(self.data_dir.as_str(), "servers")
    }

    /// Where the logs lie.
    pub fn logs_dir(&self) -> (r: String)
        ensures
            r@ == paths::joined(self.data_dir@, "logs"@),
    {
        paths::join(self.data_dir.as_str(), "logs")
    }

    /// Where the descriptions of the servers lie.
    pub fn meta_dir(&self) -> (r: String)
        ensures
            r@ == paths::joined(self.data_dir@, "meta"@),
    {
        paths::join(self.data_dir.as_str(), "meta")
    }

    /// Where the agent's certificate lies.
    pub fn tls_dir(&self) -> (r: String)
        ensures
            r@ == paths::joined(self.data_dir@, "tls"@),
    {
        paths::join(self.data_dir.as_str(), "tls")
    }

    /// The directories that must be there, for the agent's user alone.
    pub fn ensure_dirs(&self) -> (r: Vec<String>)
        ensures
            text::views(r@) == seq![
                self.data_dir@,
                self.servers(),
                paths::joined(self.data_dir@, "logs"@),
                paths::joined(self.data_dir@, "meta"@),
            ],
    {
        let mut out: Vec<String> = Vec::new();
        out.push(text::copy_of(self.data_dir.as_str()));
        out.push(self.servers_dir());
        out.push(self.logs_dir());
        out.push(self.meta_dir());
        assert(text::views(out@) =~= seq![
            self.data_dir@,
            self.servers(),
            paths::joined(self.data_dir@, "logs"@),
            paths::joined(self.data_dir@, "meta"@),
        ]);
        out
    }

    /// Where the files of one server lie.
    pub fn server_root(&self, uuid: &str) -> (r: Result<String, DaemonError>)
        ensures
            match r {
                Ok(s) => is_server_uuid(uuid@) && s@ == paths::joined(self.servers(), uuid@),
                Err(e) => !is_server_uuid(uuid@) && e is InvalidUuid,
            },
    {
        match validate_uuid(uuid) {
            Ok(()) => Ok(paths::join(self.servers_dir().as_str(), uuid)),
            Err(e) => Err(e),
        }
    }

    /// Where the description of one server lies.
    pub fn spec_path(&self, uuid: &str) -> (r: String)
        ensures
            r@ == paths::joined(paths::joined(self.data_dir@, "meta"@), uuid@ + ".json"@),
    {
        let mut name = text::copy_of(uuid);
        name.append(".json");
        paths::join(self.meta_dir().as_str(), name.as_str())
    }

    /// Whether the upload limit can be counted in bytes.
    pub open spec fn countable(self) -> bool {
        self.max_upload_mb * 1_048_576 <= u64::MAX
    }

    /// The upload limit in bytes.
    pub fn max_upload_bytes(&self) -> (r: u64)
        requires
            self.countable(),
        ensures
            r == self.max_upload_mb * 1_048_576,
    {
        self.max_upload_mb * 1_048_576
    }
}

/// The files of a server lie below the directory for them, one level down.
pub proof fn law_server_root_is_confined(cfg: DaemonConfig, uuid: Seq<char>)
    requires
        is_server_uuid(uuid),
    ensures
        paths::is_within(paths::joined(cfg.servers(), uuid), cfg.servers()),
        paths::parts(paths::joined(cfg.servers(), uuid)) == paths::parts(cfg.servers()).push(uuid),
{
    assert(!paths::has_root(uuid)) by {
        assert(text::is_alnum(uuid[0]) || uuid[0] == '-' || uuid[0] == '_');
    }
    paths::lemma_joined_within(cfg.servers(), uuid);
    paths::lemma_joined_parts(cfg.servers(), uuid);
    assert(!text::mentions(uuid, '/')) by {
        assert forall|i: int| 0 <= i < uuid.len() implies uuid[i] != '/' by {
            assert(text::is_alnum(uuid[i]) || uuid[i] == '-' || uuid[i] == '_');
        }
    }
    assert(uuid != seq!['.']) by {
        assert(text::is_alnum(uuid[0]) || uuid[0] == '-' || uuid[0] == '_');
    }
    let one = seq![uuid];
    assert(paths::all_count(one));
    assert(text::joined(one, seq!['/']) =~= uuid) by {
        reveal_with_fuel(text::joined, 2);
    }
    paths::lemma_path_text(false, one);
    assert(paths::parts(uuid) =~= one);
    assert(paths::parts(cfg.servers()) + one =~= paths::parts(cfg.servers()).push(uuid));
}

/// Seconds before an automatic restart: twice as long each time, up to a bound.
pub open spec fn backoff(attempt: int) -> int {
    if attempt <= 1 {
        5
    } else if attempt == 2 {
        10
    } else if attempt == 3 {
        20
    } else if attempt == 4 {
        40
    } else if attempt == 5 {
        80
    } else {
        120
    }
}

/// Seconds before the automatic restart of this count.
pub fn restart_backoff(attempt: u64) -> (r: u64)
    ensures
        r == backoff(attempt as int),
{
    let mut secs: u64 = RESTART_BACKOFF_BASE_SECS;
    let mut n: u64 = 1;
    while n < attempt && secs < RESTART_BACKOFF_MAX_SECS
        invariant
            1 <= n,
            n <= attempt || attempt == 0,
            attempt == 0 ==> n == 1,
            secs == backoff(n as int),
        decreases 7 - n,
    {
        let twice: u64 = secs * 2;
        secs = if twice > RESTART_BACKOFF_MAX_SECS {
            RESTART_BACKOFF_MAX_SECS
        } else {
            twice
        };
        n += 1;
    }
    secs
}

/// The wait before a restart never shrinks with the count, doubles until it is
/// bounded, and is bounded.
pub proof fn law_backoff_grows_to_its_bound(attempt: int)
    ensures
        backoff(attempt) <= backoff(attempt + 1) <= RESTART_BACKOFF_MAX_SECS,
        1 <= attempt <= 4 ==> backoff(attempt + 1) == 2 * backoff(attempt),
        backoff(attempt) >= RESTART_BACKOFF_BASE_SECS,
{
}

/// Whether an address is one of the loopback interface.
pub open spec fn is_loopback(ip: Ip) -> bool {
    match ip {
        Ip::V4(a, _, _, _) => a == 127,
        Ip::V6(s) => s@ == seq![0u16, 0, 0, 0, 0, 0, 0, 1],
    }
}

/// Whether an address is one of the loopback interface.
pub fn ip_is_loopback(ip: &Ip) -> (r: bool)
    ensures
        r == is_loopback(*ip),
{
    match ip {
        Ip::V4(a, _, _, _) => *a == 127,
        Ip::V6(s) => {
            let r = s[0] == 0 && s[1] == 0 && s[2] == 0 && s[3] == 0 && s[4] == 0 && s[5] == 0
                && s[6] == 0 && s[7] == 1;
            assert(r ==> s@ =~= seq![0u16, 0, 0, 0, 0, 0, 0, 1]);
            r
        },
    }
}

/// What stands before the last colon of a text; all of it where there is none.
pub open spec fn before_colon(s: Seq<char>) -> Seq<char>
    decreases s.len(),
{
    if !text::mentions(s, ':') {
        s
    } else if s.last() == ':' {
        s.drop_last()
    } else {
        before_colon(s.drop_last())
    }
}

/// A text without the brackets that open it.
pub open spec fn unopened(s: Seq<char>) -> Seq<char>
    decreases s.len(),
{
    if s.len() > 0 && s[0] == '[' {
        unopened(s.drop_first())
    } else {
        s
    }
}

/// A text without the brackets that close it.
pub open spec fn unclosed(s: Seq<char>) -> Seq<char>
    decreases s.len(),
{
    if s.len() > 0 && s.last() == ']' {
        unclosed(s.drop_last())
    } else {
        s
    }
}

/// The host of a listening address.
pub open spec fn host_part(listen: Seq<char>) -> Seq<char> {
    unclosed(unopened(before_colon(listen)))
}

/// The host of a listening address: what stands before its last colon, without
/// brackets around it.
pub fn listen_host(listen: &str) -> (r: String)
    ensures
        r@ == host_part(listen@),
{
    let cs = text::chars_of(listen);
    let mut end: usize = cs.len();
    if text::contains_char(cs.as_slice(), ':') {
        assert(cs@.take(end as int) =~= cs@);
        while end > 0 && cs[end - 1] != ':'
            invariant
                end <= cs@.len(),
                text::mentions(cs@.take(end as int), ':'),
                before_colon(cs@.take(end as int)) == before_colon(cs@),
            decreases end,
        {
            let ghost now = cs@.take(end as int);
            assert(now.drop_last() =~= cs@.take(end - 1));
            assert(text::mentions(cs@.take(end - 1), ':')) by {
                let i = choose|i: int| 0 <= i < now.len() && now[i] == ':';
                assert(cs@.take(end - 1)[i] == ':');
            }
            end -= 1;
        }
        if end > 0 {
            assert(cs@.take(end as int).drop_last() =~= cs@.take(end - 1));
            end -= 1;
        }
    } else {
        assert(cs@.take(end as int) =~= cs@);
    }
    let ghost head = cs@.take(end as int);
    assert(head == before_colon(cs@));
    let mut start: usize = 0;
    assert(head.skip(0) =~= head);
    while start < end && cs[start] == '['
        invariant
            start <= end <= cs@.len(),
            head == cs@.take(end as int),
            unopened(head.skip(start as int)) == unopened(head),
        decreases end - start,
    {
        assert(head.skip(start as int).drop_first() =~= head.skip(start + 1));
        start += 1;
    }
    let ghost tail = head.skip(start as int);
    assert(tail == unopened(head));
    let mut stop: usize = end;
    assert(tail =~= cs@.subrange(start as int, stop as int));
    while stop > start && cs[stop - 1] == ']'
        invariant
            start <= stop <= end <= cs@.len(),
            unclosed(cs@.subrange(start as int, stop as int)) == unclosed(tail),
        decreases stop,
    {
        assert(cs@.subrange(start as int, stop as int).drop_last() =~= cs@.subrange(
            start as int,
            stop - 1,
        ));
        stop -= 1;
    }
    text::string_of(vstd::slice::slice_subrange(cs.as_slice(), start, stop))
}

/// Whether a listening address lies on the loopback interface, given the address
/// it is as a socket address, if it is one, and the one that its host is.
pub fn listen_is_loopback(listen: &str, addr: &Option<Ip>, host_addr: &Option<Ip>) -> (r: bool)
    ensures
        r == match *addr {
            Some(ip) => is_loopback(ip),
            None => text::lowered(host_part(listen@)) == "localhost"@ || match *host_addr {
                Some(ip) => is_loopback(ip),
                None => false,
            },
        },
{
    match addr {
        Some(ip) => ip_is_loopback(ip),
        None => {
            let host = text::chars_of(listen_host(listen).as_str());
            let low = text::to_lower(host.as_slice());
            if text::same(text::string_of(low.as_slice()).as_str(), "localhost") {
                return true;
            }
            match host_addr {
                Some(ip) => ip_is_loopback(ip),
                None => false,
            }
        },
    }
}

} // verus!
