//! Remote pulls: which sources are allowed, how a transfer runs, and the
//! registry of transfers.
use crate::encoding;
use crate::node_protocol;
use crate::node_protocol::FileWriteRequest;
use crate::paths;
use crate::services::files;
use crate::services::files::Place;
use crate::text;
use vstd::prelude::*;
use vstd::string::*;

verus! {

/// Redirects that a transfer follows at most.
pub const PULL_MAX_REDIRECTS: usize = 5;

/// How long a finished transfer stays in the registry, in nanoseconds.
pub const PULL_TRANSFER_TTL: u64 = 3_600_000_000_000;

/// Bytes of a mebibyte.
pub const MIB: u64 = 1024 * 1024;

/// Why a pull was refused or stopped.
#[derive(Debug, Clone)]
pub enum PullError {
    InvalidUrl { reason: String },
    Scheme { scheme: String },
    NoHost,
    BlockedHost { host: String },
    Unresolved { host: String },
    NoAddresses { host: String },
    /// The address at `index` of a resolution is blocked.
    BlockedAddress { host: String, index: usize },
    NoLocation { status: u16 },
    UnreadableLocation,
    InvalidRedirect { reason: String },
    Status { status: u16 },
    TooLarge { mib: u64 },
    TooManyRedirects,
    Cancelled,
    NoName,
    SymlinkDestination,
}

/// A text between two others.
fn around(before: &str, inner: &str, behind: &str) -> (r: String)
    ensures
        r@ == before@ + inner@ + behind@,
{
    let mut s = text::copy_of(before);
    s.append(inner);
    s.append(behind);
    s
}

/// A number between two texts.
fn around_number(before: &str, n: u64, behind: &str) -> (r: String)
    ensures
        r@ == before@ + text::decimal(n as int) + behind@,
{
    let digits = text::string_of(text::decimal_u64(n).as_slice());
    around(before, digits.as_str(), behind)
}

impl PullError {
    /// The message of a refusal.
    pub open spec fn text_of(self) -> Seq<char> {
        match self {
            PullError::InvalidUrl { reason } => "invalid pull URL: "@ + reason@,
            PullError::Scheme { scheme } => "pull URL scheme '"@ + scheme@
                + "' is not allowed (http/https only)"@,
            PullError::NoHost => "pull URL has no host"@,
            PullError::BlockedHost { host } => "pull URL host "@ + host@
                + " is a blocked address"@,
            PullError::Unresolved { host } => "pull URL host '"@ + host@
                + "' could not be resolved"@,
            PullError::NoAddresses { host } => "pull URL host '"@ + host@
                + "' resolved to no addresses"@,
            PullError::BlockedAddress { host, .. } => "pull URL host '"@ + host@
                + "' resolves to a blocked address"@,
            PullError::NoLocation { status } => "pull redirect (HTTP "@ + text::decimal(
                status as int,
            ) + ") without a Location header"@,
            PullError::UnreadableLocation => "pull redirect with an unreadable Location header"@,
            PullError::InvalidRedirect { reason } => "pull redirect to an invalid URL: "@
                + reason@,
            PullError::Status { status } => "pull failed: HTTP "@ + text::decimal(status as int),
            PullError::TooLarge { mib } => "remote file exceeds the "@ + text::decimal(mib as int)
                + " MiB pull limit"@,
            PullError::TooManyRedirects => "pull exceeded 5 redirects"@,
            PullError::Cancelled => "transfer cancelled"@,
            PullError::NoName => "pull destination has no file name"@,
            PullError::SymlinkDestination => "pull destination is a symlink"@,
        }
    }

    /// The message of a refusal.
    pub fn message(&self) -> (r: String)
        ensures
            r@ == self.text_of(),
    {
        let r = match self {
            PullError::InvalidUrl { reason } => around("invalid pull URL: ", reason.as_str(), ""),
            PullError::Scheme { scheme } => around(
                "pull URL scheme '",
                scheme.as_str(),
                "' is not allowed (http/https only)",
            ),
            PullError::NoHost => text::copy_of("pull URL has no host"),
            PullError::BlockedHost { host } => around(
                "pull URL host ",
                host.as_str(),
                " is a blocked address",
            ),
            PullError::Unresolved { host } => around(
                "pull URL host '",
                host.as_str(),
                "' could not be resolved",
            ),
            PullError::NoAddresses { host } => around(
                "pull URL host '",
                host.as_str(),
                "' resolved to no addresses",
            ),
            PullError::BlockedAddress { host, .. } => around(
                "pull URL host '",
                host.as_str(),
                "' resolves to a blocked address",
            ),
            PullError::NoLocation { status } => around_number(
                "pull redirect (HTTP ",
                *status as u64,
                ") without a Location header",
            ),
            PullError::UnreadableLocation => text::copy_of(
                "pull redirect with an unreadable Location header",
            ),
            PullError::InvalidRedirect { reason } => around(
                "pull redirect to an invalid URL: ",
                reason.as_str(),
                "",
            ),
            PullError::Status { status } => around_number("pull failed: HTTP ", *status as u64, ""),
            PullError::TooLarge { mib } => around_number(
                "remote file exceeds the ",
                *mib,
                " MiB pull limit",
            ),
            PullError::TooManyRedirects => text::copy_of("pull exceeded 5 redirects"),
            PullError::Cancelled => text::copy_of("transfer cancelled"),
            PullError::NoName => text::copy_of("pull destination has no file name"),
            PullError::SymlinkDestination => text::copy_of("pull destination is a symlink"),
        };
        proof {
            reveal_strlit("");
            assert(r@ =~= self.text_of());
        }
        r
    }
}

/// A network address.
#[derive(Debug, Clone, Copy)]
pub enum Ip {
    V4(u8, u8, u8, u8),
    V6([u16; 8]),
}

/// Whether an IPv4 address must never be pulled from: loopback, private,
/// link-local, multicast, documentation, shared, benchmark and reserved ranges.
pub open spec fn v4_blocked(a: u8, b: u8, c: u8) -> bool {
    ||| a == 0
    ||| a == 10
    ||| a == 127
    ||| a >= 224
    ||| a == 100 && 64 <= b <= 127
    ||| a == 169 && b == 254
    ||| a == 172 && 16 <= b <= 31
    ||| a == 192 && b == 0 && (c == 0 || c == 2)
    ||| a == 192 && b == 168
    ||| a == 198 && (b == 18 || b == 19)
    ||| a == 198 && b == 51 && c == 100
    ||| a == 203 && b == 0 && c == 113
}

/// Whether an IPv6 address stands for an IPv4 one.
pub open spec fn is_mapped(s: Seq<u16>) -> bool {
    s[0] == 0 && s[1] == 0 && s[2] == 0 && s[3] == 0 && s[4] == 0 && s[5] == 0xffff
}

/// Whether an address must never be pulled from. An IPv6 address that stands for
/// an IPv4 one is judged as that.
pub open spec fn blocked(ip: Ip) -> bool {
    match ip {
        Ip::V4(a, b, c, d) => v4_blocked(a, b, c),
        Ip::V6(w) => {
            let s = w@;
            if is_mapped(s) {
                v4_blocked((s[6] / 256) as u8, (s[6] % 256) as u8, (s[7] / 256) as u8)
            } else {
                ||| s[0] >= 0xff00
                ||| 0xfc00 <= s[0] <= 0xfdff
                ||| 0xfe80 <= s[0] <= 0xfebf
                ||| s[0] == 0x2001 && s[1] == 0x0db8
                ||| s[0] == 0 && s[1] == 0 && s[2] == 0 && s[3] == 0 && s[4] == 0 && s[5] == 0
                    && s[6] == 0 && s[7] <= 1
            }
        },
    }
}

/// Whether an IPv4 address must never be pulled from.
fn v4_is_blocked(a: u8, b: u8, c: u8) -> (r: bool)
    ensures
        r == v4_blocked(a, b, c),
{
    match a {
        0 | 10 | 127 => true,
        100 => b >= 64 && b <= 127,
        169 => b == 254,
        172 => b >= 16 && b <= 31,
        192 => b == 168 || (b == 0 && (c == 0 || c == 2)),
        198 => b == 18 || b == 19 || (b == 51 && c == 100),
        203 => b == 0 && c == 113,
        _ => a >= 224,
    }
}

/// Whether an address must never be pulled from.
pub fn ip_is_blocked(ip: Ip) -> (r: bool)
    ensures
        r == blocked(ip),
{
    match ip {
        Ip::V4(a, b, c, _) => v4_is_blocked(a, b, c),
        Ip::V6(s) => {
            let zeros = s[0] == 0 && s[1] == 0 && s[2] == 0 && s[3] == 0 && s[4] == 0;
            if zeros && s[5] == 0xffff {
                return v4_is_blocked((s[6] / 256) as u8, (s[6] % 256) as u8, (s[7] / 256) as u8);
            }
            s[0] >= 0xff00 || (s[0] >= 0xfc00 && s[0] <= 0xfdff) || (s[0] >= 0xfe80 && s[0]
                <= 0xfebf) || (s[0] == 0x2001 && s[1] == 0x0db8) || (zeros && s[5] == 0 && s[6] == 0
                && s[7] <= 1)
        },
    }
}

/// An IPv4 address cannot get past the rules by being written as an IPv6 one.
pub proof fn law_mapped_address_is_judged_as_v4(a: u8, b: u8, c: u8, d: u8, w: [u16; 8])
    requires
        is_mapped(w@),
        w@[6] == 256 * a + b,
        w@[7] == 256 * c + d,
    ensures
        blocked(Ip::V6(w)) == blocked(Ip::V4(a, b, c, d)),
{
}

/// What `url::Url::parse` makes of a text: the URL as it writes it, or why it is
/// none.
pub uninterp spec fn url_parsed(raw: Seq<char>) -> Result<Seq<char>, Seq<char>>;

/// The scheme of a URL.
pub uninterp spec fn url_scheme(raw: Seq<char>) -> Seq<char>;

/// The host of a URL, as text.
pub uninterp spec fn url_host(raw: Seq<char>) -> Option<Seq<char>>;

/// The bytes of the address that is a URL's host, where it is one.
pub uninterp spec fn url_address(raw: Seq<char>) -> Option<Seq<u8>>;

/// The port of a URL: its own, or the usual one of its scheme.
pub uninterp spec fn url_port(raw: Seq<char>) -> Option<u16>;

/// The last segment of a URL's path.
pub uninterp spec fn url_segment(raw: Seq<char>) -> Option<Seq<char>>;

/// What `url::Url::join` makes of a base and a reference.
pub uninterp spec fn url_joined(base: Seq<char>, location: Seq<char>) -> Result<
    Seq<char>,
    Seq<char>,
>;

/// A text with its percent escapes decoded.
pub uninterp spec fn percent_decoded(s: Seq<char>) -> Seq<char>;

/// `url::Url::parse`: the URL as text, or the reason why it is none.
#[verifier::external_body]
pub(crate) fn parse_url(raw: &str) -> (r: Result<String, String>)
    ensures
        match r {
            Ok(s) => url_parsed(raw@) == Ok::<Seq<char>, Seq<char>>(s@),
            Err(e) => url_parsed(raw@) == Err::<Seq<char>, Seq<char>>(e@),
        },
{
    url::Url::parse(raw).map(|u| u.as_str().to_string()).map_err(|e| e.to_string())
}

/// `url::Url::scheme` of a URL; the empty text of what is none.
#[verifier::external_body]
pub(crate) fn scheme_of(raw: &str) -> (r: String)
    ensures
        r@ == url_scheme(raw@),
{
    url::Url::parse(raw).map(|u| u.scheme().to_string()).unwrap_or_default()
}

/// `url::Url::host_str` of a URL; none of what is no URL.
#[verifier::external_body]
pub(crate) fn host_of(raw: &str) -> (r: Option<String>)
    ensures
        match r {
            Some(s) => url_host(raw@) == Some(s@),
            None => url_host(raw@) is None,
        },
{
    url::Url::parse(raw).ok().and_then(|u| u.host_str().map(|h| h.to_string()))
}

/// `url::Url::host` of a URL, where it is an address: its four or sixteen bytes,
/// the highest first.
#[verifier::external_body]
fn address_of(raw: &str) -> (r: Option<Vec<u8>>)
    ensures
        match r {
            Some(v) => url_address(raw@) == Some(v@) && (v@.len() == 4 || v@.len() == 16),
            None => url_address(raw@) is None,
        },
{
    match url::Url::parse(raw).ok().as_ref().and_then(|u| u.host()) {
        Some(url::Host::Ipv4(ip)) => Some(ip.octets().to_vec()),
        Some(url::Host::Ipv6(ip)) => Some(ip.octets().to_vec()),
        Some(url::Host::Domain(_)) => None,
        None => None,
    }
}

/// `url::Url::port_or_known_default` of a URL; none of what is no URL.
#[verifier::external_body]
fn port_of(raw: &str) -> (r: Option<u16>)
    ensures
        r == url_port(raw@),
{
    url::Url::parse(raw).ok().and_then(|u| u.port_or_known_default())
}

/// The last item of `url::Url::path_segments` of a URL; none of what is no URL.
#[verifier::external_body]
fn segment_of(raw: &str) -> (r: Option<String>)
    ensures
        match r {
            Some(s) => url_segment(raw@) == Some(s@),
            None => url_segment(raw@) is None,
        },
{
    let u = url::Url::parse(raw).ok()?;
    u.path_segments().and_then(|mut s| s.next_back()).map(|s| s.to_string())
}

/// `url::Url::join`: a reference taken relative to a URL.
#[verifier::external_body]
pub(crate) fn join_url(base: &str, location: &str) -> (r: Result<String, String>)
    ensures
        match r {
            Ok(s) => url_joined(base@, location@) == Ok::<Seq<char>, Seq<char>>(s@),
            Err(e) => url_joined(base@, location@) == Err::<Seq<char>, Seq<char>>(e@),
        },
{
    let u = url::Url::parse(base).map_err(|e| e.to_string())?;
    u.join(location).map(|u| u.as_str().to_string()).map_err(|e| e.to_string())
}

/// `percent_encoding::percent_decode_str(..).decode_utf8_lossy()`: a text with its
/// percent escapes decoded.
#[verifier::external_body]
fn percent_decode(s: &str) -> (r: String)
    ensures
        r@ == percent_decoded(s@),
{
    percent_encoding::percent_decode_str(s).decode_utf8_lossy().into_owned()
}

/// The address with these bytes, the highest first.
pub open spec fn ip_with_bytes(v: Seq<u8>, ip: Ip) -> bool {
    match ip {
        Ip::V4(a, b, c, d) => v == seq![a, b, c, d],
        Ip::V6(w) => v.len() == 16 && forall|i: int|
            0 <= i < 8 ==> #[trigger] w@[i] == 256 * v[2 * i] + v[2 * i + 1],
    }
}

/// The address with these bytes.
pub fn ip_from_bytes(v: &[u8]) -> (r: Ip)
    requires
        v@.len() == 4 || v@.len() == 16,
    ensures
        ip_with_bytes(v@, r),
{
    if v.len() == 4 {
        assert(v@ =~= seq![v@[0], v@[1], v@[2], v@[3]]);
        return Ip::V4(v[0], v[1], v[2], v[3]);
    }
    let mut w: [u16; 8] = [0, 0, 0, 0, 0, 0, 0, 0];
    let mut i: usize = 0;
    while i < 8
        invariant
            i <= 8,
            v@.len() == 16,
            w@.len() == 8,
            forall|j: int| 0 <= j < i ==> #[trigger] w@[j] == 256 * v@[2 * j] + v@[2 * j + 1],
        decreases 8 - i,
    {
        w[i] = 256 * v[2 * i] as u16 + v[2 * i + 1] as u16;
        i += 1;
    }
    Ip::V6(w)
}

/// Whether a URL with this scheme, host and address may be pulled from, as far as
/// can be told before the host is resolved; if not, why.
pub open spec fn url_error(
    scheme: Seq<char>,
    host: Option<Seq<char>>,
    ip: Option<Ip>,
    e: PullError,
) -> bool {
    if scheme != "http"@ && scheme != "https"@ {
        e matches PullError::Scheme { scheme: s } && s@ == scheme
    } else if host is None {
        e is NoHost
    } else {
        &&& ip is Some
        &&& blocked(ip->0)
        &&& e matches PullError::BlockedHost { host: h }
        &&& h@ == host->0
    }
}

/// Whether a URL with this scheme, host and address may be pulled from, as far as
/// can be told before the host is resolved.
pub open spec fn url_allowed(scheme: Seq<char>, host: Option<Seq<char>>, ip: Option<Ip>) -> bool {
    (scheme == "http"@ || scheme == "https"@) && host is Some && !(ip is Some && blocked(ip->0))
}

/// Checks the parts of a URL: gives its host.
pub fn check_pull_url(scheme: &str, host: Option<String>, ip: Option<Ip>) -> (r: Result<
    String,
    PullError,
>)
    ensures
        ({
            let h = match host {
                Some(s) => Some(s@),
                None => None,
            };
            match r {
                Ok(s) => url_allowed(scheme@, h, ip) && s@ == h->0,
                Err(e) => !url_allowed(scheme@, h, ip) && url_error(scheme@, h, ip, e),
            }
        }),
{
    if !text::same(scheme, "http") && !text::same(scheme, "https") {
        return Err(PullError::Scheme { scheme: text::copy_of(scheme) });
    }
    let host = match host {
        Some(h) => h,
        None => {
            return Err(PullError::NoHost);
        },
    };
    if let Some(ip) = ip {
        if ip_is_blocked(ip) {
            return Err(PullError::BlockedHost { host });
        }
    }
    Ok(host)
}

/// A URL that may be pulled from, as far as it was checked.
#[derive(Debug, Clone)]
pub struct PullUrl {
    pub text: String,
    pub host: String,
    pub port: u16,
}

/// Whether `ip` is the address that is a URL's host, where it is one.
pub open spec fn is_url_ip(raw: Seq<char>, ip: Option<Ip>) -> bool {
    match url_address(raw) {
        Some(v) => ip is Some && ip_with_bytes(v, ip->0),
        None => ip is None,
    }
}

/// Reads a URL to pull from: only http and https, with a host; a host that is an
/// address is checked at once, a name after it was resolved.
pub fn parse_pull_url(raw: &str) -> (r: Result<PullUrl, PullError>)
    ensures
        exists|ip: Option<Ip>| #[trigger]
            is_url_ip(raw@, ip) && match r {
                Ok(u) => url_parsed(raw@) == Ok::<Seq<char>, Seq<char>>(u.text@) && url_allowed(
                    url_scheme(raw@),
                    url_host(raw@),
                    ip,
                ) && url_host(raw@) == Some(u.host@) && u.port == (match url_port(raw@) {
                    Some(p) => p,
                    None => 80,
                }),
                Err(e) => match url_parsed(raw@) {
                    Err(m) => e matches PullError::InvalidUrl { reason } && reason@ == m,
                    Ok(_) => !url_allowed(url_scheme(raw@), url_host(raw@), ip) && url_error(
                        url_scheme(raw@),
                        url_host(raw@),
                        ip,
                        e,
                    ),
                },
            },
{
    let ip = match address_of(raw) {
        Some(v) => Some(ip_from_bytes(v.as_slice())),
        None => None,
    };
    assert(is_url_ip(raw@, ip));
    let shown = match parse_url(raw) {
        Ok(s) => s,
        Err(reason) => {
            return Err(PullError::InvalidUrl { reason });
        },
    };
    let scheme = scheme_of(raw);
    match check_pull_url(scheme.as_str(), host_of(raw), ip) {
        Err(e) => Err(e),
        Ok(host) => {
            let port = match port_of(raw) {
                Some(p) => p,
                None => 80,
            };
            Ok(PullUrl { text: shown, host, port })
        },
    }
}

/// Refuses a resolution where any address is blocked.
pub fn check_resolved_addrs(host: &str, addrs: &Vec<Ip>) -> (r: Result<(), PullError>)
    ensures
        match r {
            Ok(_) => forall|i: int| 0 <= i < addrs@.len() ==> !blocked(#[trigger] addrs@[i]),
            Err(e) => e matches PullError::BlockedAddress { host: h, index } && h@ == host@ && index
                < addrs@.len() && blocked(addrs@[index as int]) && forall|i: int|
                0 <= i < index ==> !blocked(#[trigger] addrs@[i]),
        },
{
    let mut i: usize = 0;
    while i < addrs.len()
        invariant
            i <= addrs@.len(),
            forall|j: int| 0 <= j < i ==> !blocked(#[trigger] addrs@[j]),
        decreases addrs.len() - i,
    {
        if ip_is_blocked(addrs[i]) {
            return Err(PullError::BlockedAddress { host: text::copy_of(host), index: i });
        }
        i += 1;
    }
    Ok(())
}

/// A checked source: its URL and every address that its host resolved to. A
/// transfer connects to these addresses only.
#[derive(Debug, Clone)]
pub struct PullTarget {
    pub url: PullUrl,
    pub addrs: Vec<Ip>,
}

impl PullTarget {
    /// Has addresses, and none that is blocked.
    pub open spec fn wf(self) -> bool {
        self.addrs@.len() > 0 && forall|i: int|
            0 <= i < self.addrs@.len() ==> !blocked(#[trigger] self.addrs@[i])
    }
}

/// Makes a source of a URL, given what its host resolved to.
pub fn prepare_pull(url: PullUrl, resolved: Option<Vec<Ip>>) -> (r: Result<PullTarget, PullError>)
    ensures
        match r {
            Ok(t) => t.url == url && resolved == Some(t.addrs) && t.wf(),
            Err(e) => match resolved {
                None => e matches PullError::Unresolved { host } && host@ == url.host@,
                Some(v) => if v@.len() == 0 {
                    e matches PullError::NoAddresses { host } && host@ == url.host@
                } else {
                    e matches PullError::BlockedAddress { host, index } && host@ == url.host@
                        && index < v@.len() && blocked(v@[index as int]) && forall|i: int|
                        0 <= i < index ==> !blocked(#[trigger] v@[i])
                },
            },
        },
{
    match resolved {
        None => Err(PullError::Unresolved { host: url.host }),
        Some(addrs) => {
            if addrs.len() == 0 {
                return Err(PullError::NoAddresses { host: url.host });
            }
            match check_resolved_addrs(url.host.as_str(), &addrs) {
                Err(e) => Err(e),
                Ok(_) => Ok(PullTarget { url, addrs }),
            }
        },
    }
}

/// The file name for what a URL's last segment, decoded, says.
pub open spec fn basename_for(segment: Option<Seq<char>>) -> Seq<char> {
    if segment is Some && segment->0.len() > 0 && segment->0 != "."@ && segment->0 != ".."@ {
        segment->0
    } else {
        "download"@
    }
}

/// The file name for what a URL's last segment, decoded, says.
pub fn basename_or_default(segment: Option<String>) -> (r: String)
    ensures
        r@ == basename_for(
            match segment {
                Some(s) => Some(s@),
                None => None,
            },
        ),
{
    match segment {
        Some(s) => if s.as_str().is_empty() || text::same(s.as_str(), ".") || text::same(
            s.as_str(),
            "..",
        ) {
            text::copy_of("download")
        } else {
            s
        },
        None => text::copy_of("download"),
    }
}

/// The last segment of a URL's path, decoded, to name a file by.
pub fn url_basename(raw: &str) -> (r: String)
    ensures
        r@ == basename_for(
            match url_segment(raw@) {
                Some(s) => Some(percent_decoded(s)),
                None => None,
            },
        ),
{
    match segment_of(raw) {
        Some(s) => basename_or_default(Some(percent_decode(s.as_str()))),
        None => basename_or_default(None),
    }
}

/// A header of a response.
#[derive(Debug, Clone)]
pub enum Header {
    Missing,
    /// Not plain text.
    Unreadable,
    Text(String),
}

/// What a response asks for.
#[derive(Debug, Clone)]
pub enum PullNext {
    /// Check this URL as any other, then request it.
    Redirect { url: String },
    /// Read the body.
    Body,
}

/// A transfer under way: `requests` counts those made.
#[derive(Debug, Clone)]
pub struct PullStream {
    pub cap: u64,
    pub requests: usize,
    pub received: u64,
    pub total: Option<u64>,
    pub target: PullTarget,
}

/// The length that a response's header gives.
pub open spec fn header_length(h: Header) -> Option<u64> {
    match h {
        Header::Text(s) => text::number_of(s@),
        _ => None,
    }
}

/// Whether `e` is why a response stops a transfer; never of one that goes on.
pub open spec fn response_error(
    p: PullStream,
    status: u16,
    location: Header,
    length: Header,
    e: PullError,
) -> bool {
    if 300 <= status <= 399 {
        match location {
            Header::Missing => e == (PullError::NoLocation { status }),
            Header::Unreadable => e is UnreadableLocation,
            Header::Text(s) => {
                &&& url_joined(p.target.url.text@, s@) is Err
                &&& e matches PullError::InvalidRedirect { reason }
                &&& reason@ == url_joined(p.target.url.text@, s@)->Err_0
            },
        }
    } else if !(200 <= status <= 299) {
        e == (PullError::Status { status })
    } else {
        header_length(length) is Some && header_length(length)->0 > p.cap && e == (
        PullError::TooLarge { mib: (p.cap / MIB) as u64 })
    }
}

/// Whether a response lets a transfer go on.
pub open spec fn response_ok(p: PullStream, status: u16, location: Header, length: Header) -> bool {
    if 300 <= status <= 399 {
        location is Text && url_joined(p.target.url.text@, location->Text_0@) is Ok
    } else {
        200 <= status <= 299 && !(header_length(length) is Some && header_length(length)->0
            > p.cap)
    }
}

impl PullStream {
    /// Requests and bytes within their limits; the source checked.
    pub open spec fn wf(self) -> bool {
        self.requests <= PULL_MAX_REDIRECTS + 1 && self.received <= self.cap && self.target.wf()
    }

    /// A transfer of at most `cap` bytes.
    pub fn new(target: PullTarget, cap: u64) -> (r: PullStream)
        requires
            target.wf(),
        ensures
            r == (PullStream { cap, requests: 0, received: 0, total: None, target }),
            r.wf(),
    {
        PullStream { cap, requests: 0, received: 0, total: None, target }
    }

    /// Before a request: refused after too many redirects, and when the transfer
    /// was cancelled.
    pub fn request(&mut self, cancelled: bool) -> (r: Result<(), PullError>)
        requires
            old(self).wf(),
        ensures
            final(self).wf(),
            match r {
                Ok(_) => !cancelled && old(self).requests <= PULL_MAX_REDIRECTS && *final(self) == (
                PullStream { requests: (old(self).requests + 1) as usize, ..*old(self) }),
                Err(e) => *final(self) == *old(self) && if old(self).requests
                    > PULL_MAX_REDIRECTS {
                    e is TooManyRedirects
                } else {
                    cancelled && e is Cancelled
                },
            },
    {
        if self.requests > PULL_MAX_REDIRECTS {
            return Err(PullError::TooManyRedirects);
        }
        if cancelled {
            return Err(PullError::Cancelled);
        }
        self.requests = self.requests + 1;
        Ok(())
    }

    /// Judges a response by its status and its headers.
    pub fn response(&mut self, status: u16, location: &Header, length: &Header) -> (r: Result<
        PullNext,
        PullError,
    >)
        requires
            old(self).wf(),
        ensures
            final(self).wf(),
            match r {
                Ok(PullNext::Redirect { url }) => 300 <= status <= 399 && response_ok(
                    *old(self),
                    status,
                    *location,
                    *length,
                ) && url@ == url_joined(old(self).target.url.text@, location->Text_0@)->Ok_0
                    && *final(self) == *old(self),
                Ok(PullNext::Body) => 200 <= status <= 299 && response_ok(
                    *old(self),
                    status,
                    *location,
                    *length,
                ) && *final(self) == (PullStream {
                    total: if header_length(*length) is Some {
                        header_length(*length)
                    } else {
                        old(self).total
                    },
                    ..*old(self)
                }),
                Err(e) => !response_ok(*old(self), status, *location, *length) && response_error(
                    *old(self),
                    status,
                    *location,
                    *length,
                    e,
                ) && *final(self) == *old(self),
            },
    {
        if status >= 300 && status <= 399 {
            return match location {
                Header::Missing => Err(PullError::NoLocation { status }),
                Header::Unreadable => Err(PullError::UnreadableLocation),
                Header::Text(s) => match join_url(self.target.url.text.as_str(), s.as_str()) {
                    Ok(url) => Ok(PullNext::Redirect { url }),
                    Err(reason) => Err(PullError::InvalidRedirect { reason }),
                },
            };
        }
        if status < 200 || status > 299 {
            return Err(PullError::Status { status });
        }
        let declared = match length {
            Header::Text(s) => {
                let cs = text::chars_of(s.as_str());
                text::parse_u64(cs.as_slice())
            },
            _ => None,
        };
        if let Some(n) = declared {
            if n > self.cap {
                return Err(PullError::TooLarge { mib: self.cap / MIB });
            }
            self.total = Some(n);
        }
        Ok(PullNext::Body)
    }

    /// Goes on with the source that a redirect led to.
    pub fn redirected(&mut self, target: PullTarget)
        requires
            old(self).wf(),
            target.wf(),
        ensures
            *final(self) == (PullStream { target, ..*old(self) }),
            final(self).wf(),
    {
        self.target = target;
    }

    /// Takes a piece of the body, before it is written.
    pub fn chunk(&mut self, len: usize, cancelled: bool) -> (r: Result<(), PullError>)
        requires
            old(self).wf(),
        ensures
            final(self).wf(),
            match r {
                Ok(_) => !cancelled && old(self).received + len <= old(self).cap && *final(self) == (
                PullStream { received: (old(self).received + len) as u64, ..*old(self) }),
                Err(e) => *final(self) == *old(self) && if cancelled {
                    e is Cancelled
                } else {
                    old(self).received + len > old(self).cap && e == (PullError::TooLarge {
                        mib: (old(self).cap / MIB) as u64,
                    })
                },
            },
    {
        if cancelled {
            return Err(PullError::Cancelled);
        }
        let received = self.received.saturating_add(len as u64);
        if received > self.cap || self.cap - self.received < len as u64 {
            return Err(PullError::TooLarge { mib: self.cap / MIB });
        }
        self.received = received;
        Ok(())
    }
}

/// What has become of a file that a transfer writes beside its destination.
#[derive(Debug, Clone, Copy, PartialEq, Eq, Structural)]
pub enum CommitPhase {
    /// The body is being written.
    Streaming,
    /// All of it is written: flush it to disk.
    Syncing,
    /// Move it over the destination.
    Renaming,
    /// The destination holds the new content.
    Done,
    /// Remove the file; the destination stays as it was.
    Discarded,
}

/// The phase behind one that went well or not.
pub open spec fn next_phase(phase: CommitPhase, ok: bool) -> CommitPhase {
    match phase {
        CommitPhase::Done => CommitPhase::Done,
        _ => if !ok {
            CommitPhase::Discarded
        } else {
            match phase {
                CommitPhase::Streaming => CommitPhase::Syncing,
                CommitPhase::Syncing => CommitPhase::Renaming,
                CommitPhase::Renaming => CommitPhase::Done,
                other => other,
            }
        },
    }
}

/// The phase behind one that went well or not.
pub fn commit_step(phase: CommitPhase, ok: bool) -> (r: CommitPhase)
    ensures
        r == next_phase(phase, ok),
{
    match phase {
        CommitPhase::Done => CommitPhase::Done,
        CommitPhase::Discarded => CommitPhase::Discarded,
        CommitPhase::Streaming => if ok {
            CommitPhase::Syncing
        } else {
            CommitPhase::Discarded
        },
        CommitPhase::Syncing => if ok {
            CommitPhase::Renaming
        } else {
            CommitPhase::Discarded
        },
        CommitPhase::Renaming => if ok {
            CommitPhase::Done
        } else {
            CommitPhase::Discarded
        },
    }
}

/// A destination changes only when the body was received in full, written to disk
/// and moved; otherwise the file beside it is removed.
pub proof fn law_pull_is_all_or_nothing(streamed: bool, synced: bool, renamed: bool)
    ensures
        ({
            let last = next_phase(
                next_phase(next_phase(CommitPhase::Streaming, streamed), synced),
                renamed,
            );
            last == if streamed && synced && renamed {
                CommitPhase::Done
            } else {
                CommitPhase::Discarded
            }
        }),
{
}

/// Name of the file that a transfer writes beside its destination.
pub open spec fn temp_name(name: Seq<char>, nonce: Seq<char>) -> Seq<char> {
    "."@ + name + "-voltpanel-pull-"@ + nonce + ".part"@
}

/// Name of the file that a transfer writes beside its destination.
pub fn pull_temp_name(name: &str, nonce: &str) -> (r: String)
    ensures
        r@ == temp_name(name@, nonce@),
{
    let mut s = around(".", name, "-voltpanel-pull-");
    s.append(nonce);
    s.append(".part");
    s
}

/// Starts writing a destination: refused where a symbolic link stands there; else
/// gives the name of the file to write beside it.
pub fn download_pull_at(name: &str, destination_is_link: bool) -> (r: Result<String, PullError>)
    ensures
        match r {
            Ok(t) => !destination_is_link && exists|nonce: Seq<char>|
                node_protocol::is_nonce(nonce) && t@ == #[trigger] temp_name(name@, nonce),
            Err(e) => destination_is_link && e is SymlinkDestination,
        },
{
    if destination_is_link {
        return Err(PullError::SymlinkDestination);
    }
    let nonce = node_protocol::fresh_nonce();
    Ok(pull_temp_name(name, nonce.as_str()))
}

/// Where a pull into a workspace writes.
pub fn local_pull(rel: &str) -> (r: Result<Place, PullError>)
    ensures
        match r {
            Ok(p) => p.dir@ == files::parent_of(rel@) && Some(p.name@) == files::name_of(rel@),
            Err(e) => e is NoName && files::name_of(rel@) is None,
        },
{
    let cs = text::chars_of(rel);
    match paths::file_name(paths::strip_root(cs.as_slice())) {
        None => Err(PullError::NoName),
        Some(n) => Ok(
            Place { dir: files::parent_rel(rel), name: text::string_of(n.as_slice()) },
        ),
    }
}

/// The request that pushes pulled bytes to a node.
pub fn remote_pull(rel: &str, bytes: &[u8]) -> (r: FileWriteRequest)
    ensures
        r.path@ == rel@,
        r.content_b64@ == encoding::base64_text(bytes@),
        encoding::base64_bytes(r.content_b64@) == Some(bytes@),
        !r.append,
{
    FileWriteRequest {
        path: text::copy_of(rel),
        content_b64: encoding::base64_encode(bytes),
        append: false,
    }
}

/// The state of a transfer, shared by those who watch it and who run it.
#[derive(Debug, Clone)]
pub struct PullState {
    /// running, done, error or cancelled
    pub status: String,
    /// queued, resolving, downloading, pushing or nothing
    pub phase: String,
    pub received: u64,
    pub total: Option<u64>,
    pub error: Option<String>,
    pub cancel: bool,
}

/// A transfer in the registry. `finished` is when it ended, in nanoseconds.
#[derive(Debug, Clone)]
pub struct PullHandle {
    pub id: String,
    pub server_id: i64,
    pub url: String,
    /// Destination in the workspace.
    pub dest: String,
    pub node: String,
    pub created: String,
    pub state: PullState,
    pub finished: Option<u64>,
}

/// What is told of a transfer.
#[derive(Debug, Clone)]
pub struct PullStatus {
    pub id: String,
    pub server_id: i64,
    pub url: String,
    pub dest: String,
    pub node: String,
    pub created: String,
    pub status: String,
    pub phase: String,
    pub received: u64,
    pub total: Option<u64>,
    pub error: Option<String>,
}

/// Whether a transfer runs.
pub open spec fn running(h: PullHandle) -> bool {
    h.state.status@ == "running"@
}

/// Whether a transfer stays in the registry at `now`.
pub open spec fn stays(h: PullHandle, now: u64) -> bool {
    running(h) || match h.finished {
        None => true,
        Some(t) => now - t <= PULL_TRANSFER_TTL,
    }
}

/// The transfers, each with an id of its own.
#[derive(Debug, Clone)]
pub struct Pulls {
    pub handles: Vec<PullHandle>,
}

/// Whether `h` is a transfer just registered.
pub open spec fn is_fresh(
    h: PullHandle,
    id: Seq<char>,
    server_id: i64,
    url: Seq<char>,
    dest: Seq<char>,
    node: Seq<char>,
    created: Seq<char>,
) -> bool {
    &&& h.id@ == id
    &&& h.server_id == server_id
    &&& h.url@ == url
    &&& h.dest@ == dest
    &&& h.node@ == node
    &&& h.created@ == created
    &&& h.state.status@ == "running"@
    &&& h.state.phase@ == "queued"@
    &&& h.state.received == 0
    &&& h.state.total is None
    &&& h.state.error is None
    &&& !h.state.cancel
    &&& h.finished is None
}

/// The test for transfers that stay at `now` and have another id than `id`.
pub open spec fn keeps(id: Seq<char>, now: u64) -> spec_fn(PullHandle) -> bool {
    |h: PullHandle| stays(h, now) && h.id@ != id
}

/// The transfers that stay at `now` and have another id than `id`.
pub open spec fn kept(hs: Seq<PullHandle>, id: Seq<char>, now: u64) -> Seq<PullHandle> {
    hs.filter(keeps(id, now))
}

/// `chrono::Utc::now().to_rfc3339()`: the present time as text.
#[verifier::external_body]
pub(crate) fn time_text() -> (r: String) {
    chrono::Utc::now().to_rfc3339()
}

impl Pulls {
    /// No two transfers share an id.
    pub open spec fn wf(self) -> bool {
        forall|i: int, j: int|
            0 <= i < j < self.handles@.len() ==> (#[trigger] self.handles@[i]).id@ != (
            #[trigger] self.handles@[j]).id@
    }

    /// An empty registry.
    pub fn new() -> (r: Pulls)
        ensures
            r.handles@.len() == 0,
            r.wf(),
    {
        Pulls { handles: Vec::new() }
    }

    /// Registers a transfer under an id at a time; those long finished leave.
    pub fn register(
        &mut self,
        id: &str,
        server_id: i64,
        url: &str,
        dest: &str,
        node: &str,
        created: &str,
        now: u64,
    )
        requires
            old(self).wf(),
        ensures
            final(self).wf(),
            final(self).handles@.drop_last() == kept(old(self).handles@, id@, now),
            final(self).handles@.len() > 0,
            is_fresh(final(self).handles@.last(), id@, server_id, url@, dest@, node@, created@),
    {
        let ghost all = self.handles@;
        let ghost stay = keeps(id@, now);
        let mut rest: Vec<PullHandle> = Vec::new();
        rest.append(&mut self.handles);
        assert(rest@ =~= all);
        let mut backwards: Vec<PullHandle> = Vec::new();
        while rest.len() > 0
            invariant
                rest@.len() + backwards@.len() == all.len(),
                rest@ == all.take(rest@.len() as int),
                forall|i: int| 0 <= i < backwards@.len() ==> backwards@[i] == all[all.len() - 1 - i],
            decreases rest.len(),
        {
            if let Some(h) = rest.pop() {
                backwards.push(h);
            }
            assert(rest@ =~= all.take(rest@.len() as int));
        }
        let mut out: Vec<PullHandle> = Vec::new();
        assert(all.take(0).filter(stay) =~= Seq::<PullHandle>::empty()) by {
            reveal(Seq::filter);
        }
        while backwards.len() > 0
            invariant
                backwards@.len() <= all.len(),
                stay == keeps(id@, now),
                forall|i: int| 0 <= i < backwards@.len() ==> backwards@[i] == all[all.len() - 1 - i],
                out@ == all.take(all.len() - backwards@.len()).filter(stay),
            decreases backwards.len(),
        {
            let ghost done = all.len() - backwards@.len();
            if let Some(h) = backwards.pop() {
                proof {
                    assert(all.take(done + 1) =~= all.take(done as int).push(h));
                    all.take(done as int).lemma_filter_push(h, stay);
                }
                let stays = text::same(h.state.status.as_str(), "running") || match h.finished {
                    None => true,
                    Some(t) => now <= t || now - t <= PULL_TRANSFER_TTL,
                };
                if stays && !text::same(h.id.as_str(), id) {
                    out.push(h);
                }
            }
        }
        assert(all.take(all.len() as int) =~= all);
        let ghost left = out@;
        out.push(
            PullHandle {
                id: text::copy_of(id),
                server_id,
                url: text::copy_of(url),
                dest: text::copy_of(dest),
                node: text::copy_of(node),
                created: text::copy_of(created),
                state: PullState {
                    status: text::copy_of("running"),
                    phase: text::copy_of("queued"),
                    received: 0,
                    total: None,
                    error: None,
                    cancel: false,
                },
                finished: None,
            },
        );
        self.handles = out;
        proof {
            assert(self.handles@.drop_last() =~= left);
            lemma_kept_distinct(all, id@, now);
            assert forall|i: int, j: int| 0 <= i < j < self.handles@.len() implies (
            #[trigger] self.handles@[i]).id@ != (#[trigger] self.handles@[j]).id@ by {
                assert(self.handles@[i] == left[i]);
                if j < left.len() {
                    assert(self.handles@[j] == left[j]);
                }
            }
        }
    }

    /// Registers a transfer under a new id; gives the id.
    pub fn start_pull(
        &mut self,
        server_id: i64,
        url: &str,
        dest: &str,
        node: &str,
        now: u64,
    ) -> (r: String)
        requires
            old(self).wf(),
        ensures
            final(self).wf(),
            node_protocol::is_nonce(r@),
            final(self).handles@.drop_last() == kept(old(self).handles@, r@, now),
            final(self).handles@.len() > 0,
            exists|created: Seq<char>| #[trigger]
                is_fresh(
                    final(self).handles@.last(),
                    r@,
                    server_id,
                    url@,
                    dest@,
                    node@,
                    created,
                ),
    {
        let id = node_protocol::fresh_nonce();
        let created = time_text();
        self.register(id.as_str(), server_id, url, dest, node, created.as_str(), now);
        id
    }

    /// Finds a transfer by its id.
    pub fn get_pull(&self, id: &str) -> (r: Option<usize>)
        ensures
            match r {
                Some(i) => i < self.handles@.len() && self.handles@[i as int].id@ == id@,
                None => forall|i: int|
                    0 <= i < self.handles@.len() ==> (#[trigger] self.handles@[i]).id@ != id@,
            },
    {
        let mut i: usize = 0;
        while i < self.handles.len()
            invariant
                i <= self.handles@.len(),
                forall|j: int| 0 <= j < i ==> (#[trigger] self.handles@[j]).id@ != id@,
            decreases self.handles.len() - i,
        {
            if text::same(self.handles[i].id.as_str(), id) {
                return Some(i);
            }
            i += 1;
        }
        None
    }
}

proof fn lemma_kept_distinct(hs: Seq<PullHandle>, id: Seq<char>, now: u64)
    requires
        forall|i: int, j: int|
            0 <= i < j < hs.len() ==> (#[trigger] hs[i]).id@ != (#[trigger] hs[j]).id@,
    ensures
        forall|i: int, j: int|
            0 <= i < j < kept(hs, id, now).len() ==> (#[trigger] kept(hs, id, now)[i]).id@ != (
            #[trigger] kept(hs, id, now)[j]).id@,
        forall|i: int| 0 <= i < kept(hs, id, now).len() ==> (#[trigger] kept(hs, id, now)[i]).id@ != id,
        forall|i: int|
            0 <= i < kept(hs, id, now).len() ==> hs.contains(#[trigger] kept(hs, id, now)[i]),
    decreases hs.len(),
{
    let stay = keeps(id, now);
    if hs.len() == 0 {
        assert(kept(hs, id, now).len() == 0) by {
            reveal(Seq::filter);
        }
    } else {
        let less = hs.drop_last();
        assert forall|i: int, j: int| 0 <= i < j < less.len() implies (#[trigger] less[i]).id@ != (
        #[trigger] less[j]).id@ by {
            assert(less[i] == hs[i] && less[j] == hs[j]);
        }
        lemma_kept_distinct(less, id, now);
        less.lemma_filter_push(hs.last(), stay);
        assert(less.push(hs.last()) =~= hs);
        let before = kept(less, id, now);
        let after = kept(hs, id, now);
        assert forall|i: int| 0 <= i < after.len() implies hs.contains(#[trigger] after[i]) by {
            if i < before.len() {
                assert(after[i] == before[i]);
                let k = choose|k: int| 0 <= k < less.len() && less[k] == before[i];
                assert(hs[k] == after[i]);
            } else {
                assert(hs[hs.len() - 1] == after[i]);
            }
        }
        assert forall|i: int, j: int| 0 <= i < j < after.len() implies (#[trigger] after[i]).id@ != (
        #[trigger] after[j]).id@ by {
            assert(after[i] == before[i]);
            if j < before.len() {
                assert(after[j] == before[j]);
            } else {
                let k = choose|k: int| 0 <= k < less.len() && less[k] == before[i];
                assert(hs[k] == after[i]);
                assert(hs[hs.len() - 1] == after[j]);
            }
        }
    }
}

/// A transfer that runs stays in the registry when others are registered.
pub proof fn law_running_pull_stays(hs: Seq<PullHandle>, k: int, id: Seq<char>, now: u64)
    requires
        0 <= k < hs.len(),
        running(hs[k]),
        hs[k].id@ != id,
    ensures
        kept(hs, id, now).contains(hs[k]),
{
    let stay = keeps(id, now);
    hs.lemma_filter_contains(stay, k);
}

/// The outcome of a transfer: a cancellation wins over any result.
pub open spec fn is_finished(
    before: PullHandle,
    result: Result<u64, String>,
    now: u64,
    after: PullHandle,
) -> bool {
    let b = before.state;
    let a = after.state;
    &&& after == (PullHandle { state: a, finished: Some(now), ..before })
    &&& a.phase@.len() == 0
    &&& a.cancel == b.cancel
    &&& if b.cancel {
        a.status@ == "cancelled"@ && a.received == b.received && a.total == b.total && a.error
            == b.error
    } else {
        match result {
            Ok(size) => a.status@ == "done"@ && a.received == size && a.total == (if b.total is Some {
                b.total
            } else {
                Some(size)
            }) && a.error == b.error,
            Err(m) => a.status@ == "error"@ && a.received == b.received && a.total == b.total
                && a.error is Some && a.error->0@ == m@,
        }
    }
}

/// Takes down the outcome of a transfer.
pub fn finish_pull(h: &mut PullHandle, result: Result<u64, String>, now: u64)
    ensures
        is_finished(*old(h), result, now, *final(h)),
{
    let phase = String::new();
    assert(phase@ =~= Seq::<char>::empty());
    h.state.phase = phase;
    if h.state.cancel {
        h.state.status = text::copy_of("cancelled");
    } else {
        match result {
            Ok(size) => {
                h.state.status = text::copy_of("done");
                h.state.received = size;
                if h.state.total.is_none() {
                    h.state.total = Some(size);
                }
            },
            Err(error) => {
                h.state.status = text::copy_of("error");
                h.state.error = Some(error);
            },
        }
    }
    h.finished = Some(now);
}

/// Asks a transfer to stop: false where it has ended.
pub fn cancel_pull(h: &mut PullHandle) -> (r: bool)
    ensures
        r == running(*old(h)),
        *final(h) == (PullHandle {
            state: PullState { cancel: r || old(h).state.cancel, ..old(h).state },
            ..*old(h)
        }),
{
    if text::same(h.state.status.as_str(), "running") {
        h.state.cancel = true;
        true
    } else {
        false
    }
}

/// A transfer that was cancelled while it ran ends as cancelled, whatever came of
/// it, and cannot be cancelled again.
pub proof fn law_cancellation_wins(
    before: PullHandle,
    result: Result<u64, String>,
    now: u64,
    after: PullHandle,
)
    requires
        before.state.cancel,
        is_finished(before, result, now, after),
    ensures
        after.state.status@ == "cancelled"@,
        !running(after),
{
    reveal_strlit("cancelled");
    reveal_strlit("running");
    assert("cancelled"@.len() != "running"@.len());
}

/// What is told of a transfer.
pub fn pull_status(h: &PullHandle) -> (r: PullStatus)
    ensures
        r.id@ == h.id@,
        r.server_id == h.server_id,
        r.url@ == h.url@,
        r.dest@ == h.dest@,
        r.node@ == h.node@,
        r.created@ == h.created@,
        r.status@ == h.state.status@,
        r.phase@ == h.state.phase@,
        r.received == h.state.received,
        r.total == h.state.total,
        match h.state.error {
            Some(e) => r.error is Some && r.error->0@ == e@,
            None => r.error is None,
        },
{
    PullStatus {
        id: text::copy_of(h.id.as_str()),
        server_id: h.server_id,
        url: text::copy_of(h.url.as_str()),
        dest: text::copy_of(h.dest.as_str()),
        node: text::copy_of(h.node.as_str()),
        created: text::copy_of(h.created.as_str()),
        status: text::copy_of(h.state.status.as_str()),
        phase: text::copy_of(h.state.phase.as_str()),
        received: h.state.received,
        total: h.state.total,
        error: match &h.state.error {
            Some(e) => Some(text::copy_of(e.as_str())),
            None => None,
        },
    }
}

/// A transfer never connects to a blocked address: those of its source are
/// checked, and so are those of every source that a redirect leads to.
pub proof fn law_no_blocked_address_is_reached(p: PullStream, i: int)
    requires
        p.wf(),
        0 <= i < p.target.addrs@.len(),
    ensures
        !blocked(p.target.addrs@[i]),
{
}

} // verus!
