//! What is fetched from elsewhere, and from where.
use crate::services::pull;
use crate::services::pull::{
    CommitPhase, Header, Ip, PullError, PullHandle, PullStream,
};
use crate::text;
use vstd::prelude::*;
use vstd::string::*;

verus! {

/// An address of four parts as one number.
pub open spec fn number_of(a: u8, b: u8, c: u8, d: u8) -> int {
    ((a * 256 + b) * 256 + c) * 256 + d
}

/// An address lies in a block if and only if it begins as the block does: the
/// address of the block, and how many addresses it holds.
pub open spec fn in_block(n: int, first: int, size: int) -> bool {
    first <= n < first + size
}

/// The addresses of four parts that are not fetched from are those of the blocks
/// for this host and network, for private networks, for links, for tests and
/// examples, for groups, and what is reserved. From every other one is fetched.
pub proof fn law_blocked_addresses(a: u8, b: u8, c: u8, d: u8)
    ensures
        pull::blocked(Ip::V4(a, b, c, d)) <==> {
            let n = number_of(a, b, c, d);
            ||| in_block(n, number_of(0, 0, 0, 0), 16_777_216)
            ||| in_block(n, number_of(10, 0, 0, 0), 16_777_216)
            ||| in_block(n, number_of(100, 64, 0, 0), 4_194_304)
            ||| in_block(n, number_of(127, 0, 0, 0), 16_777_216)
            ||| in_block(n, number_of(169, 254, 0, 0), 65_536)
            ||| in_block(n, number_of(172, 16, 0, 0), 1_048_576)
            ||| in_block(n, number_of(192, 0, 0, 0), 256)
            ||| in_block(n, number_of(192, 0, 2, 0), 256)
            ||| in_block(n, number_of(192, 168, 0, 0), 65_536)
            ||| in_block(n, number_of(198, 18, 0, 0), 131_072)
            ||| in_block(n, number_of(198, 51, 100, 0), 256)
            ||| in_block(n, number_of(203, 0, 113, 0), 256)
            ||| n >= number_of(224, 0, 0, 0)
        },
{
}

/// The addresses of six parts that are not fetched from: this host, private ones,
/// those of a link, groups and examples. One that holds an address of four parts
/// is judged by that.
pub proof fn law_blocked_long_addresses(s: [u16; 8], a: u8, b: u8, c: u8, d: u8)
    ensures
        (forall|i: int| 0 <= i < 7 ==> #[trigger] s@[i] == 0) && s@[7] <= 1 ==> pull::blocked(
            Ip::V6(s),
        ),
        0xfc00 <= s@[0] <= 0xfdff ==> pull::blocked(Ip::V6(s)),
        0xfe80 <= s@[0] <= 0xfebf ==> pull::blocked(Ip::V6(s)),
        s@[0] >= 0xff00 ==> pull::blocked(Ip::V6(s)),
        s@[0] == 0x2001 && s@[1] == 0xdb8 ==> pull::blocked(Ip::V6(s)),
        0 < s@[0] < 0xfc00 && !(s@[0] == 0x2001 && s@[1] == 0xdb8) ==> !pull::blocked(Ip::V6(s)),
        0xfe00 <= s@[0] < 0xfe80 || 0xfec0 <= s@[0] < 0xff00 ==> !pull::blocked(Ip::V6(s)),
        (forall|i: int| 0 <= i < 5 ==> #[trigger] s@[i] == 0) && s@[5] == 0xffff && s@[6] == a * 256
            + b && s@[7] == c * 256 + d ==> pull::blocked(Ip::V6(s)) == pull::blocked(
            Ip::V4(a, b, c, d),
        ),
{
    let v = s@;
    if (forall|i: int| 0 <= i < 7 ==> #[trigger] v[i] == 0) && v[7] <= 1 {
        assert(v[0] == 0 && v[1] == 0 && v[2] == 0 && v[3] == 0 && v[4] == 0 && v[5] == 0 && v[6]
            == 0);
    }
    if (forall|i: int| 0 <= i < 5 ==> #[trigger] v[i] == 0) && v[5] == 0xffff && v[6] == a * 256 + b
        && v[7] == c * 256 + d {
        assert(v[0] == 0 && v[1] == 0 && v[2] == 0 && v[3] == 0 && v[4] == 0);
        pull::law_mapped_address_is_judged_as_v4(a, b, c, d, s);
    }
}

/// A URL is fetched if and only if it is one of the web, has a host, and names no
/// address that is not fetched from.
pub proof fn law_fetched_urls(scheme: Seq<char>, host: Option<Seq<char>>, ip: Option<Ip>)
    ensures
        pull::url_allowed(scheme, host, ip) <==> (scheme == "http"@ || scheme == "https"@)
            && host is Some && (ip is None || !pull::blocked(ip->0)),
{
}

/// A URL that is not fetched is refused for its scheme first, then for want of a
/// host, then for its address.
pub proof fn law_refused_urls(
    scheme: Seq<char>,
    host: Option<Seq<char>>,
    ip: Option<Ip>,
    e: PullError,
)
    requires
        !pull::url_allowed(scheme, host, ip),
        pull::url_error(scheme, host, ip, e),
    ensures
        scheme != "http"@ && scheme != "https"@ <==> e is Scheme,
        (scheme == "http"@ || scheme == "https"@) && host is None <==> e is NoHost,
        e is BlockedHost ==> ip is Some && pull::blocked(ip->0) && host is Some,
        e is Scheme || e is NoHost || e is BlockedHost,
{
}

/// A file takes the last name of its URL, and a plain name where that is none or
/// would lead elsewhere.
pub proof fn law_name_of_a_fetched_file(name: Seq<char>)
    ensures
        name.len() > 0 && name != seq!['.'] && name != seq!['.', '.'] ==> pull::basename_for(
            Some(name),
        ) == name,
        name.len() == 0 || name == seq!['.'] || name == seq!['.', '.'] ==> pull::basename_for(
            Some(name),
        ) == "download"@,
        pull::basename_for(None) == "download"@,
{
    reveal_strlit(".");
    reveal_strlit("..");
    assert("."@ =~= seq!['.']);
    assert(".."@ =~= seq!['.', '.']);
}

/// An answer is taken if and only if it leads on to somewhere that can be read, or
/// it is a success that does not announce more than may come.
pub proof fn law_answers_taken(p: PullStream, status: u16, location: Header, length: Header)
    ensures
        status < 200 || status >= 400 ==> !pull::response_ok(p, status, location, length),
        300 <= status < 400 ==> (pull::response_ok(p, status, location, length) <==> (
        location matches Header::Text(to) && pull::url_joined(p.target.url.text@, to@) is Ok)),
        200 <= status < 300 ==> (pull::response_ok(p, status, location, length) <==> !(
        length matches Header::Text(n) && text::number_of(n@) is Some && text::number_of(n@)->0
            > p.cap)),
{
}

/// An answer that is not taken is refused for what is wrong with it.
pub proof fn law_answers_refused(
    p: PullStream,
    status: u16,
    location: Header,
    length: Header,
    e: PullError,
)
    requires
        !pull::response_ok(p, status, location, length),
        pull::response_error(p, status, location, length, e),
    ensures
        status < 200 || status >= 400 ==> (e matches PullError::Status { status: s } && s == status),
        300 <= status < 400 && location is Missing ==> (e matches PullError::NoLocation { status: s }
            && s == status),
        300 <= status < 400 && location is Unreadable ==> e is UnreadableLocation,
        300 <= status < 400 && location is Text ==> e is InvalidRedirect,
        200 <= status < 300 ==> (e matches PullError::TooLarge { mib } && mib == p.cap / 1_048_576),
{
}

/// A file is in place only when it was read whole, written out and renamed; any
/// failure before that discards it, and what is in place stays.
pub proof fn law_fetched_file_is_put_in_place(p: CommitPhase, ok: bool)
    ensures
        pull::next_phase(CommitPhase::Streaming, true) == CommitPhase::Syncing,
        pull::next_phase(CommitPhase::Syncing, true) == CommitPhase::Renaming,
        pull::next_phase(CommitPhase::Renaming, true) == CommitPhase::Done,
        pull::next_phase(CommitPhase::Done, ok) == CommitPhase::Done,
        pull::next_phase(CommitPhase::Discarded, ok) == CommitPhase::Discarded,
        p != CommitPhase::Done ==> pull::next_phase(p, false) == CommitPhase::Discarded,
{
}

/// A file is read into a hidden one beside it, whose name tells what it is for.
pub proof fn law_name_of_a_part(name: Seq<char>, nonce: Seq<char>)
    ensures
        pull::temp_name(name, nonce).len() == name.len() + nonce.len() + 22,
        pull::temp_name(name, nonce)[0] == '.',
        forall|i: int|
            0 <= i < name.len() ==> #[trigger] pull::temp_name(name, nonce)[1 + i] == name[i],
        forall|i: int|
            0 <= i < nonce.len() ==> #[trigger] pull::temp_name(name, nonce)[name.len() + 17 + i]
                == nonce[i],
{
    reveal_strlit(".");
    reveal_strlit("-voltpanel-pull-");
    reveal_strlit(".part");
}

/// A transfer is remembered while it runs and for an hour behind its end.
pub proof fn law_transfers_are_remembered(h: PullHandle, now: u64)
    ensures
        h.state.status@ == "running"@ ==> pull::stays(h, now),
        h.finished is None ==> pull::stays(h, now),
        h.state.status@ != "running"@ && h.finished is Some ==> (pull::stays(h, now) <==> now
            <= h.finished->0 + 3_600_000_000_000),
{
}

/// A transfer that ends is done with all that came, or failed with the reason, or
/// was cancelled; what it was stays told.
pub proof fn law_transfers_end(
    before: PullHandle,
    result: Result<u64, String>,
    now: u64,
    after: PullHandle,
)
    requires
        pull::is_finished(before, result, now, after),
    ensures
        after.finished == Some(now),
        after.id == before.id && after.server_id == before.server_id && after.url == before.url
            && after.dest == before.dest && after.node == before.node && after.created
            == before.created,
        before.state.cancel ==> after.state.status@ == "cancelled"@,
        !before.state.cancel && result is Ok ==> after.state.status@ == "done"@
            && after.state.received == result->Ok_0,
        !before.state.cancel && result is Err ==> after.state.status@ == "error"@
            && after.state.error is Some && after.state.error->0@ == result->Err_0@
            && after.state.received == before.state.received,
{
}

} // verus!
