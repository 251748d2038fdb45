//! Tests of pulls: which sources are reached, and how a download lands.
use voltpanel::services::pull::{
    basename_or_default, cancel_pull, check_pull_url, check_resolved_addrs, commit_step,
    download_pull_at, finish_pull, ip_from_bytes, ip_is_blocked, local_pull, parse_pull_url,
    prepare_pull, pull_status, pull_temp_name, remote_pull, url_basename, CommitPhase, Header, Ip,
    PullError, PullNext, PullStream, Pulls, PULL_MAX_REDIRECTS, PULL_TRANSFER_TTL,
};

/// An address from its text, by way of a URL.
fn ip(text: &str) -> Ip {
    let host = if text.contains(':') { format!("[{text}]") } else { text.to_string() };
    match url::Url::parse(&format!("http://{host}/")).unwrap().host().unwrap() {
        url::Host::Ipv4(a) => ip_from_bytes(&a.octets()),
        url::Host::Ipv6(a) => ip_from_bytes(&a.octets()),
        url::Host::Domain(d) => panic!("{d}"),
    }
}

#[test]
fn ip_is_blocked_covers_forbidden_classes() {
    let blocked = [
        "127.0.0.1", "127.8.8.8",
        "169.254.169.254",
        "10.0.0.1", "172.16.0.1", "172.31.255.255", "192.168.1.1",
        "0.0.0.0", "100.64.0.1", "100.127.255.254",
        "192.0.0.1",
        "198.18.0.1", "198.19.255.255",
        "192.0.2.1", "198.51.100.1", "203.0.113.1",
        "224.0.0.1", "239.255.255.255", "240.0.0.1", "255.255.255.255",
        "::1", "::", "fc00::1", "fd12:3456::1", "fe80::1", "ff02::1", "2001:db8::1",
        "::ffff:127.0.0.1", "::ffff:10.0.0.1",
    ];
    for text in blocked {
        assert!(ip_is_blocked(ip(text)), "{text} should be blocked");
    }
    for text in ["8.8.8.8", "93.184.216.34", "1.1.1.1", "2606:4700:4700::1111"] {
        assert!(!ip_is_blocked(ip(text)), "{text} should be allowed");
    }
}

#[test]
fn parse_pull_url_rejects_blocked_literals_and_bad_schemes() {
    for bad in [
        "http://127.0.0.1/secret",
        "http://127.0.0.1:8080/secret",
        "http://169.254.169.254/latest/meta-data",
        "http://10.1.2.3/x",
        "http://172.16.0.1/x",
        "http://192.168.1.1/x",
        "http://[::1]/x",
        "http://[fe80::1]/x",
        "http://[::ffff:127.0.0.1]/x",
        "ftp://example.com/x",
        "file:///etc/passwd",
        "gopher://example.com/x",
        "not a url",
    ] {
        assert!(parse_pull_url(bad).is_err(), "should reject {bad}");
    }
    assert!(parse_pull_url("http://93.184.216.34/file.txt").is_ok());
    assert!(parse_pull_url("https://example.com/download.zip").is_ok());
    assert!(parse_pull_url("https://example.com:8443/x").is_ok());
}

#[test]
fn ssrf_guard_rejects_hostname_resolving_to_blocked_ip() {
    let u = parse_pull_url("http://attacker.example/x").unwrap();
    for a in [Ip::V4(127, 0, 0, 1), Ip::V4(169, 254, 169, 254), Ip::V4(10, 0, 0, 1), Ip::V4(192, 168, 1, 1)] {
        assert!(check_resolved_addrs(&u.host, &vec![a]).is_err(), "should reject {a:?}");
    }
    let mixed = vec![Ip::V4(93, 184, 216, 34), Ip::V4(192, 168, 1, 1)];
    assert!(check_resolved_addrs(&u.host, &mixed).is_err());
    let public = vec![Ip::V4(93, 184, 216, 34), Ip::V4(93, 184, 216, 35)];
    assert!(check_resolved_addrs(&u.host, &public).is_ok());
}

#[test]
fn prepare_pull_public_literal_resolves_without_dns() {
    let u = parse_pull_url("http://93.184.216.34:8080/a/b.txt").unwrap();
    assert_eq!((u.host.as_str(), u.port), ("93.184.216.34", 8080));
    let target = prepare_pull(u, Some(vec![ip("93.184.216.34")])).unwrap();
    assert_eq!(target.addrs.len(), 1);
    assert!(matches!(target.addrs[0], Ip::V4(93, 184, 216, 34)));
    assert_eq!(target.url.port, 8080);
}

#[test]
fn pull_url_basename_uses_last_segment() {
    assert_eq!(url_basename("http://x/a/b/file.zip"), "file.zip");
    assert_eq!(url_basename("http://x/a%20b.txt"), "a b.txt");
    assert_eq!(url_basename("http://x/"), "download");
    assert_eq!(url_basename("http://x/a/../b"), "b");
    assert_eq!(url_basename("garbage"), "download");
    assert_eq!(basename_or_default(None), "download");
    assert_eq!(basename_or_default(Some("f".into())), "f");
}

#[test]
fn pull_download_is_atomic_and_preserves_existing_destination() {
    // A failed transfer never reaches the rename.
    assert_eq!(commit_step(CommitPhase::Streaming, false), CommitPhase::Discarded);
    assert_eq!(commit_step(CommitPhase::Syncing, false), CommitPhase::Discarded);
    // A whole one is synced and then renamed.
    let mut p = CommitPhase::Streaming;
    let mut seen = Vec::new();
    while p != CommitPhase::Done {
        seen.push(p);
        p = commit_step(p, true);
    }
    assert_eq!(seen, vec![CommitPhase::Streaming, CommitPhase::Syncing, CommitPhase::Renaming]);
    // A link at the destination is refused.
    let err = download_pull_at("lnk.txt", true).unwrap_err().message();
    assert!(err.contains("symlink"), "got: {err}");
    let temp = download_pull_at("out.txt", false).unwrap();
    assert_ne!(temp, "out.txt");
    assert_eq!(pull_temp_name("out.txt", "n"), pull_temp_name("out.txt", "n"));
    assert_ne!(pull_temp_name("out.txt", "n"), pull_temp_name("out.txt", "m"));
}

fn stream(cap: u64) -> PullStream {
    let u = parse_pull_url("http://files.example/a").unwrap();
    PullStream::new(prepare_pull(u, Some(vec![ip("93.184.216.34")])).unwrap(), cap)
}

#[test]
fn streams_follow_redirects_within_bounds() {
    let mut s = stream(1 << 20);
    s.request(false).unwrap();
    match s.response(302, &Header::Text("/b".into()), &Header::Missing).unwrap() {
        PullNext::Redirect { url } => {
            assert_eq!(url, "http://files.example/b");
            let u = parse_pull_url(&url).unwrap();
            s.redirected(prepare_pull(u, Some(vec![ip("1.1.1.1")])).unwrap());
        }
        other => panic!("{other:?}"),
    }
    s.request(false).unwrap();
    assert!(matches!(s.response(200, &Header::Missing, &Header::Text("12".into())).unwrap(), PullNext::Body));
    assert_eq!(s.total, Some(12));
    s.chunk(12, false).unwrap();
    assert_eq!(s.received, 12);
    for _ in 0..PULL_MAX_REDIRECTS - 1 {
        s.request(false).unwrap();
    }
    assert!(matches!(s.request(false), Err(PullError::TooManyRedirects)));
}

#[test]
fn each_refusal_of_a_stream_has_its_input() {
    let mut s = stream(10);
    assert!(matches!(s.request(true), Err(PullError::Cancelled)));
    assert!(matches!(s.response(301, &Header::Missing, &Header::Missing), Err(PullError::NoLocation { status: 301 })));
    assert!(matches!(s.response(301, &Header::Unreadable, &Header::Missing), Err(PullError::UnreadableLocation)));
    assert!(matches!(
        s.response(301, &Header::Text("http://[".into()), &Header::Missing),
        Err(PullError::InvalidRedirect { .. })
    ));
    assert!(matches!(s.response(404, &Header::Missing, &Header::Missing), Err(PullError::Status { status: 404 })));
    assert!(matches!(s.response(200, &Header::Missing, &Header::Text("11".into())), Err(PullError::TooLarge { .. })));
    s.chunk(10, false).unwrap();
    assert!(matches!(s.chunk(1, false), Err(PullError::TooLarge { .. })));
    assert!(matches!(s.chunk(0, true), Err(PullError::Cancelled)));
    assert!(matches!(check_pull_url("ftp", Some("h".into()), None), Err(PullError::Scheme { .. })));
    assert!(matches!(check_pull_url("http", None, None), Err(PullError::NoHost)));
    assert!(matches!(
        check_pull_url("http", Some("127.0.0.1".into()), Some(Ip::V4(127, 0, 0, 1))),
        Err(PullError::BlockedHost { .. })
    ));
    let u = parse_pull_url("http://h.example/").unwrap();
    assert!(matches!(prepare_pull(u.clone(), None), Err(PullError::Unresolved { .. })));
    assert!(matches!(prepare_pull(u, Some(vec![])), Err(PullError::NoAddresses { .. })));
    assert!(matches!(
        check_resolved_addrs("h", &vec![ip("1.1.1.1"), ip("10.0.0.1")]),
        Err(PullError::BlockedAddress { index: 1, .. })
    ));
    assert!(matches!(parse_pull_url("not a url"), Err(PullError::InvalidUrl { .. })));
    assert!(matches!(local_pull("/"), Err(PullError::NoName)));
    let p = local_pull("sub/hello.txt").unwrap();
    assert_eq!((p.dir.as_str(), p.name.as_str()), ("sub", "hello.txt"));
    assert_eq!(remote_pull("a", b"hi").content_b64, "aGk=");
}

#[test]
fn transfers_are_tracked_until_they_are_old() {
    let mut pulls = Pulls::new();
    pulls.register("p1", 1, "http://x/", "d", "local", "t", 0);
    let i = pulls.get_pull("p1").unwrap();
    assert_eq!(pull_status(&pulls.handles[i]).status, "running");
    assert!(cancel_pull(&mut pulls.handles[i]));
    finish_pull(&mut pulls.handles[i], Err("cancelled".into()), 5);
    assert_eq!(pull_status(&pulls.handles[i]).status, "cancelled");
    assert!(!cancel_pull(&mut pulls.handles[i]));
    let id = pulls.start_pull(1, "http://y/", "e", "local", 6);
    assert!(uuid::Uuid::parse_str(&id).is_ok());
    assert!(pulls.get_pull("p1").is_some());
    pulls.register("p3", 1, "http://z/", "f", "local", "t", 6 + PULL_TRANSFER_TTL);
    assert!(pulls.get_pull("p1").is_none());
    assert!(pulls.get_pull(&id).is_some());
    let i = pulls.get_pull(&id).unwrap();
    finish_pull(&mut pulls.handles[i], Ok(9), 8);
    let s = pull_status(&pulls.handles[i]);
    assert_eq!((s.status.as_str(), s.received), ("done", 9));
}
