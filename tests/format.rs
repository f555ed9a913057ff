use hostsguard::addr::{address_to_string, is_localhost_ip, parse_ip_address, IpAddress};
use hostsguard::domain::{is_blockable_domain, is_local_domain};
use hostsguard::hosts::{parse_hosts, serialize_hosts, ParseError, PreservedLine};

fn has_alias(lines: &[PreservedLine], name: &str) -> bool {
    lines.iter().any(|line| {
        matches!(line, PreservedLine::LocalhostEntry { hostname, .. } if hostname.as_str() == name)
    })
}

fn blocks(list: &[String], name: &str) -> bool {
    list.iter().any(|d| d == name)
}

#[test]
fn test_is_localhost_ip() {
    assert!(is_localhost_ip(&parse_ip_address("127.0.0.1").unwrap()));
    assert!(is_localhost_ip(&parse_ip_address("127.0.0.0").unwrap()));
    assert!(is_localhost_ip(&parse_ip_address("0.0.0.0").unwrap()));
    assert!(is_localhost_ip(&parse_ip_address("::1").unwrap()));
    assert!(!is_localhost_ip(&parse_ip_address("192.168.1.1").unwrap()));
    assert!(!is_localhost_ip(&parse_ip_address("8.8.8.8").unwrap()));
}

#[test]
fn test_parse_simple_hosts() {
    let content = "127.0.0.1 localhost example.com";
    let parsed = parse_hosts(content).unwrap();

    assert_eq!(parsed.blocking.len(), 1);
    assert!(!blocks(&parsed.blocking, "localhost"));
    assert!(blocks(&parsed.blocking, "example.com"));
    assert!(has_alias(&parsed.preserved_lines, "localhost"));
}

#[test]
fn test_parse_with_comments() {
    let content = "# This is a comment\n127.0.0.1 localhost\n";
    let parsed = parse_hosts(content).unwrap();

    assert_eq!(parsed.preserved_lines.len(), 2);
    assert!(parsed.preserved_lines.iter().any(|line| matches!(line, PreservedLine::Comment(_))));
    assert!(has_alias(&parsed.preserved_lines, "localhost"));
    assert!(!blocks(&parsed.blocking, "localhost"));
}

#[test]
fn test_parse_non_localhost() {
    let content = "192.168.1.1 router\n127.0.0.1 localhost\n";
    let parsed = parse_hosts(content).unwrap();

    assert!(parsed.preserved_lines.iter().any(|line| {
        matches!(line, PreservedLine::NonLocalhostEntry(s) if s.contains("192.168.1.1"))
    }));
    assert!(!blocks(&parsed.blocking, "localhost"));
    assert!(has_alias(&parsed.preserved_lines, "localhost"));
}

#[test]
fn test_round_trip() {
    let source = "# Comment\n127.0.0.1 localhost example.com\n192.168.1.1 router\n\n";
    let parsed = parse_hosts(source).unwrap();
    let serialized = serialize_hosts(&parsed.preserved_lines, &parsed.blocking);

    let reparsed = parse_hosts(&serialized).unwrap();

    assert_eq!(parsed.blocking.len(), reparsed.blocking.len());
    assert!(!blocks(&reparsed.blocking, "localhost"));
    assert!(blocks(&reparsed.blocking, "example.com"));
    assert!(has_alias(&reparsed.preserved_lines, "localhost"));
}

#[test]
fn test_parse_ipv6_addresses() {
    let content = "fe00::0 ip6-localnet\nff00::0 ip6-mcastprefix\nff02::1 ip6-allnodes\nff02::2 ip6-allrouters\n::1 localhost\n";
    let parsed = parse_hosts(content).unwrap();

    assert_eq!(parsed.preserved_lines.len(), 5);
    assert_eq!(parsed.blocking.len(), 0);
    assert!(!blocks(&parsed.blocking, "localhost"));
    assert!(has_alias(&parsed.preserved_lines, "localhost"));
}

#[test]
fn scenario_note_alias_foreign_managed() {
    let input = "# note\n127.0.0.1 localhost example.com\n192.168.1.1 router\n";
    let parsed = parse_hosts(input).unwrap();
    assert_eq!(parsed.blocking, vec!["example.com".to_string()]);
    assert_eq!(parsed.preserved_lines.len(), 3);
    assert!(matches!(&parsed.preserved_lines[0], PreservedLine::Comment(c) if c == "# note"));
    assert!(matches!(&parsed.preserved_lines[1],
        PreservedLine::LocalhostEntry { ip: IpAddress::V4(127, 0, 0, 1), hostname } if hostname == "localhost"));
    assert!(matches!(&parsed.preserved_lines[2],
        PreservedLine::NonLocalhostEntry(s) if s == "192.168.1.1 router"));
    let text = serialize_hosts(&parsed.preserved_lines, &parsed.blocking);
    assert_eq!(text, "# note\n127.0.0.1 localhost\n192.168.1.1 router\n127.0.0.1 example.com\n");
}

#[test]
fn round_trip_keeps_blocked_names_and_kept_lines() {
    let input = "  # a\r\n0.0.0.0 ads.one.com   b.two.org\n10.0.0.1 nas nas.lan\n127.0.0.1 zeta beta\n::1 localhost ip6-loopback\n127.0.0.1 alpha ads.one.com\n";
    let first = parse_hosts(input).unwrap();
    let text = serialize_hosts(&first.preserved_lines, &first.blocking);
    let second = parse_hosts(&text).unwrap();
    assert_eq!(first.blocking, second.blocking);
    assert_eq!(first.blocking, vec!["ads.one.com".to_string(), "b.two.org".to_string()]);
    assert_eq!(
        text,
        "# a\n10.0.0.1 nas nas.lan\n127.0.0.1 alpha beta zeta\n::1 ip6-loopback localhost\n127.0.0.1 ads.one.com b.two.org\n"
    );
    let again = serialize_hosts(&second.preserved_lines, &second.blocking);
    assert_eq!(text, again);
}

#[test]
fn empty_document_serializes_to_empty_text() {
    let parsed = parse_hosts("").unwrap();
    assert!(parsed.blocking.is_empty());
    assert!(parsed.preserved_lines.is_empty());
    assert_eq!(serialize_hosts(&parsed.preserved_lines, &parsed.blocking), "");
}

#[test]
fn record_with_one_field_is_a_parse_error() {
    assert_eq!(parse_hosts("# ok\n\n127.0.0.1\n").unwrap_err(), ParseError { line: 3 });
    assert_eq!(parse_hosts("garbage").unwrap_err(), ParseError { line: 1 });
}

#[test]
fn malformed_address_is_kept_whole() {
    let parsed = parse_hosts("127.0.0.256 a.example.com\n127.000.0.1 b.example.com\n").unwrap();
    assert!(parsed.blocking.is_empty());
    assert!(matches!(&parsed.preserved_lines[0], PreservedLine::NonLocalhostEntry(s) if s == "127.0.0.256 a.example.com"));
    assert!(matches!(&parsed.preserved_lines[1], PreservedLine::NonLocalhostEntry(s) if s == "127.000.0.1 b.example.com"));
}

#[test]
fn loopback_duplicates_collapse() {
    let parsed = parse_hosts("127.0.0.1 x.com\n0.0.0.0 x.com y.com\n127.1.2.3 x.com\n").unwrap();
    assert_eq!(parsed.blocking, vec!["x.com".to_string(), "y.com".to_string()]);
    assert!(parsed.preserved_lines.is_empty());
}

#[test]
fn addresses_parse_in_their_forms() {
    assert_eq!(parse_ip_address("10.20.30.40"), Some(IpAddress::V4(10, 20, 30, 40)));
    assert_eq!(parse_ip_address("0:0:0:0:0:0:0:1"), Some(IpAddress::V6(0, 0, 0, 0, 0, 0, 0, 1)));
    assert_eq!(parse_ip_address("::"), Some(IpAddress::V6(0, 0, 0, 0, 0, 0, 0, 0)));
    assert_eq!(parse_ip_address("fe80::1:ABCD"), Some(IpAddress::V6(0xfe80, 0, 0, 0, 0, 0, 1, 0xabcd)));
    assert_eq!(parse_ip_address("1::2::3"), None);
    assert_eq!(parse_ip_address("01.2.3.4"), None);
    assert_eq!(parse_ip_address("1.2.3"), None);
    assert_eq!(parse_ip_address("1:2:3:4:5:6:7"), None);
    assert_eq!(parse_ip_address("12345::"), None);
    assert_eq!(parse_ip_address("router"), None);
    assert!(is_localhost_ip(&parse_ip_address("::").unwrap()));
    assert!(!is_localhost_ip(&parse_ip_address("::2").unwrap()));
}

#[test]
fn addresses_are_written_canonically() {
    assert_eq!(address_to_string(&IpAddress::V4(127, 0, 0, 1)), "127.0.0.1");
    assert_eq!(address_to_string(&IpAddress::V4(0, 10, 200, 255)), "0.10.200.255");
    assert_eq!(address_to_string(&IpAddress::V6(0, 0, 0, 0, 0, 0, 0, 1)), "::1");
    assert_eq!(address_to_string(&IpAddress::V6(0, 0, 0, 0, 0, 0, 0, 0)), "::");
    assert_eq!(address_to_string(&IpAddress::V6(0xfe80, 0, 0, 0, 0, 0, 1, 0xabcd)), "fe80:0:0:0:0:0:1:abcd");
}

#[test]
fn local_domains_are_recognised() {
    assert!(is_local_domain("localhost"));
    assert!(is_local_domain("localhost.localdomain"));
    assert!(is_local_domain("foo.localhost"));
    assert!(is_local_domain("device"));
    assert!(is_local_domain("LocalHost."));
    assert!(is_local_domain("printer..."));
    assert!(is_local_domain("FOO.LOCALHOST"));
    assert!(!is_local_domain("example.com"));
    assert!(!is_local_domain("localhost.com"));
    assert!(!is_local_domain("mylocalhost.org"));
}

#[test]
fn blockable_domains_are_checked() {
    assert!(is_blockable_domain("ads.example.com"));
    assert!(!is_blockable_domain(""));
    assert!(!is_blockable_domain("localhost"));
    assert!(!is_blockable_domain("a b.com"));
    let long = format!("{}.com", "a".repeat(249));
    assert_eq!(long.len(), 253);
    assert!(is_blockable_domain(&long));
    let too_long = format!("{}.com", "a".repeat(250));
    assert!(!is_blockable_domain(&too_long));
}

#[test]
fn ipv6_with_dotted_tail_is_read() {
    assert_eq!(parse_ip_address("::0.0.0.1"), Some(IpAddress::V6(0, 0, 0, 0, 0, 0, 0, 1)));
    assert_eq!(
        parse_ip_address("::ffff:1.2.3.4"),
        Some(IpAddress::V6(0, 0, 0, 0, 0, 0xffff, 0x0102, 0x0304))
    );
    assert_eq!(
        parse_ip_address("1:2:3:4:5:6:7.8.9.10"),
        Some(IpAddress::V6(1, 2, 3, 4, 5, 6, 0x0708, 0x090a))
    );
    assert_eq!(parse_ip_address("::1.2.3"), None);
    assert_eq!(parse_ip_address("1:2:3:4:5:6:7:1.2.3.4"), None);
    let parsed = parse_hosts("::0.0.0.1 ads.example.com device\n").unwrap();
    assert_eq!(parsed.blocking, vec!["ads.example.com".to_string()]);
    assert!(has_alias(&parsed.preserved_lines, "device"));
}
