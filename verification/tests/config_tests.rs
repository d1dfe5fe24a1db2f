use updns::config::{Config, InvalidType, try_parse_duration};
use updns::ip::{IpAddress, IpV4, IpV6, SocketAddress, parse_ip, parse_ipv4, parse_ipv6, parse_socket};
use updns::session::{ParseSession, ParseStep, split_lines};

fn v4(a: u8, b: u8, c: u8, d: u8) -> IpAddress {
    IpAddress::V4(IpV4 { o0: a, o1: b, o2: c, o3: d })
}

#[test]
fn duration_grammar() {
    assert_eq!(try_parse_duration("2s"), Ok(2000));
    assert_eq!(try_parse_duration("1ms"), Ok(1));
    assert_eq!(try_parse_duration("1.5s"), Ok(1500));
    assert!(try_parse_duration("0s").is_err());
    assert!(try_parse_duration("s").is_err());
    assert!(try_parse_duration("1x").is_err());
    assert_eq!(try_parse_duration("1m"), Ok(60000));
    assert_eq!(try_parse_duration("2h"), Ok(7200000));
    assert_eq!(try_parse_duration("1d"), Ok(86400000));
    assert_eq!(try_parse_duration("0.25s"), Ok(250));
    assert!(try_parse_duration("1.2.3s").is_err());
    assert!(try_parse_duration(".s").is_err());
    assert_eq!(try_parse_duration(".5s"), Ok(500));
    assert_eq!(try_parse_duration("2.s"), Ok(2000));
}

#[test]
fn ip_parsing() {
    assert_eq!(parse_ipv4("10.0.0.1"), Some(IpV4 { o0: 10, o1: 0, o2: 0, o3: 1 }));
    assert_eq!(parse_ipv4("255.255.255.255"), Some(IpV4 { o0: 255, o1: 255, o2: 255, o3: 255 }));
    assert_eq!(parse_ipv4("256.0.0.1"), None);
    assert_eq!(parse_ipv4("01.0.0.1"), None);
    assert_eq!(parse_ipv4("1.2.3"), None);
    assert_eq!(parse_ipv4("1.2.3.4.5"), None);

    assert_eq!(
        parse_ipv6("::"),
        Some(IpV6 { g0: 0, g1: 0, g2: 0, g3: 0, g4: 0, g5: 0, g6: 0, g7: 0 })
    );
    assert_eq!(
        parse_ipv6("::1"),
        Some(IpV6 { g0: 0, g1: 0, g2: 0, g3: 0, g4: 0, g5: 0, g6: 0, g7: 1 })
    );
    assert_eq!(
        parse_ipv6("2001:db8::8:800:200c:417a"),
        Some(IpV6 { g0: 0x2001, g1: 0xdb8, g2: 0, g3: 0, g4: 8, g5: 0x800, g6: 0x200c, g7: 0x417a })
    );
    assert_eq!(
        parse_ipv6("1:2:3:4:5:6:7:8"),
        Some(IpV6 { g0: 1, g1: 2, g2: 3, g3: 4, g4: 5, g5: 6, g6: 7, g7: 8 })
    );
    assert_eq!(parse_ipv6("1:2:3:4:5:6:7:8:9"), None);
    assert_eq!(parse_ipv6("1:2:3:4:5:6:7:8::"), None);
    assert_eq!(parse_ipv6(":1:2:3:4:5:6:7"), None);
    assert_eq!(parse_ipv6("1::2::3"), None);
    assert_eq!(parse_ipv6("fe80::"), Some(IpV6 { g0: 0xfe80, g1: 0, g2: 0, g3: 0, g4: 0, g5: 0, g6: 0, g7: 0 }));

    assert_eq!(parse_ip("10.0.0.1"), Some(v4(10, 0, 0, 1)));
    assert!(matches!(parse_ip("::1"), Some(IpAddress::V6(_))));
    assert_eq!(parse_ip("nonsense"), None);
}

#[test]
fn socket_parsing() {
    assert_eq!(
        parse_socket("0.0.0.0:53"),
        Some(SocketAddress { ip: v4(0, 0, 0, 0), port: 53 })
    );
    assert_eq!(
        parse_socket("8.8.8.8:53"),
        Some(SocketAddress { ip: v4(8, 8, 8, 8), port: 53 })
    );
    let s = parse_socket("[::1]:8053").unwrap();
    assert_eq!(s.port, 8053);
    assert!(matches!(s.ip, IpAddress::V6(_)));
    assert_eq!(parse_socket("8.8.8.8"), None);
    assert_eq!(parse_socket("8.8.8.8:99999"), None);
    assert_eq!(parse_socket("::1:53"), None);
}

#[test]
fn apply_line_directives() {
    let mut config = Config::new();
    assert_eq!(config.apply_line(1, "bind 0.0.0.0:53"), None);
    assert_eq!(config.apply_line(2, "proxy 8.8.8.8:53 # upstream"), None);
    assert_eq!(config.apply_line(3, "timeout 2s"), None);
    assert_eq!(config.apply_line(4, "   # a whole comment line"), None);
    assert_eq!(config.apply_line(5, ""), None);
    assert_eq!(config.apply_line(6, "example.com 10.0.0.1"), None);
    assert_eq!(config.apply_line(7, "10.0.0.4 fallback.example.com"), None);
    assert_eq!(config.apply_line(8, "import more.conf"), Some(String::from("more.conf")));
    assert_eq!(config.apply_line(9, "one two three"), None);

    assert_eq!(config.bind.len(), 1);
    assert_eq!(config.bind[0], SocketAddress { ip: v4(0, 0, 0, 0), port: 53 });
    assert_eq!(config.proxy.len(), 1);
    assert_eq!(config.timeout, Some(2000));
    let hosts = config.hosts.iter();
    assert_eq!(hosts.len(), 2);
    assert_eq!(hosts[0].1, v4(10, 0, 0, 1));
    assert_eq!(hosts[1].1, v4(10, 0, 0, 4));
    assert_eq!(config.invalid.len(), 1);
    assert!(matches!(config.invalid[0].kind, InvalidType::Other));
    assert_eq!(config.invalid[0].line, 9);
    assert_eq!(config.invalid[0].source, "one two three");
}

#[test]
fn apply_line_diagnostics() {
    let mut config = Config::new();
    config.apply_line(1, "bind nonsense");
    config.apply_line(2, "proxy also:nonsense");
    config.apply_line(3, "timeout never");
    config.apply_line(4, "example.com not.an.ip");
    config.apply_line(5, "~foo( 10.0.0.1");
    assert_eq!(config.invalid.len(), 5);
    assert!(matches!(config.invalid[0].kind, InvalidType::SocketAddr));
    assert!(matches!(config.invalid[1].kind, InvalidType::SocketAddr));
    assert!(matches!(config.invalid[2].kind, InvalidType::Timeout));
    assert!(matches!(config.invalid[3].kind, InvalidType::IpAddr));
    assert!(matches!(config.invalid[4].kind, InvalidType::Regex));
    assert_eq!(config.invalid[2].kind.description(), "Cannot parse timeout");
}

#[test]
fn host_lookup_first_match_wins() {
    let mut config = Config::new();
    config.apply_line(1, "*.com 10.0.0.1");
    config.apply_line(2, "example.com 10.0.0.2");
    // the wildcard was inserted first, so it wins
    assert_eq!(config.hosts.get("example.com"), Some(v4(10, 0, 0, 1)));
    // a fresh table in the other order exposes the literal
    let mut config2 = Config::new();
    config2.apply_line(1, "example.com 10.0.0.2");
    config2.apply_line(2, "*.com 10.0.0.1");
    assert_eq!(config2.hosts.get("example.com"), Some(v4(10, 0, 0, 2)));
    assert_eq!(config2.hosts.get("other.com"), Some(v4(10, 0, 0, 1)));
    assert_eq!(config2.hosts.get("other.org"), None);
}

#[test]
fn config_extend_keeps_order() {
    let mut parent = Config::new();
    parent.apply_line(1, "bind 0.0.0.0:53");
    parent.apply_line(2, "a.com 10.0.0.1");
    let mut child = Config::new();
    child.apply_line(1, "bind 1.1.1.1:53");
    child.apply_line(2, "b.com 10.0.0.2");
    child.apply_line(3, "timeout 3s");
    parent.extend(child);
    assert_eq!(parent.bind.len(), 2);
    assert_eq!(parent.bind[0], SocketAddress { ip: v4(0, 0, 0, 0), port: 53 });
    assert_eq!(parent.bind[1], SocketAddress { ip: v4(1, 1, 1, 1), port: 53 });
    let hosts = parent.hosts.iter();
    assert_eq!(hosts[0].1, v4(10, 0, 0, 1));
    assert_eq!(hosts[1].1, v4(10, 0, 0, 2));
    assert_eq!(parent.timeout, Some(3000));
}

fn run_session(root: &str, files: &[(&str, &str)]) -> Option<Config> {
    let mut session = ParseSession::new(String::from("root.conf"), root);
    loop {
        match session.step() {
            ParseStep::Progress => {},
            ParseStep::NeedFile { path, parent: _ } => {
                let text = files.iter().find(|(p, _)| *p == path.as_str())?.1;
                if !session.provide_file(path, text) {
                    return None;
                }
            },
            ParseStep::Done(config) => {
                return Some(config);
            },
        }
    }
}

#[test]
fn session_import_inlines_in_order() {
    let root = "a.com 10.0.0.1\nimport child.conf\nz.com 10.0.0.9\n";
    let child = "b.com 10.0.0.2\ntimeout 4s\n";
    let config = run_session(root, &[("child.conf", child)]).unwrap();
    let hosts = config.hosts.iter();
    assert_eq!(hosts.len(), 3);
    assert_eq!(hosts[0].1, v4(10, 0, 0, 1));
    assert_eq!(hosts[1].1, v4(10, 0, 0, 2));
    assert_eq!(hosts[2].1, v4(10, 0, 0, 9));
    assert_eq!(config.timeout, Some(4000));
}

#[test]
fn session_refuses_import_cycle() {
    let root = "import root.conf\n";
    // the root file importing itself is refused
    let mut session = ParseSession::new(String::from("root.conf"), root);
    loop {
        match session.step() {
            ParseStep::Progress => {},
            ParseStep::NeedFile { path, parent: _ } => {
                assert_eq!(path, "root.conf");
                assert!(!session.provide_file(path, root));
                return;
            },
            ParseStep::Done(_) => panic!("the cycle was not noticed"),
        }
    }
}

#[test]
fn split_lines_handles_endings() {
    let lines = split_lines("a\r\nb\nc");
    assert_eq!(lines.len(), 3);
    assert_eq!(lines[0], "a");
    assert_eq!(lines[1], "b");
    assert_eq!(lines[2], "c");
    let lines = split_lines("a\nb\n");
    assert_eq!(lines.len(), 2);
    assert_eq!(lines[0], "a");
    assert_eq!(lines[1], "b");
    let lines = split_lines("");
    assert!(lines.is_empty());
}
