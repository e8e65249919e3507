use dnsl::config::Config;
use dnsl::error::Error;
use dnsl::models::qd::QD;
use dnsl::models::rr::RR;
use dnsl::route::{resolv_line, resolv_route, Route, RouteConfig, RouteKey};
use dnsl::tasks::listen::{listen_decide, ListenAction};
use dnsl::tasks::reply::reply_target;
use dnsl::tasks::QueryMap;

fn qd(name: &str) -> QD {
    QD { qname: name.to_string(), qtype: 1, qclass: 1 }
}

fn rr(name: &str, ip: [u8; 4]) -> RR {
    RR { name: name.to_string(), rrtype: 1, rrclass: 1, ttl: 0, rdata: ip.to_vec() }
}

fn query(id: u16, labels: &[&str]) -> Vec<u8> {
    let mut m = vec![(id >> 8) as u8, id as u8, 1, 0, 0, 1, 0, 0, 0, 0, 0, 0];
    for l in labels {
        m.push(l.len() as u8);
        m.extend_from_slice(l.as_bytes());
    }
    m.push(0);
    m.extend_from_slice(&[0, 1, 0, 1]);
    m
}

#[test]
fn route_later_entry_wins() {
    let config = RouteConfig {
        route: vec![
            RouteKey { qd: qd("a.com"), rr: rr("a.com", [1, 1, 1, 1]) },
            RouteKey { qd: qd("b.com"), rr: rr("b.com", [2, 2, 2, 2]) },
            RouteKey { qd: qd("a.com"), rr: rr("a.com", [3, 3, 3, 3]) },
        ],
    };
    let route = config.route();
    assert_eq!(route.get(&qd("a.com")), Some(&rr("a.com", [3, 3, 3, 3])));
    assert_eq!(route.get(&qd("b.com")), Some(&rr("b.com", [2, 2, 2, 2])));
    assert_eq!(route.get(&qd("c.com")), None);
}

#[test]
fn route_keys_by_type_and_class() {
    let mut route = Route::new();
    route.insert(qd("a.com"), rr("a.com", [1, 2, 3, 4]));
    let aaaa = QD { qname: "a.com".to_string(), qtype: 28, qclass: 1 };
    assert_eq!(route.get(&aaaa), None);
    assert!(route.get(&qd("a.com")).is_some());
}

#[test]
fn route_insert_replaces() {
    let mut route = Route::new();
    route.insert(qd("x"), rr("x", [1, 1, 1, 1]));
    route.insert(qd("x"), rr("x", [9, 9, 9, 9]));
    assert_eq!(route.get(&qd("x")), Some(&rr("x", [9, 9, 9, 9])));
}

#[test]
fn resolv_line_gives_a_record() {
    let k = resolv_line("192.168.0.1 example.com").unwrap();
    assert_eq!(k.qd, qd("example.com"));
    assert_eq!(k.rr, rr("example.com", [192, 168, 0, 1]));
}

#[test]
fn resolv_line_without_space() {
    assert!(resolv_line("192.168.0.1").is_none());
}

#[test]
fn resolv_line_bad_octet() {
    assert!(resolv_line("1.2.300.4 a").is_none());
    assert!(resolv_line("1.2.x.4 a").is_none());
    assert!(resolv_line("1..2.3 a").is_none());
    assert!(resolv_line("-1.2.3.4 a").is_none());
}

#[test]
fn resolv_line_octets_as_from_str() {
    let k = resolv_line("+1.002.255.0 a").unwrap();
    assert_eq!(k.rr.rdata, vec![1, 2, 255, 0]);
    let k = resolv_line("7 short").unwrap();
    assert_eq!(k.rr.rdata, vec![7]);
}

#[test]
fn resolv_line_name_after_first_space() {
    let k = resolv_line("1.2.3.4 a b").unwrap();
    assert_eq!(k.qd.qname, "a b");
    let k = resolv_line("1.2.3.4 ").unwrap();
    assert_eq!(k.qd.qname, "");
}

#[test]
fn resolv_route_skips_short_lines() {
    let lines = vec![
        "1.2.3.4 a.com".to_string(),
        "".to_string(),
        "x".to_string(),
        "5.6.7.8 a.com".to_string(),
        "9.9.9.9 b.com".to_string(),
    ];
    let route = resolv_route(&lines).unwrap();
    assert_eq!(route.get(&qd("a.com")), Some(&rr("a.com", [5, 6, 7, 8])));
    assert_eq!(route.get(&qd("b.com")), Some(&rr("b.com", [9, 9, 9, 9])));
}

#[test]
fn resolv_route_fails_on_bad_line() {
    let lines = vec!["1.2.3.4 a.com".to_string(), "garbage".to_string()];
    assert!(resolv_route(&lines).is_none());
}

#[test]
fn listen_forwards_unknown_question() {
    let route = Route::new();
    let q = query(0x4242, &["www", "example", "com"]);
    match listen_decide(&route, &q) {
        Ok((id, ListenAction::Forward)) => assert_eq!(id, 0x4242),
        other => panic!("unexpected {:?}", other),
    }
}

#[test]
fn listen_replies_to_configured_question() {
    let mut route = Route::new();
    route.insert(qd("a.com"), rr("a.com", [1, 2, 3, 4]));
    let q = query(7, &["a", "com"]);
    match listen_decide(&route, &q) {
        Ok((7, ListenAction::Reply(bytes))) => {
            let mut expected = vec![0, 7, 0x81, 0, 0, 1, 0, 1, 0, 0, 0, 0];
            expected.extend_from_slice(&q[12..]);
            rr("a.com", [1, 2, 3, 4]).buf(&mut expected);
            assert_eq!(bytes, expected);
        }
        other => panic!("unexpected {:?}", other),
    }
}

#[test]
fn listen_reply_keeps_trailing_bytes() {
    let mut route = Route::new();
    route.insert(qd("a.com"), rr("a.com", [1, 2, 3, 4]));
    let mut q = query(9, &["a", "com"]);
    q.resize(40, 0);
    match listen_decide(&route, &q) {
        Ok((9, ListenAction::Reply(bytes))) => {
            assert_eq!(bytes.len(), 40 + 21);
            assert_eq!(bytes[12..23], q[12..23]);
        }
        other => panic!("unexpected {:?}", other),
    }
}

#[test]
fn listen_malformed_question() {
    let route = Route::new();
    let q = query(7, &["a", "com"]);
    assert!(matches!(listen_decide(&route, &q[..14]), Err(Error::UnexpectedEof)));
}

#[test]
fn query_map_answer_goes_to_asker() {
    let mut map: QueryMap<&str> = QueryMap::new();
    map.record(0x0102, "client-a");
    map.record(0x0304, "client-b");
    assert_eq!(reply_target(&mut map, &[0x01, 0x02, 0xff]), Some("client-a"));
    assert_eq!(reply_target(&mut map, &[0x01, 0x02]), None);
    assert_eq!(map.take(0x0304), Some("client-b"));
    assert_eq!(map.take(0x0304), None);
}

#[test]
fn query_map_record_replaces() {
    let mut map: QueryMap<u32> = QueryMap::new();
    map.record(5, 1);
    map.record(5, 2);
    assert_eq!(map.take(5), Some(2));
}

#[test]
fn config_defaults() {
    let c = Config::from_vars(None, None, None, None);
    assert_eq!(c.listen_addr, "127.0.0.1:53");
    assert_eq!(c.lookup_addr, "0.0.0.0:10053");
    assert_eq!(c.upstream, "8.8.8.8:53");
    assert_eq!(c.route_file, "route");
    assert_eq!(c.udp_msg_max_size, 512);
}

#[test]
fn config_values_override_defaults() {
    let c = Config::from_vars(
        Some("127.0.0.1:10000".to_string()),
        Some("0.0.0.0:10001".to_string()),
        Some("1.1.1.1:53".to_string()),
        Some("routes.yaml".to_string()),
    );
    assert_eq!(c.listen_addr, "127.0.0.1:10000");
    assert_eq!(c.lookup_addr, "0.0.0.0:10001");
    assert_eq!(c.upstream, "1.1.1.1:53");
    assert_eq!(c.route_file, "routes.yaml");
}
