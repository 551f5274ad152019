use chaincord::dial::{
    advertise_urls, invite_peer_list, inviter_dial_urls, is_direct_remote_key, is_loopback_host,
    is_mesh_vpn_host, is_private_host, is_relay_key, is_self_url, parse_ipv4, parse_ipv6,
    parse_port_str, parse_ws, prefer_non_loopback, prefer_reachability_order, same_home_lan,
    should_dial, unique_urls, usable_v4, usable_v6,
};

fn strings(v: &[&str]) -> Vec<String> {
    v.iter().map(|s| s.to_string()).collect()
}

#[test]
fn parse_ws_handles_ipv6() {
    assert_eq!(
        parse_ws("ws://[2001:db8::1]:7340"),
        Some(("2001:db8::1".into(), 7340))
    );
}

#[test]
fn prefer_lan_urls_over_loopback_invites() {
    let urls = prefer_non_loopback(strings(&[
        "ws://127.0.0.1:7340",
        "ws://192.168.100.2:7340",
        "ws://localhost:7340",
    ]));
    assert_eq!(urls, vec!["ws://192.168.100.2:7340".to_string()]);
}

#[test]
fn loopback_invite_kept_when_it_is_the_only_option() {
    let urls = prefer_non_loopback(strings(&["ws://127.0.0.1:7340"]));
    assert_eq!(urls, vec!["ws://127.0.0.1:7340".to_string()]);
}

#[test]
fn relay_is_not_a_direct_peer() {
    assert!(!is_direct_remote_key("relay"));
    assert!(!is_direct_remote_key("relay:0"));
    assert!(!is_direct_remote_key("pending:3"));
    assert!(is_direct_remote_key("ws://192.168.100.2:7340"));
}

#[test]
fn hyperv_switch_is_not_usable_but_mesh_vpns_are() {
    assert!(!usable_v4([192, 168, 137, 10]));
    assert!(usable_v4([192, 168, 100, 10]));
    assert!(usable_v4([25, 12, 34, 56]));
    assert!(usable_v4([26, 1, 2, 3]));
    assert!(usable_v4([100, 64, 1, 2]));
    assert!(!usable_v6(parse_ipv6("2001:0:53aa:64c:0:5efe:c0a8:6401").unwrap()));
    assert!(!usable_v6(parse_ipv6("2002:c0a8:1::1").unwrap()));
}

#[test]
fn should_not_dial_junk_adapters() {
    assert!(!should_dial("ws://192.168.137.1:7340"));
    assert!(should_dial("ws://26.12.34.56:7340"));
    assert!(should_dial("ws://25.1.2.3:7340"));
    assert!(should_dial("ws://127.0.0.1:7340"));
    assert!(should_dial("ws://192.168.1.9:7340"));
    assert!(should_dial("ws://203.0.113.10:7340"));
}

#[test]
fn invite_omits_loopback_so_friends_do_not_dial_themselves() {
    let listen_urls = strings(&["ws://127.0.0.1:7340", "ws://192.168.100.2:7340"]);
    assert_eq!(
        invite_peer_list(&listen_urls, "ws://127.0.0.1:7340"),
        vec!["ws://192.168.100.2:7340".to_string()]
    );
}

#[test]
fn invite_omits_public_ip() {
    let listen_urls = strings(&["ws://203.0.113.10:7340", "ws://192.168.100.2:7340"]);
    assert_eq!(
        invite_peer_list(&listen_urls, "ws://192.168.100.2:7340"),
        vec!["ws://192.168.100.2:7340".to_string()]
    );
}

#[test]
fn invite_lists_mesh_vpn_and_omits_public_ip() {
    let listen_urls = strings(&[
        "ws://203.0.113.10:7340",
        "ws://26.10.0.2:7340",
        "ws://25.1.2.3:7340",
        "ws://192.168.1.9:7340",
    ]);
    assert_eq!(
        invite_peer_list(&listen_urls, "ws://26.10.0.2:7340"),
        vec![
            "ws://192.168.1.9:7340".to_string(),
            "ws://26.10.0.2:7340".to_string(),
            "ws://25.1.2.3:7340".to_string(),
        ]
    );
}

#[test]
fn same_home_lan_requires_matching_subnet() {
    assert!(same_home_lan([192, 168, 100, 2], [192, 168, 100, 9]));
    assert!(!same_home_lan([192, 168, 100, 2], [192, 168, 1, 9]));
}

#[test]
fn invite_keeps_at_most_three_urls() {
    let listen_urls = strings(&[
        "ws://10.0.0.1:7340",
        "ws://10.0.0.2:7340",
        "ws://10.0.0.3:7340",
        "ws://10.0.0.4:7340",
    ]);
    assert_eq!(
        invite_peer_list(&listen_urls, ""),
        strings(&["ws://10.0.0.1:7340", "ws://10.0.0.2:7340", "ws://10.0.0.3:7340"])
    );
}

#[test]
fn ipv4_parsing_follows_std_rules() {
    assert_eq!(parse_ipv4("192.168.1.9"), Some([192, 168, 1, 9]));
    assert_eq!(parse_ipv4("0.0.0.0"), Some([0, 0, 0, 0]));
    assert_eq!(parse_ipv4("255.255.255.255"), Some([255, 255, 255, 255]));
    assert_eq!(parse_ipv4("256.1.1.1"), None);
    assert_eq!(parse_ipv4("01.1.1.1"), None);
    assert_eq!(parse_ipv4("1.1.1"), None);
    assert_eq!(parse_ipv4("1.1.1.1.1"), None);
    assert_eq!(parse_ipv4("1..1.1"), None);
    assert_eq!(parse_ipv4("localhost"), None);
}

#[test]
fn ipv6_parsing_follows_std_rules() {
    assert_eq!(parse_ipv6("::"), Some([0; 8]));
    assert_eq!(parse_ipv6("::1"), Some([0, 0, 0, 0, 0, 0, 0, 1]));
    assert_eq!(parse_ipv6("2001:db8::1"), Some([0x2001, 0xdb8, 0, 0, 0, 0, 0, 1]));
    assert_eq!(parse_ipv6("1:2:3:4:5:6:7:8"), Some([1, 2, 3, 4, 5, 6, 7, 8]));
    assert_eq!(parse_ipv6("1:2:3:4:5:6:7::"), Some([1, 2, 3, 4, 5, 6, 7, 0]));
    assert_eq!(parse_ipv6("::ffff:1.2.3.4"), Some([0, 0, 0, 0, 0, 0xffff, 0x0102, 0x0304]));
    assert_eq!(parse_ipv6("1:2:3:4:5:6:1.2.3.4"), Some([1, 2, 3, 4, 5, 6, 0x0102, 0x0304]));
    assert_eq!(parse_ipv6("FE80::AbCd"), Some([0xfe80, 0, 0, 0, 0, 0, 0, 0xabcd]));
    assert_eq!(parse_ipv6("1:2:3:4:5:6:7:8::"), None);
    assert_eq!(parse_ipv6("1::2::3"), None);
    assert_eq!(parse_ipv6(":::"), None);
    assert_eq!(parse_ipv6("12345::"), None);
    assert_eq!(parse_ipv6("1.2.3.4"), None);
    assert_eq!(parse_ipv6("1:2:3:4:5:6:7:1.2.3.4"), None);
    assert_eq!(parse_ipv6(""), None);
}

#[test]
fn private_and_mesh_hosts() {
    assert!(is_private_host("10.1.2.3"));
    assert!(is_private_host("172.16.0.1"));
    assert!(!is_private_host("172.32.0.1"));
    assert!(is_private_host("169.254.1.1"));
    assert!(is_private_host("fd00::1"));
    assert!(!is_private_host("2001:db8::1"));
    assert!(!is_private_host("example.org"));
    assert!(is_mesh_vpn_host("100.100.1.1"));
    assert!(!is_mesh_vpn_host("100.128.1.1"));
    assert!(is_loopback_host("::1"));
    assert!(!is_loopback_host("127.0.0.2"));
    assert!(is_relay_key("relay:7"));
}

#[test]
fn ws_urls_and_ports() {
    assert_eq!(parse_ws("wss://host:443/path"), Some(("host".into(), 443)));
    assert_eq!(parse_ws("ws://host"), None);
    assert_eq!(parse_ws("http://host:80"), None);
    assert_eq!(parse_ws("ws://host:70000"), None);
    assert_eq!(parse_port_str("+80"), Some(80));
    assert_eq!(parse_port_str("65536"), None);
}

#[test]
fn reachability_puts_lan_before_mesh_and_drops_public() {
    let urls = prefer_reachability_order(strings(&[
        "ws://25.1.1.1:1",
        "ws://203.0.113.1:1",
        "ws://192.168.0.2:1",
    ]));
    assert_eq!(urls, strings(&["ws://192.168.0.2:1", "ws://25.1.1.1:1"]));
}

#[test]
fn unique_urls_trim_and_dedupe() {
    let urls = unique_urls(&strings(&[" ws://a:1 ", "ws://a:1", "", "ws://b:2"]));
    assert_eq!(urls, strings(&["ws://a:1", "ws://b:2"]));
}

#[test]
fn self_urls_are_recognized() {
    let listen = strings(&["ws://192.168.1.2:7340"]);
    assert!(is_self_url("ws://127.0.0.1:7340", &listen, 7340, "ws://127.0.0.1:7340"));
    assert!(is_self_url("", &listen, 7340, "ws://localhost:7340"));
    assert!(is_self_url("", &listen, 7340, "ws://192.168.1.2:7340/x"));
    assert!(!is_self_url("", &listen, 7340, "ws://192.168.1.3:7340"));
    assert!(!is_self_url("", &listen, 0, "ws://localhost:7340"));
}

#[test]
fn inviter_dial_skips_self_and_junk() {
    let listen = strings(&["ws://192.168.1.2:7340"]);
    let urls = inviter_dial_urls(
        "ws://192.168.1.2:7340",
        &listen,
        7340,
        &strings(&[
            "ws://192.168.1.2:7340",
            "ws://127.0.0.1:7341",
            "ws://192.168.137.1:7340",
            "ws://192.168.1.5:7340",
            "http://192.168.1.6:7340",
        ]),
    );
    assert_eq!(urls, strings(&["ws://192.168.1.5:7340"]));
}

#[test]
fn advertised_urls_start_with_loopback() {
    let urls = advertise_urls(
        7340,
        Some("myhost"),
        &[[192, 168, 1, 2], [192, 168, 1, 2]],
        &strings(&["fd00::1"]),
    );
    assert_eq!(
        urls,
        strings(&[
            "ws://127.0.0.1:7340",
            "ws://myhost:7340",
            "ws://192.168.1.2:7340",
            "ws://[fd00::1]:7340",
        ])
    );
    assert_eq!(advertise_urls(1, Some(""), &[], &[]), strings(&["ws://127.0.0.1:1"]));
    assert_eq!(
        advertise_urls(1, Some("wss://x:9"), &[], &[]),
        strings(&["ws://127.0.0.1:1", "wss://x:9"])
    );
}
