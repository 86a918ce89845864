use los_node::endpoints::{
    bootstrap_from_genesis, ensure_host_port, insert_validator_endpoint,
    parse_bootstrap_list, resolve_genesis_host, GenesisWallet, ValidatorEndpoints,
};

fn wallet(host: Option<&str>, onion: Option<&str>, rest: Option<u16>, p2p: Option<u16>) -> GenesisWallet {
    GenesisWallet {
        host_address: host.map(|s| s.to_string()),
        onion_address: onion.map(|s| s.to_string()),
        rest_port: rest,
        p2p_port: p2p,
    }
}

#[test]
fn host_port_is_appended_only_when_missing() {
    assert_eq!(ensure_host_port("abc.onion", 3030), "abc.onion:3030");
    assert_eq!(ensure_host_port("1.2.3.4:7030", 3030), "1.2.3.4:7030");
    assert_eq!(ensure_host_port("host:", 3030), "host::3030");
    assert_eq!(ensure_host_port("1234", 3030), "1234:3030");
    assert_eq!(ensure_host_port(":8080", 3030), ":8080");
    assert_eq!(ensure_host_port("[::1]", 80), "[::1]:80");
    assert_eq!(ensure_host_port("node.example:abc", 1), "node.example:abc:1");
}

#[test]
fn genesis_host_prefers_host_address_then_onion() {
    assert_eq!(
        resolve_genesis_host(&wallet(Some("1.2.3.4"), Some("x.onion"), Some(7030), None)),
        Some("1.2.3.4:7030".to_string())
    );
    assert_eq!(
        resolve_genesis_host(&wallet(Some(""), Some("x.onion"), None, None)),
        Some("x.onion:3030".to_string())
    );
    assert_eq!(
        resolve_genesis_host(&wallet(None, Some("y.onion:9000"), Some(1), None)),
        Some("y.onion:9000".to_string())
    );
    assert_eq!(resolve_genesis_host(&wallet(None, Some(""), None, None)), None);
    assert_eq!(resolve_genesis_host(&wallet(None, None, None, None)), None);
}

#[test]
fn bootstrap_list_entries_are_trimmed_and_converted() {
    assert_eq!(
        parse_bootstrap_list(" 1.2.3.4:4001 , /ip4/5.6.7.8/tcp/1, abc.onion:4001,, plainhost "),
        vec!["/ip4/1.2.3.4/tcp/4001", "/ip4/5.6.7.8/tcp/1", "abc.onion:4001", "plainhost"]
    );
    assert!(parse_bootstrap_list("").is_empty());
    assert!(parse_bootstrap_list(" ,\t, ").is_empty());
    assert_eq!(parse_bootstrap_list("127.0.0.1:4001"), vec!["/ip4/127.0.0.1/tcp/4001"]);
}

#[test]
fn single_bootstrap_entries() {
    assert_eq!(parse_bootstrap_list("a:b:c"), vec!["/ip4/a/tcp/b:c"]);
    assert_eq!(parse_bootstrap_list("/dns4/x/tcp/1"), vec!["/dns4/x/tcp/1"]);
    assert_eq!(parse_bootstrap_list("abc.onion:4001"), vec!["abc.onion:4001"]);
    assert_eq!(parse_bootstrap_list("\u{a0}1.2.3.4:1\u{3000}"), vec!["/ip4/1.2.3.4/tcp/1"]);
}

#[test]
fn entries_are_trimmed_like_str_trim() {
    for code in 0u32..0x3100 {
        let c = match char::from_u32(code) {
            Some(c) => c,
            None => continue,
        };
        if c == ',' || c == ':' || c == '/' || c == '.' {
            continue;
        }
        let input = format!("{}x{}", c, c);
        let expected: Vec<String> = vec![input.trim().to_string()];
        assert_eq!(parse_bootstrap_list(&input), expected, "char U+{:04X}", code);
    }
}

#[test]
fn genesis_peers_skip_this_node() {
    let nodes = vec![
        wallet(Some("1.2.3.4"), None, None, Some(5001)),
        wallet(None, Some("abc.onion"), None, None),
        wallet(Some("9.9.9.9"), None, None, None),
        wallet(None, None, None, None),
        wallet(Some("/ip4/7.7.7.7/tcp/1"), None, Some(2), None),
    ];
    let ours = Some("9.9.9.9:3030".to_string());
    assert_eq!(
        bootstrap_from_genesis(&nodes, &ours),
        vec!["/ip4/1.2.3.4/tcp/5001", "abc.onion:4001", "/ip4/7.7.7.7/tcp/1"]
    );
    assert_eq!(bootstrap_from_genesis(&nodes, &None).len(), 4);
}

#[test]
fn one_host_maps_to_one_address() {
    let mut ve = ValidatorEndpoints::new();
    insert_validator_endpoint(&mut ve, "LOSold".to_string(), "h.onion".to_string());
    insert_validator_endpoint(&mut ve, "LOSother".to_string(), "k.onion".to_string());
    assert_eq!(ve.len(), 2);
    // A restart with a new key replaces the stale address of the same host.
    insert_validator_endpoint(&mut ve, "LOSnew".to_string(), "h.onion".to_string());
    assert_eq!(ve.len(), 2);
    assert_eq!(ve.get("LOSold"), None);
    assert_eq!(ve.get("LOSnew"), Some("h.onion".to_string()));
    assert_eq!(ve.get("LOSother"), Some("k.onion".to_string()));
    // The same address may move to another host.
    insert_validator_endpoint(&mut ve, "LOSnew".to_string(), "z.onion".to_string());
    assert_eq!(ve.len(), 2);
    assert_eq!(ve.get("LOSnew"), Some("z.onion".to_string()));
    let mut pairs = ve.pairs();
    pairs.sort();
    assert_eq!(
        pairs,
        vec![
            ("LOSnew".to_string(), "z.onion".to_string()),
            ("LOSother".to_string(), "k.onion".to_string())
        ]
    );
}

#[test]
fn a_second_port_is_never_appended() {
    for host in ["abc.onion", "1234", "1.2.3.4:7030", "host:", "[::1]", ""] {
        let r = ensure_host_port(host, 3030);
        assert!(r == host || r == format!("{}:3030", host));
        assert_eq!(ensure_host_port(&r, 4001), r);
    }
}

#[test]
fn onion_genesis_peer_gets_its_p2p_port() {
    let nodes = vec![wallet(None, Some("abc.onion"), None, Some(4001))];
    assert_eq!(bootstrap_from_genesis(&nodes, &None), vec!["abc.onion:4001"]);
}
