use ip_extractor::{parse_network, Network};

fn full() -> Network {
    Network {
        name: "eth0".to_string(),
        inet: Some("192.168.1.5".to_string()),
        broadcast: Some("192.168.1.255".to_string()),
        netmask: Some("255.255.255.0".to_string()),
        mac: Some("aa:bb:cc:dd:ee:ff".to_string()),
    }
}

#[test]
fn renders_five_lines_in_order() {
    let text = full().render();
    assert_eq!(
        text,
        "name: eth0\ninet: 192.168.1.5\nbroadcast: 192.168.1.255\nnetmask: 255.255.255.0\nmac: aa:bb:cc:dd:ee:ff"
    );
    let lines: Vec<&str> = text.split('\n').collect();
    assert_eq!(
        lines,
        vec![
            "name: eth0",
            "inet: 192.168.1.5",
            "broadcast: 192.168.1.255",
            "netmask: 255.255.255.0",
            "mac: aa:bb:cc:dd:ee:ff"
        ]
    );
}

#[test]
fn renders_name_alone() {
    let network = Network {
        name: "lo".to_string(),
        inet: None,
        broadcast: None,
        netmask: None,
        mac: None,
    };
    assert_eq!(network.render(), "name: lo");
}

#[test]
fn renders_empty_name() {
    let network = Network {
        name: String::new(),
        inet: None,
        broadcast: None,
        netmask: None,
        mac: None,
    };
    assert_eq!(network.render(), "name: ");
}

#[test]
fn leaves_unset_fields_out() {
    let mut network = full();
    network.broadcast = None;
    network.mac = None;
    assert_eq!(network.render(), "name: eth0\ninet: 192.168.1.5\nnetmask: 255.255.255.0");
    let mut network = full();
    network.inet = None;
    network.netmask = None;
    assert_eq!(network.render(), "name: eth0\nbroadcast: 192.168.1.255\nmac: aa:bb:cc:dd:ee:ff");
}

#[test]
fn renders_empty_values() {
    let network = Network {
        name: "a".to_string(),
        inet: Some(String::new()),
        broadcast: None,
        netmask: None,
        mac: Some(String::new()),
    };
    assert_eq!(network.render(), "name: a\ninet: \nmac: ");
}

#[test]
fn renders_what_was_parsed() {
    let network = parse_network("wlan0: flags\n  inet 10.0.0.7  netmask 255.0.0.0\n  ether 11:22");
    assert_eq!(network.render(), "name: wlan0\ninet: 10.0.0.7\nnetmask: 255.0.0.0\nmac: 11:22");
}

#[test]
fn line_break_in_a_name_adds_a_line() {
    let network = parse_network("first\nsecond: inet 1.2.3.4");
    assert_eq!(network.render(), "name: first\nsecond\ninet: 1.2.3.4");
}

#[test]
fn clone_keeps_every_field() {
    let network = full();
    let copy = network.clone();
    assert_eq!(copy.name, network.name);
    assert_eq!(copy.inet, network.inet);
    assert_eq!(copy.broadcast, network.broadcast);
    assert_eq!(copy.netmask, network.netmask);
    assert_eq!(copy.mac, network.mac);
    let bare = parse_network("lo: up").clone();
    assert_eq!(bare.name, "lo");
    assert!(bare.inet.is_none() && bare.broadcast.is_none());
    assert!(bare.netmask.is_none() && bare.mac.is_none());
}
