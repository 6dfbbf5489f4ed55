use castavox_core::mirror::discovery::{
    by_name, instance_name, note, peer_of, Address, Peer, Resolved, SERVICE_TYPE,
};

fn desk(name: &str, id: &str) -> Peer {
    Peer {
        id: id.into(),
        name: name.into(),
        product: "pulpitry".into(),
        version: "0.4.0".into(),
        addresses: Vec::new(),
        port: 7854,
    }
}

#[test]
fn an_instance_name_survives_whatever_the_id_is() {
    assert_eq!(instance_name("abc-123"), "castavox-abc-123");
    assert_eq!(instance_name("a b/c.d"), "castavox-abcd");
    assert_eq!(instance_name(""), "castavox");
    assert_eq!(instance_name("!!!"), "castavox");
    assert!(instance_name(&"x".repeat(200)).len() < 64, "must fit a DNS label");
}

#[test]
fn ipv4_is_preferred_when_both_are_offered() {
    let v6 = Address::V6(0xfe80_0000_0000_0000_0000_0000_0000_0001);
    let v4 = Address::V4(0xc0a8_0114);
    let peer = Peer {
        id: "one".into(),
        name: "Desk".into(),
        product: "pulpitry".into(),
        version: "0.4.0".into(),
        addresses: vec![v6, v4],
        port: 7854,
    };
    assert_eq!(peer.address(), Some(v4));
    let only = Peer { addresses: vec![v6], ..desk("Desk", "one") };
    assert_eq!(only.address(), Some(v6));
}

#[test]
fn a_peer_with_no_address_is_not_offered_as_connectable() {
    let peer = Peer {
        id: "one".into(),
        name: "Desk".into(),
        product: "pulpitry".into(),
        version: "0.4.0".into(),
        addresses: Vec::new(),
        port: 7854,
    };
    assert_eq!(peer.address(), None);
}

#[test]
fn desks_are_listed_by_name() {
    let names: Vec<String> = by_name(vec![desk("Vestry", "c"), desk("Hall", "a"), desk("Hall", "b")])
        .into_iter()
        .map(|peer| format!("{}/{}", peer.name, peer.id))
        .collect();
    assert_eq!(names, vec!["Hall/a", "Hall/b", "Vestry/c"]);
}

#[test]
fn a_desk_that_says_little_is_still_known() {
    let peer = peer_of(Resolved {
        id: String::new(),
        name: String::new(),
        product: "pulpitry".into(),
        version: "0.4.0".into(),
        fullname: "castavox-abc._castavox._tcp.local.".into(),
        host: "desk.local.".into(),
        addresses: vec![Address::V4(1)],
        port: 7854,
    });
    assert_eq!(peer.id, "castavox-abc._castavox._tcp.local.");
    assert_eq!(peer.name, "desk.local");
    assert!(peer.id.ends_with(SERVICE_TYPE));
}

#[test]
fn a_desk_seen_twice_is_listed_once() {
    let mut found = Vec::new();
    note(&mut found, desk("Hall", "a"));
    note(&mut found, desk("Vestry", "b"));
    note(&mut found, Peer { port: 1, ..desk("Hall", "a") });
    assert_eq!(found.len(), 2);
}
