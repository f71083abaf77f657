use peer_store::address::IpAddress;
use peer_store::controller::{peers_from_strings, PeersFileController, PeersFileControllerError};
use peer_store::peer::{Peer, PeerMap};

fn key_texts(m: &PeerMap) -> Vec<String> {
    m.keys().iter().map(|a| a.to_text()).collect()
}

#[test]
fn test_read_file() {
    let input = "[\"192.168.1.1\", \"192.168.4322.2\", \"192.168.2.1\", \"192.168.1.1\"]".to_string();

    let peers: Vec<String> = PeersFileController::parse_peer(input).expect("A list of peers").keys().iter().map(IpAddress::to_text).collect();

    assert_eq!(peers,
        ["192.168.1.1", "192.168.2.1"].as_slice()
    );
}

#[test]
fn duplicate_texts_collapse_to_one_entry() {
    let input = "[\"10.0.0.1\",\"10.0.0.1\",\"10.0.0.1\"]".to_string();
    let m = PeersFileController::parse_peer(input).expect("a list");
    assert_eq!(m.len(), 1);
    assert_eq!(key_texts(&m), vec!["10.0.0.1".to_string()]);
    let p = m.get(&IpAddress::V4(10, 0, 0, 1)).expect("a peer");
    assert_eq!(p.address(), "10.0.0.1");
}

#[test]
fn malformed_entries_are_dropped() {
    let input = "[\"1.2.3\", \"\", \"01.2.3.4\", \"256.0.0.1\", \"8.8.8.8\", \"a.b.c.d\"]".to_string();
    let m = PeersFileController::parse_peer(input).expect("a list");
    assert_eq!(key_texts(&m), vec!["8.8.8.8".to_string()]);
}

#[test]
fn empty_array_loads_to_empty_map() {
    let m = PeersFileController::parse_peer("[]".to_string()).expect("a list");
    assert_eq!(m.len(), 0);
}

#[test]
fn object_is_a_serialization_error() {
    let r = PeersFileController::parse_peer("{\"not\":\"an array\"}".to_string());
    assert!(matches!(r, Err(PeersFileControllerError::Serialization(_))));
}

#[test]
fn truncated_text_is_a_serialization_error() {
    let r = PeersFileController::parse_peer("[\"192.168.1.1\", \"10.0".to_string());
    assert!(matches!(r, Err(PeersFileControllerError::Serialization(_))));
}

#[test]
fn array_of_numbers_is_a_serialization_error() {
    let r = PeersFileController::parse_peer("[1, 2]".to_string());
    assert!(matches!(r, Err(PeersFileControllerError::Serialization(_))));
}

#[test]
fn failed_read_is_an_io_error() {
    let read = Err(std::io::Error::new(std::io::ErrorKind::NotFound, "no such file"));
    let r = PeersFileController::load(read);
    assert!(matches!(r, Err(PeersFileControllerError::Io(_))));
}

#[test]
fn successful_read_is_parsed() {
    let r = PeersFileController::load(Ok("[\"127.0.0.1\"]".to_string())).expect("a list");
    assert_eq!(key_texts(&r), vec!["127.0.0.1".to_string()]);
}

#[test]
fn parse_accepts_dotted_decimal() {
    assert_eq!(IpAddress::parse("192.168.1.1"), Some(IpAddress::V4(192, 168, 1, 1)));
    assert_eq!(IpAddress::parse("0.0.0.0"), Some(IpAddress::V4(0, 0, 0, 0)));
    assert_eq!(IpAddress::parse("255.255.255.255"), Some(IpAddress::V4(255, 255, 255, 255)));
    assert_eq!(IpAddress::parse("10.20.30.40"), Some(IpAddress::V4(10, 20, 30, 40)));
}

#[test]
fn parse_rejects_other_texts() {
    for t in ["192.168.4322.2", "256.1.1.1", "1.2.3", "1.2.3.4.5", "", "1..2.3", "01.1.1.1",
              "1.2.3.4 ", " 1.2.3.4", "1.2.3.-4", "1.2.3.4.", "1000.1.1.1"] {
        assert_eq!(IpAddress::parse(t), None, "{}", t);
    }
}

#[test]
fn text_of_address() {
    assert_eq!(IpAddress::V4(192, 168, 0, 7).to_text(), "192.168.0.7");
    assert_eq!(IpAddress::V4(0, 10, 100, 255).to_text(), "0.10.100.255");
}

#[test]
fn text_reads_back_as_the_address() {
    for a in [IpAddress::V4(1, 2, 3, 4), IpAddress::V4(0, 0, 0, 0), IpAddress::V4(255, 9, 99, 199)] {
        assert_eq!(IpAddress::parse(&a.to_text()), Some(a));
    }
}

#[test]
fn peer_keeps_its_text() {
    assert_eq!(Peer::new("10.1.1.1").address(), "10.1.1.1");
}

#[test]
fn peer_map_insert_and_get() {
    let mut m = PeerMap::new();
    let a = IpAddress::V4(1, 1, 1, 1);
    let b = IpAddress::V4(2, 2, 2, 2);
    m.insert(a, Peer::new("first"));
    m.insert(b, Peer::new("second"));
    m.insert(a, Peer::new("third"));
    assert_eq!(m.len(), 2);
    assert!(m.contains_key(&a));
    assert!(!m.contains_key(&IpAddress::V4(3, 3, 3, 3)));
    assert_eq!(m.get(&a).expect("a").address(), "third");
    assert_eq!(m.keys(), vec![a, b]);
}

#[test]
fn peers_from_strings_keeps_first_order() {
    let items = vec!["9.9.9.9".to_string(), "x".to_string(), "1.1.1.1".to_string(), "9.9.9.9".to_string()];
    let m = peers_from_strings(&items);
    assert_eq!(key_texts(&m), vec!["9.9.9.9".to_string(), "1.1.1.1".to_string()]);
}

#[test]
fn new_controller_is_clean() {
    let c = PeersFileController::new("peers.json");
    assert_eq!(c.file_path(), "peers.json");
    assert!(!c.is_changed());
    let m = PeerMap::new();
    assert!(matches!(c.write_plan(&m), Ok(None)));
}

#[test]
fn changed_controller_plans_the_json_text() {
    let mut c = PeersFileController::new("peers.json");
    c.mark_changed();
    assert!(c.is_changed());
    let m = PeersFileController::parse_peer("[\"192.168.1.1\",\"192.168.2.1\"]".to_string()).expect("a list");
    let t = c.write_plan(&m).expect("encoded").expect("a text");
    assert_eq!(t, "[\"192.168.1.1\",\"192.168.2.1\"]");
}

#[test]
fn second_save_writes_nothing() {
    let mut c = PeersFileController::new("peers.json");
    c.mark_changed();
    let m = PeersFileController::parse_peer("[\"1.2.3.4\"]".to_string()).expect("a list");
    assert!(matches!(c.write_plan(&m), Ok(Some(_))));
    assert!(c.finish_write(Ok(())).is_ok());
    assert!(!c.is_changed());
    assert!(matches!(c.write_plan(&m), Ok(None)));
    assert!(matches!(c.write_plan(&m), Ok(None)));
}

#[test]
fn failed_write_keeps_the_change() {
    let mut c = PeersFileController::new("peers.json");
    c.mark_changed();
    let r = c.finish_write(Err(std::io::Error::new(std::io::ErrorKind::PermissionDenied, "denied")));
    assert!(matches!(r, Err(PeersFileControllerError::Io(_))));
    assert!(c.is_changed());
}

#[test]
fn saved_text_loads_to_the_same_addresses() {
    let mut c = PeersFileController::new("peers.json");
    c.mark_changed();
    let mut m = PeerMap::new();
    m.insert(IpAddress::V4(172, 16, 0, 1), Peer::new("172.16.0.1"));
    m.insert(IpAddress::V4(8, 8, 4, 4), Peer::new("8.8.4.4"));
    let t = c.write_plan(&m).expect("encoded").expect("a text");
    let back = PeersFileController::parse_peer(t).expect("a list");
    assert_eq!(back.keys(), m.keys());
}

#[test]
fn parse_accepts_colon_form() {
    assert_eq!(IpAddress::parse("::1"), Some(IpAddress::V6(0, 0, 0, 0, 0, 0, 0, 1)));
    assert_eq!(IpAddress::parse("::"), Some(IpAddress::V6(0, 0, 0, 0, 0, 0, 0, 0)));
    assert_eq!(IpAddress::parse("1::"), Some(IpAddress::V6(1, 0, 0, 0, 0, 0, 0, 0)));
    assert_eq!(IpAddress::parse("1:2:3:4:5:6:7:8"), Some(IpAddress::V6(1, 2, 3, 4, 5, 6, 7, 8)));
    assert_eq!(IpAddress::parse("2001:db8::8a2e:370:7334"),
        Some(IpAddress::V6(0x2001, 0xdb8, 0, 0, 0, 0x8a2e, 0x370, 0x7334)));
    assert_eq!(IpAddress::parse("FE80::0001"), Some(IpAddress::V6(0xfe80, 0, 0, 0, 0, 0, 0, 1)));
    assert_eq!(IpAddress::parse("1:2:3:4:5:6::8"), Some(IpAddress::V6(1, 2, 3, 4, 5, 6, 0, 8)));
    assert_eq!(IpAddress::parse("1::3:4:5:6:7:8"), Some(IpAddress::V6(1, 0, 3, 4, 5, 6, 7, 8)));
}

#[test]
fn parse_rejects_bad_colon_forms() {
    for t in [":1", "1:", ":::", "1::2::3", "12345::", "1:2:3:4:5:6:7:8:9", "1:2:3:4::5:6:7:8",
              "1:2:3:4:5:6:7", "g::1", "1:::2", ":", "::1:", "1:2:3:4:5:6:7:8::"] {
        assert_eq!(IpAddress::parse(t), None, "{}", t);
    }
}

#[test]
fn text_of_version_6_address() {
    assert_eq!(IpAddress::V6(0, 0, 0, 0, 0, 0, 0, 1).to_text(), "0:0:0:0:0:0:0:1");
    assert_eq!(IpAddress::V6(0x2001, 0xdb8, 0, 0xabcd, 0xffff, 0x10, 0x100, 0x1000).to_text(),
        "2001:db8:0:abcd:ffff:10:100:1000");
}

#[test]
fn version_6_text_reads_back() {
    for a in [IpAddress::V6(0, 0, 0, 0, 0, 0, 0, 0), IpAddress::V6(0xffff, 1, 0x20, 0x300, 0x4000, 5, 6, 7)] {
        assert_eq!(IpAddress::parse(&a.to_text()), Some(a));
    }
}

#[test]
fn load_mixes_both_versions() {
    let input = "[\"::1\", \"127.0.0.1\", \"0:0:0:0:0:0:0:1\", \"fe80::\"]".to_string();
    let m = PeersFileController::parse_peer(input).expect("a list");
    assert_eq!(key_texts(&m), vec!["0:0:0:0:0:0:0:1".to_string(), "127.0.0.1".to_string(),
        "fe80:0:0:0:0:0:0:0".to_string()]);
    assert_eq!(m.get(&IpAddress::V6(0, 0, 0, 0, 0, 0, 0, 1)).expect("a peer").address(), "0:0:0:0:0:0:0:1");
}

#[test]
fn parse_accepts_dotted_tail() {
    assert_eq!(IpAddress::parse("::ffff:192.168.1.1"), Some(IpAddress::V6(0, 0, 0, 0, 0, 0xffff, 0xc0a8, 0x0101)));
    assert_eq!(IpAddress::parse("1:2:3:4:5:6:1.2.3.4"), Some(IpAddress::V6(1, 2, 3, 4, 5, 6, 0x0102, 0x0304)));
    assert_eq!(IpAddress::parse("::1.2.3.4"), Some(IpAddress::V6(0, 0, 0, 0, 0, 0, 0x0102, 0x0304)));
}

#[test]
fn parse_rejects_misplaced_dotted_text() {
    for t in ["1.2.3.4::", "1.2.3.4:1::", "1:2:3:4:5:6:7:1.2.3.4", "::1.2.3", "::256.1.1.1", "1:2:3:4:5:6:7:8:1.2.3.4"] {
        assert_eq!(IpAddress::parse(t), None, "{}", t);
    }
}
