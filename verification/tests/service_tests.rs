use ipaggregator::config::{OverrideSettings, Settings};
use ipaggregator::formatters::{concat_to_size, make_cidr_ip_string, simple_formatter};
use ipaggregator::ipagg::{handle_event, AggEvent};
use ipaggregator::listeners::{get_credentials_from_settings, str_eq, ListenerCredentials};
use ipaggregator::parsers::{nom_ip_parser, parse_ip, parse_ip_checked, simple_parser};
use ipaggregator::senders::{get_publisher_credentials, PublisherCredentials};
use ipaggregator::subnet_tree::IPTree;
use ipaggregator::udp::{simpl_formatter, _concat_to_size};

fn make_ip(a: u8, b: u8, c: u8, d: u8) -> u32 {
    (a as u32) << 24 | (b as u32) << 16 | (c as u32) << 8 | d as u32
}

#[test]
fn test_concat_to_size() {
    let addresses = vec![
        (make_ip(192, 168, 1, 1), 32_u8),
        (make_ip(172, 16, 100, 0), 24_u8),
        (make_ip(10, 10, 0, 0), 16_u8),
        (make_ip(20, 0, 0, 0), 8_u8),
    ];
    assert_eq!(("192.168.1.1/32".to_owned(), 1), concat_to_size(&addresses, 20));
}

#[test]
fn test_concat_to_size_with_exact_len() {
    let addresses = vec![
        (make_ip(192, 168, 1, 1), 32_u8),
        (make_ip(172, 16, 100, 0), 24_u8),
        (make_ip(10, 10, 0, 0), 16_u8),
        (make_ip(20, 0, 0, 0), 8_u8),
    ];
    assert_eq!(
        ("192.168.1.1/32 172.16.100.0/24".to_owned(), 2),
        concat_to_size(&addresses, 30)
    );
}

#[test]
fn test_concat_to_size_too_short() {
    let addresses = vec![
        (make_ip(192, 168, 1, 1), 32_u8),
        (make_ip(172, 16, 100, 0), 24_u8),
        (make_ip(10, 10, 0, 0), 16_u8),
        (make_ip(20, 0, 0, 0), 8_u8),
    ];
    assert_eq!(("".to_owned(), 0), concat_to_size(&addresses, 5));
}

#[test]
#[allow(non_snake_case)]
fn test__concat_to_size() {
    let v = vec![
        "A".to_string(),
        "B".to_string(),
        "C".to_string(),
        "D".to_string(),
    ];
    assert_eq!(("A B".to_string(), 2), _concat_to_size(&v, 3));
    assert_eq!(("A B".to_string(), 2), _concat_to_size(&v, 4));
    assert_eq!(("A B C".to_string(), 3), _concat_to_size(&v, 5));
    assert_eq!(("A B C D".to_string(), 4), _concat_to_size(&v, 20));
}

#[test]
fn test_simpl_formatter_exhausts_batch() {
    let v = vec!["1.2.3.4/32".to_string()];
    assert_eq!(simpl_formatter(v), vec!["1.2.3.4/32".to_string()]);
    let empty: Vec<String> = Vec::new();
    assert_eq!(simpl_formatter(empty), Vec::<String>::new());
}

#[test]
fn test_simple_formatter_exhausts_batch() {
    let batch = vec![(make_ip(192, 168, 2, 1), 32u8), (make_ip(10, 0, 0, 0), 8u8)];
    assert_eq!(
        simple_formatter(batch),
        vec!["192.168.2.1/32 10.0.0.0/8".to_string()]
    );
}

#[test]
fn test_make_cidr_ip_string() {
    assert_eq!(make_cidr_ip_string(&(make_ip(10, 0, 0, 5), 24)), "10.0.0.5/24");
    assert_eq!(make_cidr_ip_string(&(0, 0)), "0.0.0.0/0");
    assert_eq!(
        make_cidr_ip_string(&(make_ip(255, 255, 255, 255), 32)),
        "255.255.255.255/32"
    );
}

#[test]
fn test_parse_ip() {
    assert_eq!([192, 168, 1, 1], parse_ip(b"192.168.1.1"));
    assert_eq!([127, 0, 0, 1], parse_ip(b"127.0.0.1"));
}

#[test]
fn test_simpl_parser() {
    let ips = b" 127.0.0.1   192.168.1.1 ";
    assert_eq!(
        Ok(vec![[127, 0, 0, 1], [192, 168, 1, 1]]),
        simple_parser(ips)
    );
}

#[test]
fn test_nom_ip_parser() {
    let ips = b" 127.0.0.1  192.168.1.1 ";
    assert_eq!(
        Ok(vec![[127, 0, 0, 1], [192, 168, 1, 1]]),
        nom_ip_parser(&ips[..])
    );
}

#[test]
fn test_nom_ip_parser_rejects_malformed() {
    assert!(nom_ip_parser(b"1.2.3").is_err());
    assert!(nom_ip_parser(b"256.1.1.1").is_err());
    assert!(nom_ip_parser(b"01.2.3.4").is_err());
    assert!(nom_ip_parser(b"1.2.3.4.5").is_err());
    assert!(nom_ip_parser(b"a.b.c.d").is_err());
    assert!(nom_ip_parser(b"1.2.3.4 5.6.7").is_err());
}

#[test]
fn test_parse_ip_checked_accepts_canonical_only() {
    assert_eq!(parse_ip_checked(b"0.0.0.0"), Some([0, 0, 0, 0]));
    assert_eq!(parse_ip_checked(b"255.255.255.255"), Some([255, 255, 255, 255]));
    assert_eq!(parse_ip_checked(b"10.00.0.1"), None);
    assert_eq!(parse_ip_checked(b""), None);
    assert_eq!(parse_ip_checked(b"1..2.3"), None);
}

#[test]
fn test_handle_event_add_then_dump() {
    let mut tree = IPTree::new_with_opts(false, false);
    let outcome = handle_event(
        &mut tree,
        AggEvent::ADD(vec![[9, 9, 9, 8], [9, 9, 9, 9]]),
    );
    assert!(!outcome.terminate);
    assert!(outcome.batches.is_empty());

    let dump = handle_event(&mut tree, AggEvent::DUMP);
    assert!(!dump.terminate);
    assert_eq!(dump.batches, vec![vec![(make_ip(9, 9, 9, 8), 31)]]);

    let stop = handle_event(&mut tree, AggEvent::TERMINATE);
    assert!(stop.terminate);
    assert!(stop.batches.is_empty());
}

#[test]
fn test_handle_event_dump_batch_boundary() {
    // exactly one full batch: the dump closes with an empty batch
    let mut tree = IPTree::new_with_opts(false, false);
    let mut addrs: Vec<[u8; 4]> = Vec::new();
    for a in 0..8u8 {
        for b in 0..125u8 {
            addrs.push([10, a, b, 1]);
        }
    }
    handle_event(&mut tree, AggEvent::ADD(addrs));
    let dump = handle_event(&mut tree, AggEvent::DUMP);
    assert_eq!(dump.batches.len(), 2);
    assert_eq!(dump.batches[0].len(), 1000);
    assert_eq!(dump.batches[1].len(), 0);
}

#[test]
fn test_settings_defaults() {
    let s = Settings::default();
    assert_eq!(s.get_receiver_type(), "udp");
    assert_eq!(s.get_publisher_type(), "udp");
    assert_eq!(s.get_udp_bind_address(), Some("127.0.0.1:6788".to_string()));
    assert_eq!(s.get_udp_send_to(), Some("127.0.0.1:6789".to_string()));
    assert_eq!(s.get_publish_timer(), 30);
    assert!(s.add_zeroed());
    assert!(s.add_broadcast());
    assert!(s.is_last_node_with_settings());
    assert!(s.get_logger_config().is_none());
    assert!(s.get_kafka_receiver_credentials().is_none());
}

#[test]
fn test_override_settings_merges() {
    let s = Settings::default();
    let mut over = OverrideSettings::default();
    over.kafka_hosts = vec!["broker1:9092".to_string(), "broker2:9092".to_string()];
    over.kafka_inboud_topic = Some("in".to_string());
    over.kafka_outbound_topic = Some("out".to_string());
    over.kafka_group = Some("group".to_string());
    over.receiver = Some("kafka".to_string());
    over.udp_send_to_host = Some("127.0.0.1:9999".to_string());
    let merged = s.override_settings(over);
    assert_eq!(merged.get_receiver_type(), "kafka");
    assert_eq!(merged.get_publisher_type(), "udp");
    assert_eq!(merged.get_udp_send_to(), Some("127.0.0.1:9999".to_string()));
    let kafka = merged.get_kafka_receiver_credentials().unwrap();
    assert_eq!(
        kafka.get_hosts(),
        vec!["broker1:9092".to_string(), "broker2:9092".to_string()]
    );
    assert_eq!(kafka.get_topic(), "in");
    assert_eq!(kafka.get_group(), "group");
    let sender_kafka = merged.sender.kafka.as_ref().unwrap();
    assert_eq!(sender_kafka.get_topic(), "out");
    assert_eq!(sender_kafka.get_ack_duration_seconds(), 1);
}

#[test]
fn test_get_credentials_from_settings_udp() {
    let s = Settings::default();
    match get_credentials_from_settings(&s) {
        Ok(ListenerCredentials::UdpServer(addr)) => assert_eq!(addr, "127.0.0.1:6788"),
        _ => panic!("expected udp credentials"),
    }
}

#[test]
fn test_get_credentials_from_settings_unknown() {
    let mut s = Settings::default();
    s.receiver.receiver = "carrier-pigeon".to_string();
    assert!(get_credentials_from_settings(&s).is_err());
}

#[test]
fn test_get_publisher_credentials_udp() {
    let s = Settings::default();
    match get_publisher_credentials(&s) {
        Ok(PublisherCredentials::Udp(target)) => assert_eq!(target, "127.0.0.1:6789"),
        _ => panic!("expected udp credentials"),
    }
}

#[test]
fn test_str_eq() {
    assert!(str_eq("udp", "udp"));
    assert!(!str_eq("udp", "kafka"));
    assert!(!str_eq("udp", "udp "));
    assert!(str_eq("", ""));
}

#[test]
fn test_walk_is_one_shot() {
    let mut tree = IPTree::new_with_opts(false, false);
    tree.add(&[1, 1, 1, 1]);
    let mut iter = tree.walk();
    assert!(iter.next().is_some());
    assert!(iter.next().is_none());
    assert!(iter.next().is_none());
    // a fresh walk starts over
    let mut again = tree.walk();
    assert_eq!(again.next(), Some((0x01010101, 32)));
}

#[test]
fn test_nom_ip_parser_empty_payload() {
    assert_eq!(nom_ip_parser(b""), Ok(vec![]));
    assert_eq!(nom_ip_parser(b"   "), Ok(vec![]));
}
