use bract::loader::{BagState, LoadRequest, Priority};
use bract::memory::{decode_count, encode_record, field_stat, record_key, record_prefix, stats_from_entries};

#[test]
fn counts_and_last_value_round_trip() {
    let first = encode_record(0, "nginx");
    assert_eq!(decode_count(&first), 1);
    let second = encode_record(decode_count(&first), "redis");
    let stat = field_stat(&second).expect("a whole record");
    assert_eq!(stat.count, 2);
    assert_eq!(stat.last_value.as_deref(), Some("redis"));
}

#[test]
fn a_record_is_the_count_in_little_endian_then_the_value() {
    assert_eq!(encode_record(0x0102, "é"), vec![0x03, 0x01, 0, 0, 0, 0, 0, 0, 0xc3, 0xa9]);
    assert_eq!(decode_count(&[1, 2, 3]), 0);
    assert!(field_stat(&[1, 2, 3]).is_none());
}

#[test]
fn stats_are_scoped_to_one_command() {
    let prefix = record_prefix("kubectl", "get");
    let entries = vec![
        (record_key("kubectl", "get", "--namespace"), encode_record(2, "dev")),
        (record_key("kubectl", "get", "--output"), encode_record(0, "yaml")),
        (record_key("kubectl", "get2", "--x"), encode_record(7, "other")),
        (record_key("kubectl", "get", "--zzz"), encode_record(7, "after the break")),
    ];
    let stats = stats_from_entries(&prefix, &entries);
    let names: Vec<&str> = stats.iter().map(|(n, _)| n.as_str()).collect();
    assert_eq!(names, vec!["--namespace", "--output"]);
    assert_eq!(stats[0].1.count, 3);
    assert_eq!(stats[1].1.last_value.as_deref(), Some("yaml"));
}

#[test]
fn keys_join_their_parts_with_the_unit_separator() {
    assert_eq!(record_key("t", "c", "f"), "t\u{1f}c\u{1f}f");
    assert_eq!(record_prefix("t", "c"), "t\u{1f}c\u{1f}");
}

fn req(id: &str, priority: Priority) -> LoadRequest {
    LoadRequest { node_id: id.to_string(), tool_id: "t".to_string(), command_path: vec![], priority }
}

#[test]
fn high_priority_requests_are_taken_first() {
    let mut bag = BagState::new();
    bag.put(req("a", Priority::Low));
    bag.put(req("b", Priority::High));
    assert_eq!(bag.take().unwrap().node_id, "b");
    assert_eq!(bag.take().unwrap().node_id, "a");
    assert!(bag.take().is_none());
}

#[test]
fn a_node_is_queued_once_and_a_focus_upgrades_a_peek() {
    let mut bag = BagState::new();
    bag.put(req("a", Priority::Low));
    bag.put(req("a", Priority::Low));
    bag.put(req("c", Priority::Low));
    bag.put(req("a", Priority::High));
    assert_eq!(bag.take().unwrap().node_id, "a");
    assert_eq!(bag.take().unwrap().node_id, "c");
    assert!(bag.take().is_none());
}

#[test]
fn a_node_in_flight_is_not_queued_again_until_done() {
    let mut bag = BagState::new();
    bag.put(req("a", Priority::High));
    let taken = bag.take().unwrap();
    bag.put(req("a", Priority::High));
    assert!(bag.take().is_none());
    bag.done(&taken.node_id);
    bag.put(req("a", Priority::High));
    assert_eq!(bag.take().unwrap().node_id, "a");
}

#[test]
fn a_closed_bag_hands_out_nothing() {
    let mut bag = BagState::new();
    bag.put(req("a", Priority::High));
    bag.close();
    assert!(bag.is_closed());
    assert!(bag.take().is_none());
}
