use koto::kotonode::KotoNode;
use koto::mtime::Measure;
use koto::time::{Clock, Time};

#[test]
fn node_name_splits_at_its_dot() {
    assert_eq!(
        KotoNode::parse_nodename("freq.sine".to_string()),
        Some(("freq".to_string(), "sine".to_string()))
    );
    assert_eq!(KotoNode::parse_nodename(".val".to_string()), Some(("".to_string(), "val".to_string())));
    assert_eq!(KotoNode::parse_nodename("v.".to_string()), Some(("v".to_string(), "".to_string())));
}

#[test]
fn node_name_without_one_dot_is_refused() {
    assert_eq!(KotoNode::parse_nodename("freq".to_string()), None);
    assert_eq!(KotoNode::parse_nodename("a.b.c".to_string()), None);
    assert_eq!(KotoNode::parse_nodename("".to_string()), None);
    assert_eq!(KotoNode::parse_nodename("..".to_string()), None);
}

#[test]
fn clock_counts_samples() {
    let mut t = Time { sample_rate: 44100, tick: 9 };
    t.update();
    t.update();
    assert_eq!(t.tick, 11);
    assert_eq!(t.sample_rate, 44100);
}

#[test]
fn measures_compare_by_fields() {
    let m = Measure { beat: 4, note: 4 };
    assert_eq!(m, Measure { beat: 4, note: 4 });
    assert_ne!(m, Measure { beat: 3, note: 4 });
}
