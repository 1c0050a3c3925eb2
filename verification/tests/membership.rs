use hrw::members::{distinct, position, push_distinct, take_out};
use hrw::Rendezvous;

#[test]
fn new_selector_is_empty() {
    let r = Rendezvous::<u32>::new();
    assert!(r.is_empty());
    assert_eq!(r.len(), 0);
    assert!(r.nodes().is_empty());
    assert!(r.pick_top(&1u8).is_none());
}

#[test]
fn default_selector_is_empty() {
    let r: Rendezvous<u32> = Default::default();
    assert!(r.is_empty());
    assert_eq!(r.len(), 0);
}

#[test]
fn from_nodes_keeps_the_order() {
    let r = Rendezvous::from_nodes(vec![3u32, 1, 2]);
    assert_eq!(r.nodes().to_vec(), vec![3, 1, 2]);
    assert_eq!(r.len(), 3);
    assert!(!r.is_empty());
}

#[test]
fn from_nodes_passes_over_repeated_nodes() {
    let r = Rendezvous::from_nodes(vec!["A", "B", "A", "C", "B"]);
    assert_eq!(r.nodes().to_vec(), vec!["A", "B", "C"]);
    assert_eq!(r.len(), 3);
}

#[test]
fn from_nodes_of_nothing_is_empty() {
    let r = Rendezvous::from_nodes(Vec::<String>::new());
    assert!(r.is_empty());
}

#[test]
fn add_node_says_whether_it_added() {
    let mut r = Rendezvous::new();
    assert!(r.add_node("A"));
    assert!(r.add_node("B"));
    assert!(!r.add_node("A"));
    assert!(!r.add_node("B"));
    assert_eq!(r.nodes().to_vec(), vec!["A", "B"]);
}

#[test]
fn add_node_appends_at_the_end() {
    let mut r = Rendezvous::from_nodes(vec![1u8, 2]);
    r.add_node(0);
    assert_eq!(r.nodes().to_vec(), vec![1, 2, 0]);
}

#[test]
fn node_count_is_the_number_of_distinct_values_added() {
    let adds = [3u32, 1, 3, 3, 2, 1, 5, 5, 2, 3];
    let mut r = Rendezvous::new();
    let mut seen = std::collections::HashSet::new();
    for a in adds {
        let fresh = seen.insert(a);
        assert_eq!(r.add_node(a), fresh);
        assert_eq!(r.len(), seen.len());
    }
    assert_eq!(r.len(), 4);
    assert_eq!(r.nodes().to_vec(), vec![3, 1, 2, 5]);
}

#[test]
fn remove_node_moves_the_last_node_into_the_gap() {
    let mut r = Rendezvous::from_nodes(vec!["A", "B", "C", "D"]);
    assert!(r.remove_node(&"A"));
    assert_eq!(r.nodes().to_vec(), vec!["D", "B", "C"]);
    assert!(r.remove_node(&"C"));
    assert_eq!(r.nodes().to_vec(), vec!["D", "B"]);
    assert!(r.remove_node(&"D"));
    assert_eq!(r.nodes().to_vec(), vec!["B"]);
    assert!(r.remove_node(&"B"));
    assert!(r.is_empty());
}

#[test]
fn remove_node_of_an_absent_node_changes_nothing() {
    let mut r = Rendezvous::from_nodes(vec![1u64, 2, 3]);
    assert!(!r.remove_node(&4));
    assert_eq!(r.nodes().to_vec(), vec![1, 2, 3]);
    let mut empty = Rendezvous::<u64>::new();
    assert!(!empty.remove_node(&1));
    assert!(empty.is_empty());
}

#[test]
fn removed_node_is_absent_and_length_drops_by_one() {
    let mut r = Rendezvous::from_nodes(vec![10u16, 20, 30, 40, 50]);
    for x in [30u16, 10, 50, 20, 40] {
        let before = r.len();
        assert!(r.nodes().contains(&x));
        assert!(r.remove_node(&x));
        assert!(!r.nodes().contains(&x));
        assert_eq!(r.len(), before - 1);
    }
}

#[test]
fn position_is_the_first_place() {
    let nodes = vec![4u8, 7, 4, 9];
    assert_eq!(position(&nodes, &4), Some(0));
    assert_eq!(position(&nodes, &7), Some(1));
    assert_eq!(position(&nodes, &9), Some(3));
    assert_eq!(position(&nodes, &5), None);
    assert_eq!(position(&Vec::<u8>::new(), &5), None);
}

#[test]
fn push_distinct_adds_only_new_values() {
    let mut nodes = vec![1u8, 2];
    assert!(!push_distinct(&mut nodes, 2));
    assert_eq!(nodes, vec![1, 2]);
    assert!(push_distinct(&mut nodes, 3));
    assert_eq!(nodes, vec![1, 2, 3]);
}

#[test]
fn take_out_swaps_with_the_last() {
    let mut nodes = vec![1u8, 2, 3, 4];
    assert!(take_out(&mut nodes, &2));
    assert_eq!(nodes, vec![1, 4, 3]);
    assert!(take_out(&mut nodes, &3));
    assert_eq!(nodes, vec![1, 4]);
    assert!(!take_out(&mut nodes, &3));
    assert_eq!(nodes, vec![1, 4]);
}

#[test]
fn distinct_keeps_first_occurrences() {
    assert_eq!(distinct(vec![2u8, 1, 2, 3, 1, 1]), vec![2, 1, 3]);
    assert_eq!(distinct(Vec::<u8>::new()), Vec::<u8>::new());
    assert_eq!(distinct(vec![5u8, 5, 5]), vec![5]);
}
