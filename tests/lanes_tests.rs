use mangadl_rs::lanes::{aggregate, aggregate_keyed, concat_lanes, partition, LaneRunner};

fn strings(v: &[&str]) -> Vec<String> {
    v.iter().map(|s| s.to_string()).collect()
}

#[test]
fn unit_i_goes_to_lane_i_mod_w() {
    let lanes = partition((0..10).collect::<Vec<u32>>(), 3);
    assert_eq!(lanes, vec![vec![0, 3, 6, 9], vec![1, 4, 7], vec![2, 5, 8]]);
}

#[test]
fn lanes_hold_every_unit_for_each_worker_count() {
    let n = 7usize;
    for w in 1..=n {
        let lanes = partition((0..n).collect::<Vec<usize>>(), w);
        assert_eq!(lanes.len(), w);
        assert_eq!(lanes.iter().map(|l| l.len()).sum::<usize>(), n);
        for (j, lane) in lanes.iter().enumerate() {
            for (k, u) in lane.iter().enumerate() {
                assert_eq!(*u, k * w + j);
            }
        }
    }
}

#[test]
fn single_lane_is_the_input() {
    assert_eq!(partition(strings(&["c", "a", "b"]), 1), vec![strings(&["c", "a", "b"])]);
}

#[test]
fn more_lanes_than_units_leaves_lanes_empty() {
    let lanes = partition(vec![1u8, 2], 4);
    assert_eq!(lanes, vec![vec![1], vec![2], vec![], vec![]]);
    assert_eq!(partition(Vec::<u8>::new(), 2), vec![Vec::<u8>::new(), Vec::new()]);
}

#[test]
fn concatenation_keeps_lane_order() {
    assert_eq!(concat_lanes(vec![vec![3, 1], vec![], vec![2]]), vec![3, 1, 2]);
}

#[test]
fn aggregation_restores_address_order() {
    let urls = strings(&[
        "https://h/manga/T/0100-001.png",
        "https://h/manga/T/0100-002.png",
        "https://h/manga/T/0100-003.png",
        "https://h/manga/T/0101-001.png",
        "https://h/manga/T/0101-002.png",
    ]);
    let lanes = partition(urls.clone(), 2);
    assert_eq!(aggregate(lanes), urls);
}

#[test]
fn lane_completion_order_does_not_matter() {
    let a = strings(&["b-2", "a-1"]);
    let b = strings(&["c-0", "a-0"]);
    let c = strings(&["b-1"]);
    let first = aggregate(vec![a.clone(), b.clone(), c.clone()]);
    let second = aggregate(vec![c, a, b]);
    assert_eq!(first, second);
    assert_eq!(first, strings(&["a-0", "a-1", "b-1", "b-2", "c-0"]));
    assert_eq!(aggregate(vec![first.clone()]), first);
}

#[test]
fn aggregation_orders_by_code_point_and_keeps_duplicates() {
    let r = aggregate(vec![strings(&["b", "B", "ab", "a"]), strings(&["a", "é"])]);
    assert_eq!(r, strings(&["B", "a", "a", "ab", "b", "é"]));
}

#[test]
fn keyed_aggregation_sorts_by_key_and_keeps_payloads() {
    let lanes = vec![
        vec![("0100-002.png".to_string(), 2u32), ("0101-001.png".to_string(), 3)],
        vec![("0100-001.png".to_string(), 1u32)],
    ];
    let r = aggregate_keyed(lanes);
    assert_eq!(
        r,
        vec![("0100-001.png".to_string(), 1), ("0100-002.png".to_string(), 2), ("0101-001.png".to_string(), 3)]
    );
}

#[test]
fn lane_runner_hands_out_units_in_order_and_counts_them() {
    let mut runner: LaneRunner<u32, String> = LaneRunner::new(vec![5, 6, 7]);
    assert_eq!(runner.progress(), 0);
    let mut seen = Vec::new();
    while let Some(u) = runner.next_unit() {
        seen.push(u);
        assert_eq!(runner.progress(), seen.len());
        runner.record(vec![format!("{}a", u), format!("{}b", u)]);
    }
    assert_eq!(seen, vec![5, 6, 7]);
    assert_eq!(runner.next_unit(), None);
    assert_eq!(runner.progress(), 3);
    assert_eq!(runner.finish(), strings(&["5a", "5b", "6a", "6b", "7a", "7b"]));
}

#[test]
fn empty_lane_runner() {
    let mut runner: LaneRunner<u8, u8> = LaneRunner::new(Vec::new());
    assert_eq!(runner.next_unit(), None);
    assert_eq!(runner.progress(), 0);
    assert!(runner.finish().is_empty());
}

#[test]
fn keyed_aggregation_ignores_lane_count_and_order() {
    let items: Vec<(String, u32)> = (0..7u32).rev().map(|k| (format!("0100-{:03}.png", k), k)).collect();
    let one = aggregate_keyed(partition(items.clone(), 1));
    let mut three = partition(items, 3);
    three.reverse();
    assert_eq!(aggregate_keyed(three), one);
    assert_eq!(one.iter().map(|p| p.1).collect::<Vec<_>>(), vec![0, 1, 2, 3, 4, 5, 6]);
}
