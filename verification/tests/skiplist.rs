use rand::Rng;
use skiplist::path::PathCell;
use skiplist::path::Tint;
use skiplist::SkipList;
use std::iter;

fn generate(len: usize) -> String {
    const CHARSET: &[u8] = b"ABCDEFGHIJKLMNOPQRSTUVWXYZ0123456789";
    let mut rng = rand::thread_rng();
    let one_char = || CHARSET[rng.gen_range(0..CHARSET.len())] as char;
    iter::repeat_with(one_char).take(len).collect()
}

fn entries(row: &[PathCell]) -> Vec<u64> {
    let mut out = Vec::new();
    for cell in row {
        if let PathCell::Entry(offset, _, _) = cell {
            out.push(*offset);
        }
    }
    out
}

// Offsets 10, 20, 30, 40, 50 on three lanes, with records 2 and 4 on
// lane 1 and record 3 on lane 2.
fn fixed_list() -> SkipList {
    let mut list = SkipList::new(3);
    list.append_at_level(10, "a".to_string(), 0);
    list.append_at_level(20, "b".to_string(), 1);
    list.append_at_level(30, "c".to_string(), 2);
    list.append_at_level(40, "d".to_string(), 1);
    list.append_at_level(50, "e".to_string(), 0);
    list
}

#[test]
fn run_test() {
    let mut skip_list = SkipList::new(6);
    let mut generate_values = vec![];
    for i in 0..10 {
        generate_values.push(generate(6));
        skip_list.append(i, generate_values[i as usize].clone());
    }
    let offset = rand::thread_rng().gen_range(0..10);
    if let Some((data, level)) = skip_list.find(offset) {
        println!("offset={}, data={}, level_found={}", offset, data, level);
        skip_list.level_path(offset, level);
        assert_eq!(data, generate_values[offset as usize])
    }
}

#[test]
fn ten_records_on_six_lanes_are_all_found() {
    let mut list = SkipList::new(6);
    for k in 0..10u64 {
        list.append(k, format!("v{}", k));
    }
    for k in 0..10u64 {
        let (data, level) = list.find(k).unwrap();
        assert_eq!(data, format!("v{}", k));
        assert!(level <= 5);
    }
    assert_eq!(list.find(10), None);
}

#[test]
fn one_lane_is_a_linked_list() {
    let mut list = SkipList::new(1);
    for k in 0..20u64 {
        list.append(k * 3, format!("p{}", k));
    }
    for k in 0..20u64 {
        assert_eq!(list.find(k * 3), Some((format!("p{}", k), 0)));
        assert_eq!(list.find(k * 3 + 1), None);
    }
    let rows = list.level_path(6, 0);
    assert_eq!(rows.len(), 1);
    assert_eq!(entries(&rows[0]).len(), 20);
}

#[test]
fn zero_lanes_are_refused() {
    assert!(SkipList::try_new(0).is_none());
    let mut list = SkipList::try_new(1).unwrap();
    list.append(4, "x".to_string());
    assert_eq!(list.find(4), Some(("x".to_string(), 0)));
}

#[test]
fn empty_list_finds_nothing() {
    let list = SkipList::new(4);
    assert_eq!(list.find(0), None);
    assert_eq!(list.find(u64::MAX), None);
    assert!(list.level_path(0, 0).is_empty());
}

#[test]
fn single_record_is_found_on_lane_zero() {
    let mut list = SkipList::new(5);
    list.append(42, "only".to_string());
    assert_eq!(list.find(42), Some(("only".to_string(), 0)));
    assert_eq!(list.find(41), None);
    assert_eq!(list.find(43), None);
}

#[test]
fn record_is_met_on_its_top_lane() {
    let list = fixed_list();
    assert_eq!(list.find(10), Some(("a".to_string(), 2)));
    assert_eq!(list.find(20), Some(("b".to_string(), 1)));
    assert_eq!(list.find(30), Some(("c".to_string(), 2)));
    assert_eq!(list.find(40), Some(("d".to_string(), 1)));
    assert_eq!(list.find(50), Some(("e".to_string(), 0)));
}

#[test]
fn first_record_is_met_on_the_highest_lane_in_use() {
    let mut list = SkipList::new(6);
    list.append_at_level(1, "first".to_string(), 0);
    list.append_at_level(2, "second".to_string(), 0);
    list.append_at_level(3, "third".to_string(), 3);
    assert_eq!(list.find(1), Some(("first".to_string(), 3)));
    assert_eq!(list.find(2), Some(("second".to_string(), 0)));
    assert_eq!(list.find(3), Some(("third".to_string(), 3)));
}

#[test]
fn first_record_is_found_for_any_lane_count() {
    for lanes in 1..9usize {
        let mut list = SkipList::new(lanes);
        list.append(7, "head".to_string());
        for k in 0..12u64 {
            list.append(8 + k, format!("t{}", k));
        }
        let (data, level) = list.find(7).unwrap();
        assert_eq!(data, "head");
        assert!(level < lanes);
    }
}

#[test]
fn offsets_never_appended_are_missed() {
    let list = fixed_list();
    for offset in [0u64, 9, 11, 25, 35, 45, 51, u64::MAX] {
        assert_eq!(list.find(offset), None);
    }
}

#[test]
fn lookups_repeat() {
    let mut list = SkipList::new(4);
    for k in 0..50u64 {
        list.append(k * 2, format!("r{}", k));
    }
    for offset in 0..100u64 {
        let first = list.find(offset);
        let second = list.find(offset);
        assert_eq!(first, second);
        assert_eq!(first.is_some(), offset % 2 == 0);
    }
}

#[test]
fn random_levels_stay_below_the_lane_count() {
    for _ in 0..20 {
        let mut list = SkipList::new(3);
        for k in 0..40u64 {
            list.append(k, format!("{}", k));
        }
        for k in 0..40u64 {
            let (data, level) = list.find(k).unwrap();
            assert_eq!(data, format!("{}", k));
            assert!(level <= 2);
        }
    }
}

#[test]
fn path_rows_of_a_fixed_list() {
    let list = fixed_list();
    let rows = list.level_path(40, 1);
    assert_eq!(rows.len(), 3);
    assert_eq!(
        rows[0],
        vec![
            PathCell::Label(2),
            PathCell::Entry(10, "a".to_string(), Tint::White),
            PathCell::Arrow(Some(Tint::White)),
            PathCell::Entry(30, "c".to_string(), Tint::White),
            PathCell::Arrow(None),
            PathCell::Arrow(None),
        ]
    );
    assert_eq!(
        rows[1],
        vec![
            PathCell::Label(1),
            PathCell::Entry(10, "a".to_string(), Tint::Red),
            PathCell::Entry(20, "b".to_string(), Tint::Red),
            PathCell::Entry(30, "c".to_string(), Tint::Red),
            PathCell::Entry(40, "d".to_string(), Tint::Green),
            PathCell::Arrow(None),
        ]
    );
    assert_eq!(
        rows[2],
        vec![
            PathCell::Label(0),
            PathCell::Entry(10, "a".to_string(), Tint::White),
            PathCell::Entry(20, "b".to_string(), Tint::White),
            PathCell::Entry(30, "c".to_string(), Tint::White),
            PathCell::Entry(40, "d".to_string(), Tint::Green),
            PathCell::Entry(50, "e".to_string(), Tint::White),
        ]
    );
}

#[test]
fn path_arrows_take_the_mark_of_the_next_record() {
    let mut list = SkipList::new(2);
    list.append_at_level(1, "a".to_string(), 0);
    list.append_at_level(2, "b".to_string(), 0);
    list.append_at_level(3, "c".to_string(), 1);
    list.append_at_level(4, "d".to_string(), 0);
    let rows = list.level_path(3, 1);
    assert_eq!(
        rows[0],
        vec![
            PathCell::Label(1),
            PathCell::Entry(1, "a".to_string(), Tint::Red),
            PathCell::Arrow(Some(Tint::Red)),
            PathCell::Entry(3, "c".to_string(), Tint::Green),
            PathCell::Arrow(None),
        ]
    );
}

#[test]
fn every_lane_is_an_ascending_part_of_lane_zero() {
    let mut list = SkipList::new(5);
    for k in 0..60u64 {
        list.append(k * 5, format!("{}", k));
    }
    let rows = list.level_path(0, 0);
    assert_eq!(rows.len(), 5);
    let ground = entries(&rows[4]);
    assert_eq!(ground, (0..60u64).map(|k| k * 5).collect::<Vec<u64>>());
    for row in &rows {
        assert_eq!(row.len(), 61);
        let lane = entries(row);
        assert!(lane.len() <= 60);
        assert_eq!(lane[0], 0);
        assert!(lane.windows(2).all(|w| w[0] < w[1]));
        assert!(lane.iter().all(|offset| ground.contains(offset)));
    }
}

#[test]
fn checked_append_refuses_offsets_out_of_order() {
    let mut list = SkipList::new(3);
    assert!(list.try_append(5, "five".to_string()));
    assert!(!list.try_append(5, "again".to_string()));
    assert!(!list.try_append(4, "four".to_string()));
    assert!(list.try_append(6, "six".to_string()));
    assert!(list.try_append(u64::MAX, "last".to_string()));
    assert!(!list.try_append(u64::MAX, "more".to_string()));
    assert_eq!(list.find(5).map(|found| found.0), Some("five".to_string()));
    assert_eq!(list.find(6).map(|found| found.0), Some("six".to_string()));
    assert_eq!(list.find(u64::MAX).map(|found| found.0), Some("last".to_string()));
    assert_eq!(list.find(4), None);
    assert_eq!(list.level_path(5, 0)[0].len(), 4);
}

#[test]
fn first_record_takes_every_lane_whatever_level_is_asked() {
    let mut list = SkipList::new(4);
    list.append_at_level(3, "x".to_string(), 0);
    list.append_at_level(8, "y".to_string(), 3);
    let rows = list.level_path(8, 3);
    assert_eq!(rows.len(), 4);
    for row in &rows {
        assert_eq!(entries(row), vec![3, 8]);
    }
    assert_eq!(list.find(3), Some(("x".to_string(), 3)));
}

#[test]
fn descent_passes_by_a_record_appended_out_of_order() {
    let mut list = SkipList::new(1);
    list.append(5, "five".to_string());
    list.append(3, "three".to_string());
    assert_eq!(list.find(3), Some(("three".to_string(), 0)));
    assert_eq!(list.find(5), None);
    assert_eq!(list.find(4), None);
}
