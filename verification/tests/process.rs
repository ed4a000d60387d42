use codex_managed_channel::process::{
    process_row, process_table, process_tree_groups, stamped_row, ProcessRegistry,
};

fn fields(line: &str) -> Vec<String> {
    line.split_whitespace().map(str::to_owned).collect()
}

fn sorted(mut v: Vec<i32>) -> Vec<i32> {
    v.sort();
    v
}

#[test]
fn rows_need_three_numeric_fields() {
    assert_eq!(process_row(&fields("12 1 12")), Some((12, 1, 12)));
    assert_eq!(process_row(&fields("12 1 -3 extra")), Some((12, 1, -3)));
    assert_eq!(process_row(&fields("12 1")), None);
    assert_eq!(process_row(&fields("12 x 1")), None);
    assert_eq!(process_row(&fields("+12 1 +4")), Some((12, 1, 4)));
    let lines = vec![fields("PID PPID PGID"), fields("1 0 1"), fields(""), fields("5 1 5")];
    assert_eq!(process_table(&lines), vec![(1, 0, 1), (5, 1, 5)]);
}

#[test]
fn groups_cover_every_descendant_in_any_order() {
    let table = vec![
        (30, 20, 30),
        (20, 10, 20),
        (10, 1, 10),
        (11, 10, 10),
        (40, 2, 40),
        (50, 30, 1),
    ];
    assert_eq!(sorted(process_tree_groups(10, &table)), vec![10, 20, 30]);
    assert_eq!(process_tree_groups(99, &table), vec![99]);
}

#[test]
fn an_escaped_child_is_remembered_while_it_lives() {
    let mut registry = ProcessRegistry::new();
    let stamp = |s: &str| s.to_string();
    let first = vec![
        (10, 1, 10, stamp("Mon 1")),
        (20, 10, 20, stamp("Mon 2")),
    ];
    registry.refresh(10, &first);
    assert_eq!(sorted(registry.groups()), vec![10, 20]);
    // The child was reparented after its parent died: still known by stamp.
    let second = vec![(20, 1, 20, stamp("Mon 2"))];
    registry.refresh(10, &second);
    assert_eq!(registry.groups(), vec![20]);
    // A reused process id with another start time is forgotten.
    let third = vec![(20, 1, 20, stamp("Tue 9"))];
    registry.refresh(10, &third);
    assert!(registry.groups().is_empty());
}

#[test]
fn a_replaced_root_is_not_trusted() {
    let mut registry = ProcessRegistry::new();
    registry.refresh(10, &vec![(10, 1, 10, "A".to_string())]);
    assert_eq!(registry.groups(), vec![10]);
    registry.refresh(10, &vec![(10, 1, 10, "B".to_string()), (11, 10, 11, "C".to_string())]);
    assert!(registry.groups().is_empty());
}

#[test]
fn stamped_rows_join_the_start_time_fields() {
    assert_eq!(
        stamped_row(&fields("42 1 42 Mon Jan  5 10:00:00 2026")),
        Some((42, 1, 42, "Mon Jan 5 10:00:00 2026".to_string()))
    );
    assert_eq!(stamped_row(&fields("42 1 42")), Some((42, 1, 42, String::new())));
    assert_eq!(stamped_row(&fields("42 x 42 Mon")), None);
}
