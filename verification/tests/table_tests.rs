use scriptsheet::panes::table::{is_long_cell, HeaderLabel, Table};
use scriptsheet::text::group_thousands;

fn group(name: &str, cols: &[&str]) -> (String, Vec<String>) {
    (name.to_string(), cols.iter().map(|c| c.to_string()).collect())
}

fn table_with(keys: &[&str], groups: Vec<(String, Vec<String>)>) -> Table {
    let mut t = Table::default();
    for k in keys {
        t.scripts.add_script(k.to_string());
    }
    t.groups = groups;
    t
}

#[test]
fn init_lists_every_key_once() {
    let mut t = table_with(
        &["a", "b", "c", "d"],
        vec![group("G1", &["b", "x", "a"]), group("G2", &["a", "c", "b"])],
    );
    assert_eq!(t.init(Ok(())), Ok(()));
    assert_eq!(
        t.groups,
        vec![group("G1", &["b", "a"]), group("G2", &["c"]), group("Remaining", &["d"])]
    );
    // A second time nothing changes.
    assert_eq!(t.init(Ok(())), Ok(()));
    assert_eq!(
        t.groups,
        vec![group("G1", &["b", "a"]), group("G2", &["c"]), group("Remaining", &["d"])]
    );
}

#[test]
fn init_without_groups_gathers_all_keys_in_key_order() {
    let mut t = table_with(&["z", "m", "a"], vec![]);
    assert_eq!(t.init(Ok(())), Ok(()));
    assert_eq!(t.groups, vec![group("Remaining", &["a", "m", "z"])]);
}

#[test]
fn init_with_nothing_missing_adds_no_group() {
    let mut t = table_with(&[], vec![group("G", &["gone"])]);
    assert_eq!(t.init(Ok(())), Ok(()));
    assert_eq!(t.groups, vec![group("G", &[])]);
}

#[test]
fn init_error_leaves_groups() {
    let mut t = table_with(&["a"], vec![group("G", &["x"])]);
    assert_eq!(t.init(Err("boom".to_string())), Err("boom".to_string()));
    assert_eq!(t.groups, vec![group("G", &["x"])]);
}

#[test]
fn header_labels() {
    let t = table_with(&["a", "b", "c"], vec![group("G1", &["b"]), group("G2", &["a", "c"])]);
    assert!(matches!(t.header_label(0, 1, 2), HeaderLabel::Group(ref n) if n == "G2"));
    assert!(matches!(t.header_label(0, 0, 0), HeaderLabel::Empty));
    assert!(matches!(t.header_label(1, 0, 0), HeaderLabel::RowHeader));
    assert!(matches!(t.header_label(1, 0, 1), HeaderLabel::Key(ref k) if k == "b"));
    assert!(matches!(t.header_label(1, 1, 3), HeaderLabel::Key(ref k) if k == "c"));
    assert!(matches!(t.header_label(1, 7, 4), HeaderLabel::Column(7)));
}

#[test]
fn header_group_ranges() {
    let t = table_with(&[], vec![group("G1", &["b"]), group("G2", &["a", "c"]), group("G3", &[])]);
    let (ranges, total) = t.header_groups();
    assert_eq!(ranges, vec![(1, 2), (2, 4), (4, 4)]);
    assert_eq!(total, 4);
}

#[test]
fn cell_values_follow_key_order() {
    let mut t = table_with(&["b", "a"], vec![]);
    t.scripts.eval_one_finish("a", 5, 11);
    t.scripts.eval_one_finish("b", 5, 22);
    t.prepare(0, 10);
    assert!(t.was_row_prefetched(5));
    assert!(!t.was_row_prefetched(10));
    assert_eq!(t.cell_value(5, 0), None);
    assert_eq!(t.cell_value(5, 1), Some(11));
    assert_eq!(t.cell_value(5, 2), Some(22));
    assert_eq!(t.cell_value(5, 3), None);
    assert_eq!(t.cell_value(4, 1), None);
    t.clear_prefetched();
    assert!(!t.was_row_prefetched(5));
}

#[test]
fn rows_expand_and_collapse() {
    let mut t = Table::default();
    assert!(!t.is_expanded(3));
    t.toggle_row_expanded(3);
    assert!(t.is_expanded(3));
    t.toggle_row_expanded(3);
    assert!(!t.is_expanded(3));
}

#[test]
fn long_cells_every_27() {
    assert!(is_long_cell(0, 0));
    assert!(is_long_cell(20, 7));
    assert!(!is_long_cell(20, 8));
}

#[test]
fn thousands_are_grouped() {
    assert_eq!(group_thousands("1234567.89"), "1,234,567.89");
    assert_eq!(group_thousands("123456.00"), "123,456.00");
    assert_eq!(group_thousands("123.45"), "123.45");
    assert_eq!(group_thousands("0.50"), "0.50");
    assert_eq!(group_thousands("-1234.50"), "-1,234.50");
    assert_eq!(group_thousands("-123.00"), "-,123.00");
    assert_eq!(group_thousands("NaN"), "NaN.");
    assert_eq!(group_thousands(""), ".");
}

#[test]
fn grouping_only_inserts_commas() {
    for text in ["9876543210.12", "1000.00", "12.34", "-98765.43"] {
        let grouped = group_thousands(text);
        let stripped: String = grouped.chars().filter(|c| *c != ',').collect();
        assert_eq!(stripped, text);
    }
}
