use scriptsheet::panes::dnd::{ColLocation, DnDView, DragAndDropDemo, Location};
use scriptsheet::panes::table::Table;
use scriptsheet::tree::{PaneKind, TreeBehavior};

fn every_listed_key_has_a_script(table: &Table) -> bool {
    table.groups.iter().all(|(_, keys)| keys.iter().all(|k| table.scripts.contains_key(k)))
}

#[test]
fn pane_kinds_and_titles() {
    let kinds = PaneKind::enumerate_default();
    assert_eq!(kinds.len(), 3);
    let titles: Vec<&str> = kinds.iter().map(|k| k.str()).collect();
    assert_eq!(titles, vec!["Table", "Scripts", "Groups"]);
    assert_eq!(PaneKind::enumerate_str(), &["Table", "Scripts", "Groups"]);
    match &kinds[2] {
        PaneKind::Groups { view } => assert_eq!(view.group_name(), ""),
        _ => panic!("third kind should be the groups pane"),
    }
}

#[test]
fn add_column_goes_to_last_group() {
    let mut table = Table::default();
    table.groups.push(("G".to_string(), vec![]));
    let mut error = None;
    let mut key = "k".to_string();
    let mut b = TreeBehavior { table: &mut table, error: &mut error, key: &mut key };
    assert!(!b.add_column(false));
    assert!(b.add_column(true));
    assert!(!b.add_column(true));
    assert_eq!(key, "");
    assert!(table.scripts.contains_key("k"));
    assert_eq!(table.groups, vec![("G".to_string(), vec!["k".to_string()])]);
}

#[test]
fn add_column_without_groups_makes_remaining() {
    let mut table = Table::default();
    let mut error = None;
    let mut key = "k".to_string();
    let mut b = TreeBehavior { table: &mut table, error: &mut error, key: &mut key };
    assert!(b.add_column(true));
    assert_eq!(table.groups, vec![("Remaining".to_string(), vec!["k".to_string()])]);
}

#[test]
fn add_existing_or_empty_key_does_nothing() {
    let mut table = Table::default();
    table.scripts.add_script("k".to_string());
    let mut error = None;
    let mut key = "k".to_string();
    let mut b = TreeBehavior { table: &mut table, error: &mut error, key: &mut key };
    assert!(!b.add_column(true));
    *b.key = String::new();
    assert!(!b.add_column(true));
    assert!(table.groups.is_empty());
}

#[test]
fn remove_columns_everywhere() {
    let mut table = Table::default();
    for k in ["a", "b", "c"] {
        table.scripts.add_script(k.to_string());
    }
    table.groups = vec![
        ("G1".to_string(), vec!["a".to_string(), "b".to_string()]),
        ("G2".to_string(), vec!["c".to_string(), "a".to_string()]),
    ];
    let mut error = None;
    let mut key = String::new();
    let mut b = TreeBehavior { table: &mut table, error: &mut error, key: &mut key };
    b.remove_columns(&vec!["a".to_string(), "zz".to_string()]);
    assert!(!table.scripts.contains_key("a"));
    assert!(table.scripts.contains_key("b"));
    assert_eq!(
        table.groups,
        vec![("G1".to_string(), vec!["b".to_string()]), ("G2".to_string(), vec!["c".to_string()])]
    );
}

#[test]
fn errors_are_recorded() {
    let mut table = Table::default();
    let mut error = Some("old".to_string());
    let mut key = String::new();
    let mut b = TreeBehavior { table: &mut table, error: &mut error, key: &mut key };
    b.record_eval(Ok(()));
    assert_eq!(*b.error, None);
    b.record_eval(Err("bad".to_string()));
    assert_eq!(*b.error, Some("bad".to_string()));
    b.record_error("worse".to_string());
    assert_eq!(error, Some("worse".to_string()));
}

#[test]
fn listed_keys_keep_their_scripts() {
    let mut table = Table::default();
    for k in ["a", "b", "c"] {
        table.scripts.add_script(k.to_string());
    }
    table.groups = vec![("G1".to_string(), vec!["a".to_string(), "zombie".to_string()])];
    assert_eq!(table.init(Ok(())), Ok(()));
    assert!(every_listed_key_has_a_script(&table));
    assert_eq!(
        table.groups,
        vec![
            ("G1".to_string(), vec!["a".to_string()]),
            ("Remaining".to_string(), vec!["b".to_string(), "c".to_string()]),
        ]
    );

    let mut error = None;
    let mut key = "d".to_string();
    let mut b = TreeBehavior { table: &mut table, error: &mut error, key: &mut key };
    assert!(b.add_column(true));
    b.remove_columns(&vec!["b".to_string()]);
    assert!(every_listed_key_has_a_script(&table));

    let mut view = DnDView::new("G3".to_string());
    let mut demo = DragAndDropDemo { columns: &mut table.groups, view: &mut view };
    demo.add_group();
    demo.drop_item(Location { col: 1, row: 0 }, Location { col: 2, row: 0 });
    demo.drop_column(ColLocation { col_idx: 2 }, ColLocation { col_idx: 0 });
    demo.delete_column(1);
    assert!(every_listed_key_has_a_script(&table));
    assert_eq!(
        table.groups,
        vec![
            ("G3".to_string(), vec!["c".to_string(), "a".to_string()]),
            ("Remaining".to_string(), vec!["d".to_string()]),
        ]
    );
}
