use scriptsheet::panes::dnd::{column_insert_index, item_insert_row, ColLocation, DnDView, DragAndDropDemo, Location};

fn groups(spec: &[(&str, &[&str])]) -> Vec<(String, Vec<String>)> {
    spec.iter()
        .map(|(n, cs)| (n.to_string(), cs.iter().map(|c| c.to_string()).collect()))
        .collect()
}

#[test]
fn drop_item_down_within_group() {
    let mut cols = groups(&[("A", &["1", "2", "3"])]);
    let mut view = DnDView::default();
    let mut demo = DragAndDropDemo { columns: &mut cols, view: &mut view };
    // Dropped below item 2 (row 3 counts the dragged item itself).
    demo.drop_item(Location { col: 0, row: 0 }, Location { col: 0, row: 2 });
    assert_eq!(cols, groups(&[("A", &["2", "1", "3"])]));
}

#[test]
fn drop_item_up_within_group() {
    let mut cols = groups(&[("A", &["1", "2", "3"])]);
    let mut view = DnDView::default();
    let mut demo = DragAndDropDemo { columns: &mut cols, view: &mut view };
    demo.drop_item(Location { col: 0, row: 2 }, Location { col: 0, row: 0 });
    assert_eq!(cols, groups(&[("A", &["3", "1", "2"])]));
}

#[test]
fn drop_item_on_empty_space_goes_last() {
    let mut cols = groups(&[("A", &["1", "2"]), ("B", &["3"])]);
    let mut view = DnDView::default();
    let mut demo = DragAndDropDemo { columns: &mut cols, view: &mut view };
    demo.drop_item(Location { col: 0, row: 0 }, Location { col: 1, row: usize::MAX });
    assert_eq!(cols, groups(&[("A", &["2"]), ("B", &["3", "1"])]));
    let mut demo = DragAndDropDemo { columns: &mut cols, view: &mut view };
    demo.drop_item(Location { col: 1, row: 0 }, Location { col: 1, row: usize::MAX });
    assert_eq!(cols, groups(&[("A", &["2"]), ("B", &["1", "3"])]));
}

#[test]
fn drop_item_into_other_group() {
    let mut cols = groups(&[("A", &["1", "2"]), ("B", &["3", "4"])]);
    let mut view = DnDView::default();
    let mut demo = DragAndDropDemo { columns: &mut cols, view: &mut view };
    demo.drop_item(Location { col: 1, row: 1 }, Location { col: 0, row: 1 });
    assert_eq!(cols, groups(&[("A", &["1", "4", "2"]), ("B", &["3"])]));
}

#[test]
fn delete_group_moves_items_left() {
    let mut cols = groups(&[("A", &["1"]), ("B", &["2", "3"]), ("C", &["4"])]);
    let mut view = DnDView::default();
    let mut demo = DragAndDropDemo { columns: &mut cols, view: &mut view };
    demo.delete_column(1);
    assert_eq!(cols, groups(&[("A", &["1", "2", "3"]), ("C", &["4"])]));
}

#[test]
fn delete_first_group_moves_items_right() {
    let mut cols = groups(&[("A", &["1"]), ("B", &["2"])]);
    let mut view = DnDView::default();
    let mut demo = DragAndDropDemo { columns: &mut cols, view: &mut view };
    demo.delete_column(0);
    assert_eq!(cols, groups(&[("B", &["2", "1"])]));
}

#[test]
fn drop_group_moves_it() {
    let mut cols = groups(&[("A", &[]), ("B", &[]), ("C", &[])]);
    let mut view = DnDView::default();
    let mut demo = DragAndDropDemo { columns: &mut cols, view: &mut view };
    demo.drop_column(ColLocation { col_idx: 0 }, ColLocation { col_idx: 2 });
    assert_eq!(cols, groups(&[("B", &[]), ("A", &[]), ("C", &[])]));
    let mut demo = DragAndDropDemo { columns: &mut cols, view: &mut view };
    demo.drop_column(ColLocation { col_idx: 2 }, ColLocation { col_idx: 0 });
    assert_eq!(cols, groups(&[("C", &[]), ("B", &[]), ("A", &[])]));
    let mut demo = DragAndDropDemo { columns: &mut cols, view: &mut view };
    demo.drop_column(ColLocation { col_idx: 1 }, ColLocation { col_idx: 1 });
    assert_eq!(cols, groups(&[("C", &[]), ("B", &[]), ("A", &[])]));
    let mut demo = DragAndDropDemo { columns: &mut cols, view: &mut view };
    demo.drop_column(ColLocation { col_idx: 0 }, ColLocation { col_idx: 3 });
    assert_eq!(cols, groups(&[("B", &[]), ("A", &[]), ("C", &[])]));
}

#[test]
fn add_group_uses_typed_name() {
    let mut cols = groups(&[("A", &["1"])]);
    let mut view = DnDView::new("New".to_string());
    let mut demo = DragAndDropDemo { columns: &mut cols, view: &mut view };
    demo.add_group();
    assert_eq!(cols, groups(&[("A", &["1"]), ("New", &[])]));
    assert_eq!(view.group_name(), "New");
}

#[test]
fn insert_positions() {
    let here = Location { col: 1, row: 4 };
    let other = Location { col: 0, row: 0 };
    assert_eq!(item_insert_row(here, here, false), 4);
    assert_eq!(item_insert_row(other, here, true), 4);
    assert_eq!(item_insert_row(other, here, false), 5);
    let c = ColLocation { col_idx: 2 };
    let d = ColLocation { col_idx: 0 };
    assert_eq!(column_insert_index(c, c, false).col_idx, 2);
    assert_eq!(column_insert_index(d, c, true).col_idx, 2);
    assert_eq!(column_insert_index(d, c, false).col_idx, 3);
}
