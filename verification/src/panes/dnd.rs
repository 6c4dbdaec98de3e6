//! Groups of columns that can be rearranged by dragging: items move between groups,
//! groups move, a group can be deleted (its items go to a neighbour) or added.

use vstd::prelude::*;
use vstd::multiset::Multiset;

verus! {

/// The state of the groups pane that outlives a frame: the name typed for a new group.
pub struct DnDView {
    group_name: String,
}

/// What is being dragged: an item, by group and position.
#[derive(Clone, Copy, Debug, PartialEq, Eq, Structural)]
pub struct Location {
    pub col: usize,
    pub row: usize,
}

/// What is being dragged: a whole group, by position.
#[derive(Clone, Copy, Debug, PartialEq, Eq, Structural)]
pub struct ColLocation {
    pub col_idx: usize,
}

/// The groups pane, borrowing the groups it rearranges.
pub struct DragAndDropDemo<'a> {
    pub columns: &'a mut Vec<(String, Vec<String>)>,
    pub view: &'a mut DnDView,
}

/// `g` with item `row` of group `col` taken out.
pub open spec fn without_item(g: Seq<(Seq<char>, Seq<Seq<char>>)>, col: int, row: int) -> Seq<(Seq<char>, Seq<Seq<char>>)> {
    g.update(col, (g[col].0, g[col].1.remove(row)))
}

/// `g` with `item` put at position `row` of group `col`.
pub open spec fn with_item(g: Seq<(Seq<char>, Seq<Seq<char>>)>, col: int, row: int, item: Seq<char>) -> Seq<(Seq<char>, Seq<Seq<char>>)> {
    g.update(col, (g[col].0, g[col].1.insert(row, item)))
}

/// The groups after the item at `from` is dropped at `to`. Within one group the target
/// row counts the item itself, so it moves down by one when it lies below the item; a
/// target row past the end puts the item last.
pub open spec fn dropped_item(g: Seq<(Seq<char>, Seq<Seq<char>>)>, from: Location, to: Location) -> Seq<(Seq<char>, Seq<Seq<char>>)> {
    let row = if from.col == to.col && from.row < to.row { to.row - 1 } else { to.row as int };
    let item = g[from.col as int].1[from.row as int];
    let g1 = without_item(g, from.col as int, from.row as int);
    let at = if row < g1[to.col as int].1.len() { row } else { g1[to.col as int].1.len() as int };
    with_item(g1, to.col as int, at, item)
}

/// The groups after group `col` is deleted and its items appended to its left
/// neighbour (to the group after it when it is the first).
pub open spec fn deleted_column(g: Seq<(Seq<char>, Seq<Seq<char>>)>, col: int) -> Seq<(Seq<char>, Seq<Seq<char>>)> {
    let other = if col == 0 { 1 } else { col - 1 };
    g.update(other, (g[other].0, g[other].1 + g[col].1)).remove(col)
}

/// The groups after group `from` is dropped before position `to` (counted before the
/// group is taken out); a position past the end puts it last.
pub open spec fn dropped_column(g: Seq<(Seq<char>, Seq<Seq<char>>)>, from: int, to: int) -> Seq<(Seq<char>, Seq<Seq<char>>)> {
    if from == to {
        g
    } else {
        let g1 = g.remove(from);
        let t = if from < to { to - 1 } else { to };
        let at = if t < g1.len() { t } else { g1.len() as int };
        g1.insert(at, g[from])
    }
}

impl DnDView {
    pub closed spec fn name(&self) -> Seq<char> {
        self.group_name@
    }

    pub fn new(group_name: String) -> (r: Self)
        ensures
            r.name() == group_name@,
    {
        DnDView { group_name }
    }

    /// The name typed for a new group.
    pub fn group_name(&self) -> (r: &String)
        ensures
            r@ == self.name(),
    {
        &self.group_name
    }

    pub fn set_group_name(&mut self, name: String)
        ensures
            final(self).name() == name@,
    {
        self.group_name = name;
    }
}

impl Default for DnDView {
    fn default() -> (r: Self)
        ensures
            r.name() == Seq::<char>::empty(),
    {
        DnDView { group_name: String::new() }
    }
}

impl Clone for DnDView {
    fn clone(&self) -> (r: Self)
        ensures
            r.name() == self.name(),
    {
        DnDView { group_name: self.group_name.clone() }
    }
}

/// Where an item dropped on the item at `target` goes: before it when the pointer is in
/// its upper half or the item is dropped on itself, after it otherwise.
pub fn item_insert_row(dragged: Location, target: Location, pointer_above: bool) -> (r: usize)
    requires
        target.row < usize::MAX,
    ensures
        r == (if dragged == target || pointer_above { target.row } else { (target.row + 1) as usize }),
{
    if dragged == target {
        target.row
    } else if pointer_above {
        target.row
    } else {
        target.row + 1
    }
}

/// Where a group dropped on the header of group `target` goes: before it when the pointer
/// is in its left half or the group is dropped on itself, after it otherwise.
pub fn column_insert_index(dragged: ColLocation, target: ColLocation, pointer_left: bool) -> (r: ColLocation)
    requires
        target.col_idx < usize::MAX,
    ensures
        r.col_idx == (if dragged == target || pointer_left { target.col_idx } else { (target.col_idx + 1) as usize }),
{
    if dragged.col_idx == target.col_idx {
        ColLocation { col_idx: target.col_idx }
    } else if pointer_left {
        ColLocation { col_idx: target.col_idx }
    } else {
        ColLocation { col_idx: target.col_idx + 1 }
    }
}

impl<'a> DragAndDropDemo<'a> {
    /// Adds an empty group named after the typed name.
    pub fn add_group(&mut self)
        ensures
            final(self).columns.deep_view() == old(self).columns.deep_view().push((old(self).view.name(), Seq::<Seq<char>>::empty())),
            *final(self).view == *old(self).view,
            *final(final(self).columns) == *final(old(self).columns),
            *final(final(self).view) == *final(old(self).view),
    {
        let name = self.view.group_name.clone();
        self.columns.push((name, Vec::new()));
        assert(self.columns.deep_view() =~~= old(self).columns.deep_view().push((old(self).view.name(), Seq::<Seq<char>>::empty())));
    }

    /// Deletes group `col_idx`, moving its items to the end of its left neighbour (of the
    /// next group when it is the first). There must be another group to take them.
    pub fn delete_column(&mut self, col_idx: usize)
        requires
            1 < old(self).columns@.len(),
            col_idx < old(self).columns@.len(),
        ensures
            final(self).columns.deep_view() == deleted_column(old(self).columns.deep_view(), col_idx as int),
            final(self).columns@.len() == old(self).columns@.len() - 1,
            col_idx > 0 ==> final(self).columns.deep_view()[col_idx - 1] == (
                old(self).columns.deep_view()[col_idx - 1].0,
                old(self).columns.deep_view()[col_idx - 1].1 + old(self).columns.deep_view()[col_idx as int].1),
            col_idx == 0 ==> final(self).columns.deep_view()[0] == (
                old(self).columns.deep_view()[1].0,
                old(self).columns.deep_view()[1].1 + old(self).columns.deep_view()[0].1),
            forall|i: int| 0 <= i < col_idx - 1 ==> #[trigger] final(self).columns.deep_view()[i] == old(self).columns.deep_view()[i],
            forall|i: int| col_idx <= i < old(self).columns@.len() - 1 && i != 0
                ==> #[trigger] final(self).columns.deep_view()[i] == old(self).columns.deep_view()[i + 1],
            *final(self).view == *old(self).view,
            *final(final(self).columns) == *final(old(self).columns),
            *final(final(self).view) == *final(old(self).view),
    {
        let ghost g = self.columns.deep_view();
        let mut current = self.columns.remove(col_idx);
        let other = if col_idx == 0 { 0 } else { col_idx - 1 };
        let ghost g1 = self.columns.deep_view();
        assert(g1 =~~= g.remove(col_idx as int));
        self.columns[other].1.append(&mut current.1);
        assert(self.columns.deep_view() =~~= deleted_column(g, col_idx as int));
    }

    /// Moves group `from` before position `to`.
    pub fn drop_column(&mut self, from: ColLocation, to: ColLocation)
        requires
            from.col_idx < old(self).columns@.len(),
        ensures
            final(self).columns.deep_view() == dropped_column(old(self).columns.deep_view(), from.col_idx as int, to.col_idx as int),
            *final(self).view == *old(self).view,
            *final(final(self).columns) == *final(old(self).columns),
            *final(final(self).view) == *final(old(self).view),
    {
        if from.col_idx != to.col_idx {
            let ghost g = self.columns.deep_view();
            let item = self.columns.remove(from.col_idx);
            let ghost g1 = self.columns.deep_view();
            assert(g1 =~~= g.remove(from.col_idx as int));
            let mut t = to.col_idx;
            if from.col_idx < t {
                t = t - 1;
            }
            if t > self.columns.len() {
                t = self.columns.len();
            }
            self.columns.insert(t, item);
            assert(self.columns.deep_view() =~~= g1.insert(t as int, g[from.col_idx as int]));
        }
    }


    /// Moves the item at `from` to `to`.
    pub fn drop_item(&mut self, from: Location, to: Location)
        requires
            from.col < old(self).columns@.len(),
            from.row < old(self).columns@[from.col as int].1@.len(),
            to.col < old(self).columns@.len(),
        ensures
            final(self).columns.deep_view() == dropped_item(old(self).columns.deep_view(), from, to),
            from.col != to.col ==> final(self).columns.deep_view()[to.col as int].1 == old(self).columns.deep_view()[to.col as int].1.insert(
                if to.row <= old(self).columns@[to.col as int].1@.len() { to.row as int } else { old(self).columns@[to.col as int].1@.len() as int },
                old(self).columns.deep_view()[from.col as int].1[from.row as int]),
            from.col != to.col ==> final(self).columns.deep_view()[from.col as int].1
                == old(self).columns.deep_view()[from.col as int].1.remove(from.row as int),
            *final(self).view == *old(self).view,
            *final(final(self).columns) == *final(old(self).columns),
            *final(final(self).view) == *final(old(self).view),
    {
        let mut to_row = to.row;
        if from.col == to.col && from.row < to_row {
            to_row = to_row - 1;
        }
        let ghost g = self.columns.deep_view();
        let item = self.columns[from.col].1.remove(from.row);
        let ghost g1 = self.columns.deep_view();
        assert(g1 =~~= without_item(g, from.col as int, from.row as int));
        assert(item@ == g[from.col as int].1[from.row as int]);
        let len = self.columns[to.col].1.len();
        if to_row > len {
            to_row = len;
        }
        self.columns[to.col].1.insert(to_row, item);
        assert(self.columns.deep_view() =~~= with_item(g1, to.col as int, to_row as int, item@));
    }
}


/// Every item of every group, counted with repetition.
pub open spec fn all_items(g: Seq<(Seq<char>, Seq<Seq<char>>)>) -> Multiset<Seq<char>>
    decreases g.len(),
{
    if g.len() == 0 {
        Multiset::empty()
    } else {
        all_items(g.drop_last()).add(g.last().1.to_multiset())
    }
}

/// The names of the groups, in order.
pub open spec fn group_names(g: Seq<(Seq<char>, Seq<Seq<char>>)>) -> Seq<Seq<char>> {
    Seq::new(g.len(), |i: int| g[i].0)
}

proof fn lemma_all_items_update(g: Seq<(Seq<char>, Seq<Seq<char>>)>, i: int, x: (Seq<char>, Seq<Seq<char>>))
    requires
        0 <= i < g.len(),
    ensures
        all_items(g.update(i, x)).add(g[i].1.to_multiset()) == all_items(g).add(x.1.to_multiset()),
    decreases g.len(),
{
    broadcast use vstd::multiset::group_multiset_axioms;
    let h = g.update(i, x);
    assert(all_items(h) == all_items(h.drop_last()).add(h.last().1.to_multiset()));
    assert(all_items(g) == all_items(g.drop_last()).add(g.last().1.to_multiset()));
    if i == g.len() - 1 {
        assert(h.drop_last() =~= g.drop_last());
        assert(h.last() == x);
    } else {
        assert(h.drop_last() =~= g.drop_last().update(i, x));
        assert(h.last() == g.last());
        lemma_all_items_update(g.drop_last(), i, x);
    }
    assert forall|v: Seq<char>| #[trigger] all_items(h).add(g[i].1.to_multiset()).count(v)
        == all_items(g).add(x.1.to_multiset()).count(v) by {
        if i != g.len() - 1 {
            assert(all_items(h.drop_last()).add(g.drop_last()[i].1.to_multiset()).count(v)
                == all_items(g.drop_last()).add(x.1.to_multiset()).count(v));
        }
    }
    assert(all_items(h).add(g[i].1.to_multiset()) =~= all_items(g).add(x.1.to_multiset()));
}

proof fn lemma_all_items_remove(g: Seq<(Seq<char>, Seq<Seq<char>>)>, i: int)
    requires
        0 <= i < g.len(),
    ensures
        all_items(g.remove(i)).add(g[i].1.to_multiset()) == all_items(g),
    decreases g.len(),
{
    broadcast use vstd::multiset::group_multiset_axioms;
    let h = g.remove(i);
    assert(all_items(g) == all_items(g.drop_last()).add(g.last().1.to_multiset()));
    if h.len() > 0 {
        assert(all_items(h) == all_items(h.drop_last()).add(h.last().1.to_multiset()));
    }
    if i == g.len() - 1 {
        assert(h =~= g.drop_last());
    } else {
        assert(h.drop_last() =~= g.drop_last().remove(i));
        lemma_all_items_remove(g.drop_last(), i);
    }
    assert(all_items(h).add(g[i].1.to_multiset()) =~= all_items(g));
}

proof fn lemma_all_items_insert(g: Seq<(Seq<char>, Seq<Seq<char>>)>, i: int, x: (Seq<char>, Seq<Seq<char>>))
    requires
        0 <= i <= g.len(),
    ensures
        all_items(g.insert(i, x)) == all_items(g).add(x.1.to_multiset()),
{
    broadcast use vstd::multiset::group_multiset_axioms;
    let h = g.insert(i, x);
    assert(h.remove(i) =~= g);
    lemma_all_items_remove(h, i);
    assert(all_items(h) =~= all_items(g).add(x.1.to_multiset()));
}

/// An item dropped into another group is inserted there at exactly the target row (the
/// end of the group when the row is past it), and taken out of its own group; within its
/// own group the target row counts the item itself, so the row is lowered by one only
/// when the item moves down. Every other group is left as it was.
pub proof fn law_drop_item_lands_at_target(g: Seq<(Seq<char>, Seq<Seq<char>>)>, from: Location, to: Location)
    requires
        from.col < g.len(),
        from.row < g[from.col as int].1.len(),
        to.col < g.len(),
    ensures
        dropped_item(g, from, to).len() == g.len(),
        from.col != to.col ==> dropped_item(g, from, to)[to.col as int] == (g[to.col as int].0,
            g[to.col as int].1.insert(
                if to.row <= g[to.col as int].1.len() { to.row as int } else { g[to.col as int].1.len() as int },
                g[from.col as int].1[from.row as int])),
        from.col != to.col ==> dropped_item(g, from, to)[from.col as int] == (g[from.col as int].0,
            g[from.col as int].1.remove(from.row as int)),
        from.col == to.col && to.row <= from.row ==> dropped_item(g, from, to)[to.col as int]
            == (g[to.col as int].0, g[to.col as int].1.remove(from.row as int).insert(to.row as int, g[from.col as int].1[from.row as int])),
        from.col == to.col && from.row < to.row ==> dropped_item(g, from, to)[to.col as int]
            == (g[to.col as int].0, g[to.col as int].1.remove(from.row as int).insert(
                if to.row <= g[to.col as int].1.len() { to.row - 1 } else { g[to.col as int].1.len() - 1 },
                g[from.col as int].1[from.row as int])),
        forall|i: int| 0 <= i < g.len() && i != from.col && i != to.col ==> #[trigger] dropped_item(g, from, to)[i] == g[i],
{
}

/// Dropping an item somewhere keeps every item and every group name: it only moves.
pub proof fn law_drop_item_keeps_items(g: Seq<(Seq<char>, Seq<Seq<char>>)>, from: Location, to: Location)
    requires
        from.col < g.len(),
        from.row < g[from.col as int].1.len(),
        to.col < g.len(),
    ensures
        all_items(dropped_item(g, from, to)) == all_items(g),
        group_names(dropped_item(g, from, to)) == group_names(g),
{
    broadcast use vstd::multiset::group_multiset_axioms;
    broadcast use vstd::seq_lib::group_to_multiset_ensures;
    let fc = from.col as int;
    let tc = to.col as int;
    let item = g[fc].1[from.row as int];
    let g1 = without_item(g, fc, from.row as int);
    lemma_all_items_update(g, fc, (g[fc].0, g[fc].1.remove(from.row as int)));
    let row = if from.col == to.col && from.row < to.row { to.row - 1 } else { to.row as int };
    let at = if row < g1[tc].1.len() { row } else { g1[tc].1.len() as int };
    lemma_all_items_update(g1, tc, (g1[tc].0, g1[tc].1.insert(at, item)));
    assert(g[fc].1.to_multiset() == g[fc].1.remove(from.row as int).to_multiset().insert(item));
    assert(g1[tc].1.insert(at, item).to_multiset() == g1[tc].1.to_multiset().insert(item));
    let g2 = with_item(g1, tc, at, item);
    assert(g2 == dropped_item(g, from, to));
    assert(all_items(g2).add(g1[tc].1.to_multiset()) == all_items(g1).add(g1[tc].1.to_multiset().insert(item)));
    assert(all_items(g1).add(g[fc].1.to_multiset()) == all_items(g).add(g[fc].1.remove(from.row as int).to_multiset()));
    assert forall|v: Seq<char>| #[trigger] all_items(g2).count(v) == all_items(g).count(v) by {
        assert(all_items(g2).add(g1[tc].1.to_multiset()).count(v) == all_items(g1).add(g1[tc].1.to_multiset().insert(item)).count(v));
        assert(all_items(g1).add(g[fc].1.to_multiset()).count(v) == all_items(g).add(g[fc].1.remove(from.row as int).to_multiset()).count(v));
    }
    assert(all_items(g2) =~= all_items(g));
    assert(group_names(dropped_item(g, from, to)) =~= group_names(g));
}

/// Deleting group `col` appends its items to the end of the group just before it (of the
/// group just after it when it is the first); every other group keeps its name and items,
/// in order, and the groups after `col` move up by one.
pub proof fn law_delete_column_goes_to_neighbour(g: Seq<(Seq<char>, Seq<Seq<char>>)>, col: int)
    requires
        1 < g.len(),
        0 <= col < g.len(),
    ensures
        deleted_column(g, col).len() == g.len() - 1,
        col > 0 ==> deleted_column(g, col)[col - 1] == (g[col - 1].0, g[col - 1].1 + g[col].1),
        col == 0 ==> deleted_column(g, col)[0] == (g[1].0, g[1].1 + g[0].1),
        forall|i: int| 0 <= i < col - 1 ==> #[trigger] deleted_column(g, col)[i] == g[i],
        forall|i: int| col <= i < g.len() - 1 && i != 0 ==> #[trigger] deleted_column(g, col)[i] == g[i + 1],
{
}

/// Deleting a group keeps every item: they move to the neighbouring group.
pub proof fn law_delete_column_keeps_items(g: Seq<(Seq<char>, Seq<Seq<char>>)>, col: int)
    requires
        1 < g.len(),
        0 <= col < g.len(),
    ensures
        all_items(deleted_column(g, col)) == all_items(g),
        deleted_column(g, col).len() == g.len() - 1,
{
    broadcast use vstd::multiset::group_multiset_axioms;
    broadcast use vstd::seq_lib::lemma_multiset_commutative;
    let other = if col == 0 { 1 } else { col - 1 };
    let x = (g[other].0, g[other].1 + g[col].1);
    let g1 = g.update(other, x);
    lemma_all_items_update(g, other, x);
    lemma_all_items_remove(g1, col);
    assert(x.1.to_multiset() == g[other].1.to_multiset().add(g[col].1.to_multiset()));
    assert(g1[col] == g[col]);
    assert(all_items(g1).add(g[other].1.to_multiset()) == all_items(g).add(x.1.to_multiset()));
    assert(all_items(g1.remove(col)).add(g[col].1.to_multiset()) == all_items(g1));
    assert forall|v: Seq<char>| #[trigger] all_items(deleted_column(g, col)).count(v) == all_items(g).count(v) by {
        assert(all_items(g1).add(g[other].1.to_multiset()).count(v) == all_items(g).add(x.1.to_multiset()).count(v));
        assert(all_items(g1.remove(col)).add(g[col].1.to_multiset()).count(v) == all_items(g1).count(v));
    }
    assert(all_items(deleted_column(g, col)) =~= all_items(g));
}

/// Dropping a group somewhere keeps the same groups, only in another order.
pub proof fn law_drop_column_permutes(g: Seq<(Seq<char>, Seq<Seq<char>>)>, from: int, to: int)
    requires
        0 <= from < g.len(),
        0 <= to,
    ensures
        dropped_column(g, from, to).to_multiset() == g.to_multiset(),
        all_items(dropped_column(g, from, to)) == all_items(g),
{
    broadcast use vstd::multiset::group_multiset_axioms;
    broadcast use vstd::seq_lib::group_to_multiset_ensures;
    if from != to {
        let g1 = g.remove(from);
        let t = if from < to { to - 1 } else { to };
        let at = if t < g1.len() { t } else { g1.len() as int };
        lemma_all_items_remove(g, from);
        lemma_all_items_insert(g1, at, g[from]);
        assert(g.to_multiset() =~= g1.to_multiset().insert(g[from]));
        assert(all_items(dropped_column(g, from, to)) =~= all_items(g));
    }
}

} // verus!
