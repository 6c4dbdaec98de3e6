//! The panes of the window and the decisions behind the scripts pane.

use vstd::prelude::*;
use vstd::multiset::Multiset;

use crate::panes::dnd::{
    all_items, deleted_column, dropped_column, dropped_item, law_delete_column_keeps_items,
    law_drop_column_permutes, law_drop_item_keeps_items, DnDView, Location,
};
use crate::panes::table::{flat_keys, law_synced_groups_list_each_key_once, synced_groups, Table};
use crate::text::str_eq;

verus! {

/// A tab of the window.
pub struct Pane {
    pub kind: PaneKind,
}

/// What a tab shows.
pub enum PaneKind {
    Table,
    Scripts,
    Groups { view: DnDView },
}

/// The title of a kind of pane.
pub open spec fn kind_title(k: PaneKind) -> Seq<char> {
    match k {
        PaneKind::Table => "Table"@,
        PaneKind::Scripts => "Scripts"@,
        PaneKind::Groups { .. } => "Groups"@,
    }
}

impl PaneKind {
    /// One pane of each kind, in the order of the "New Tab" menu.
    pub fn enumerate_default() -> (r: Vec<Self>)
        ensures
            r@.len() == 3,
            r@[0] is Table,
            r@[1] is Scripts,
            r@[2] matches PaneKind::Groups { view } && view.name() == Seq::<char>::empty(),
    {
        let mut r = Vec::new();
        r.push(PaneKind::Table);
        r.push(PaneKind::Scripts);
        r.push(PaneKind::Groups { view: DnDView::default() });
        r
    }

    /// The title of this kind of pane.
    pub fn str(&self) -> (r: &'static str)
        ensures
            r@ == kind_title(*self),
    {
        let i: usize = match self {
            PaneKind::Table => 0,
            PaneKind::Scripts => 1,
            PaneKind::Groups { .. } => 2,
        };
        Self::enumerate_str()[i]
    }

    /// The titles of the kinds of panes.
    pub fn enumerate_str() -> (r: &'static [&'static str])
        ensures
            r@.len() == 3,
            r@[0]@ == "Table"@,
            r@[1]@ == "Scripts"@,
            r@[2]@ == "Groups"@,
    {
        &["Table", "Scripts", "Groups"]
    }
}


/// Whether a key is not one of `keys`.
pub open spec fn not_in(keys: Seq<Seq<char>>) -> spec_fn(Seq<char>) -> bool {
    |k: Seq<char>| !keys.contains(k)
}

/// The groups with every column whose key is in `keys` taken out.
pub open spec fn without_keys(g: Seq<(Seq<char>, Seq<Seq<char>>)>, keys: Seq<Seq<char>>) -> Seq<(Seq<char>, Seq<Seq<char>>)> {
    Seq::new(g.len(), |i: int| (g[i].0, g[i].1.filter(not_in(keys))))
}

/// The groups with `key` listed last: at the end of the last group, or, when there is
/// no group, in a new group named `Remaining`.
pub open spec fn with_new_key(g: Seq<(Seq<char>, Seq<Seq<char>>)>, key: Seq<char>) -> Seq<(Seq<char>, Seq<Seq<char>>)> {
    if g.len() > 0 {
        g.update(g.len() - 1, (g.last().0, g.last().1.push(key)))
    } else {
        seq![("Remaining"@, seq![key])]
    }
}

/// Every key listed in the groups `g` has a script among `scripts`: what the scripts pane
/// relies on when it shows an editor for each listed key.
pub open spec fn listed_have_scripts(g: Seq<(Seq<char>, Seq<Seq<char>>)>, scripts: Set<Seq<char>>) -> bool {
    forall|i: int, j: int| 0 <= i < g.len() && 0 <= j < g[i].1.len() ==> scripts.contains(#[trigger] g[i].1[j])
}

proof fn lemma_listed_in_items(g: Seq<(Seq<char>, Seq<Seq<char>>)>, i: int, j: int)
    requires
        0 <= i < g.len(),
        0 <= j < g[i].1.len(),
    ensures
        all_items(g).count(g[i].1[j]) > 0,
    decreases g.len(),
{
    broadcast use vstd::multiset::group_multiset_axioms;
    broadcast use vstd::seq_lib::group_to_multiset_ensures;
    if i == g.len() - 1 {
        assert(g.last().1.contains(g[i].1[j]));
    } else {
        assert(g.drop_last()[i] == g[i]);
        lemma_listed_in_items(g.drop_last(), i, j);
    }
}

proof fn lemma_items_are_listed(g: Seq<(Seq<char>, Seq<Seq<char>>)>, k: Seq<char>)
    requires
        all_items(g).count(k) > 0,
    ensures
        exists|i: int, j: int| 0 <= i < g.len() && 0 <= j < g[i].1.len() && g[i].1[j] == k,
    decreases g.len(),
{
    broadcast use vstd::multiset::group_multiset_axioms;
    broadcast use vstd::seq_lib::group_to_multiset_ensures;
    let last = g.len() - 1;
    if g.last().1.to_multiset().count(k) > 0 {
        assert(g.last().1.contains(k));
        let j = g.last().1.index_of(k);
        assert(g[last].1[j] == k);
    } else {
        lemma_items_are_listed(g.drop_last(), k);
        let (i, j) = choose|i: int, j: int| 0 <= i < g.drop_last().len() && 0 <= j < g.drop_last()[i].1.len()
            && g.drop_last()[i].1[j] == k;
        assert(g[i] == g.drop_last()[i]);
    }
}

proof fn lemma_same_items_same_listing(g: Seq<(Seq<char>, Seq<Seq<char>>)>, h: Seq<(Seq<char>, Seq<Seq<char>>)>, scripts: Set<Seq<char>>)
    requires
        all_items(g) == all_items(h),
        listed_have_scripts(g, scripts),
    ensures
        listed_have_scripts(h, scripts),
{
    assert forall|i: int, j: int| 0 <= i < h.len() && 0 <= j < h[i].1.len() implies scripts.contains(#[trigger] h[i].1[j]) by {
        lemma_listed_in_items(h, i, j);
        lemma_items_are_listed(g, h[i].1[j]);
    }
}

proof fn lemma_listed_in_flat(g: Seq<(Seq<char>, Seq<Seq<char>>)>, i: int, j: int)
    requires
        0 <= i < g.len(),
        0 <= j < g[i].1.len(),
    ensures
        flat_keys(g).contains(g[i].1[j]),
    decreases g.len(),
{
    let f = flat_keys(g.drop_last());
    if i == g.len() - 1 {
        assert((f + g.last().1)[f.len() + j] == g[i].1[j]);
    } else {
        assert(g.drop_last()[i] == g[i]);
        lemma_listed_in_flat(g.drop_last(), i, j);
        let p = f.index_of(g[i].1[j]);
        assert((f + g.last().1)[p] == g[i].1[j]);
    }
}

/// After `init` brings the groups in line with the scripts, every listed key has a script.
pub proof fn law_init_lists_only_scripts(g: Seq<(Seq<char>, Seq<Seq<char>>)>, keys: Seq<Seq<char>>)
    requires
        keys.no_duplicates(),
    ensures
        listed_have_scripts(synced_groups(g, keys), keys.to_set()),
{
    let s = synced_groups(g, keys);
    law_synced_groups_list_each_key_once(g, keys);
    assert forall|i: int, j: int| 0 <= i < s.len() && 0 <= j < s[i].1.len() implies keys.to_set().contains(#[trigger] s[i].1[j]) by {
        lemma_listed_in_flat(s, i, j);
        assert(flat_keys(s).to_set().contains(s[i].1[j]));
    }
}

/// Adding a column keeps every listed key scripted: the new key gets its script.
pub proof fn law_add_column_keeps_listing(g: Seq<(Seq<char>, Seq<Seq<char>>)>, scripts: Set<Seq<char>>, key: Seq<char>)
    requires
        listed_have_scripts(g, scripts),
    ensures
        listed_have_scripts(with_new_key(g, key), scripts.insert(key)),
{
    let h = with_new_key(g, key);
    assert forall|i: int, j: int| 0 <= i < h.len() && 0 <= j < h[i].1.len() implies scripts.insert(key).contains(#[trigger] h[i].1[j]) by {
        if g.len() > 0 && i == g.len() - 1 && j < g[i].1.len() {
            assert(h[i].1[j] == g[i].1[j]);
        } else if g.len() > 0 && i < g.len() - 1 {
            assert(h[i] == g[i]);
        }
    }
}

/// Removing columns keeps every listed key scripted: the keys leave the groups with
/// their scripts.
pub proof fn law_remove_columns_keeps_listing(g: Seq<(Seq<char>, Seq<Seq<char>>)>, scripts: Set<Seq<char>>, keys: Seq<Seq<char>>)
    requires
        listed_have_scripts(g, scripts),
    ensures
        listed_have_scripts(without_keys(g, keys), scripts.difference(keys.to_set())),
{
    let h = without_keys(g, keys);
    assert forall|i: int, j: int| 0 <= i < h.len() && 0 <= j < h[i].1.len()
        implies scripts.difference(keys.to_set()).contains(#[trigger] h[i].1[j]) by {
        let x = h[i].1[j];
        let pred = not_in(keys);
        assert(h[i].1 == g[i].1.filter(pred));
        g[i].1.lemma_filter_pred(pred, j);
        assert(h[i].1.contains(x));
        g[i].1.lemma_filter_contains_rev(pred, x);
        let k = g[i].1.index_of(x);
        assert(scripts.contains(g[i].1[k]));
    }
}

proof fn lemma_filter_count(s: Seq<Seq<char>>, p: spec_fn(Seq<char>) -> bool, x: Seq<char>)
    ensures
        s.filter(p).to_multiset().count(x) == (if p(x) { s.to_multiset().count(x) } else { 0 }),
    decreases s.len(),
{
    broadcast use vstd::seq_lib::group_to_multiset_ensures;
    broadcast use vstd::multiset::group_multiset_axioms;
    reveal(Seq::filter);
    if s.len() == 0 {
        assert(s.filter(p) =~= Seq::<Seq<char>>::empty());
        assert(s.to_multiset() =~= Multiset::<Seq<char>>::empty());
        assert(s.filter(p).to_multiset() =~= Multiset::<Seq<char>>::empty());
    } else {
        lemma_filter_count(s.drop_last(), p, x);
        assert(s.drop_last().push(s.last()) =~= s);
    }
}

/// Removing columns takes out of every group exactly the entries whose key equals one of
/// the removed keys: any other key stays listed in its group as often as it was, the
/// removed ones are gone, and every group keeps its name.
pub proof fn law_remove_columns_takes_out_exactly_those(g: Seq<(Seq<char>, Seq<Seq<char>>)>, keys: Seq<Seq<char>>)
    ensures
        without_keys(g, keys).len() == g.len(),
        forall|i: int, x: Seq<char>| 0 <= i < g.len() ==>
            #[trigger] without_keys(g, keys)[i].1.to_multiset().count(x)
                == (if keys.contains(x) { 0 } else { g[i].1.to_multiset().count(x) }),
        forall|i: int| 0 <= i < g.len() ==> #[trigger] without_keys(g, keys)[i].0 == g[i].0,
{
    assert forall|i: int, x: Seq<char>| 0 <= i < g.len() implies
        #[trigger] without_keys(g, keys)[i].1.to_multiset().count(x)
            == (if keys.contains(x) { 0 } else { g[i].1.to_multiset().count(x) }) by {
        lemma_filter_count(g[i].1, not_in(keys), x);
    }
}

/// Rearranging the groups keeps every listed key scripted: dropping an item, deleting a
/// group (its items go to a neighbour), moving a group, or adding an empty one.
pub proof fn law_rearranging_keeps_listing(g: Seq<(Seq<char>, Seq<Seq<char>>)>, scripts: Set<Seq<char>>, from: Location, to: Location, col: int, name: Seq<char>)
    requires
        listed_have_scripts(g, scripts),
    ensures
        from.col < g.len() && from.row < g[from.col as int].1.len() && to.col < g.len()
            ==> listed_have_scripts(dropped_item(g, from, to), scripts),
        1 < g.len() && 0 <= col < g.len() ==> listed_have_scripts(deleted_column(g, col), scripts),
        0 <= col < g.len() && 0 <= to.col ==> listed_have_scripts(dropped_column(g, col, to.col as int), scripts),
        listed_have_scripts(g.push((name, Seq::<Seq<char>>::empty())), scripts),
{
    if from.col < g.len() && from.row < g[from.col as int].1.len() && to.col < g.len() {
        law_drop_item_keeps_items(g, from, to);
        lemma_same_items_same_listing(g, dropped_item(g, from, to), scripts);
    }
    if 1 < g.len() && 0 <= col < g.len() {
        law_delete_column_keeps_items(g, col);
        lemma_same_items_same_listing(g, deleted_column(g, col), scripts);
    }
    if 0 <= col < g.len() {
        law_drop_column_permutes(g, col, to.col as int);
        lemma_same_items_same_listing(g, dropped_column(g, col, to.col as int), scripts);
    }
    let h = g.push((name, Seq::<Seq<char>>::empty()));
    assert forall|i: int, j: int| 0 <= i < h.len() && 0 <= j < h[i].1.len() implies scripts.contains(#[trigger] h[i].1[j]) by {
        assert(h[i] == g[i]);
    }
}

fn list_contains(list: &Vec<String>, k: &str) -> (b: bool)
    ensures
        b == list.deep_view().contains(k@),
{
    let mut i: usize = 0;
    while i < list.len()
        invariant
            i <= list@.len(),
            forall|j: int| 0 <= j < i ==> #[trigger] list.deep_view()[j] != k@,
        decreases list@.len() - i,
    {
        if str_eq(list[i].as_str(), k) {
            assert(list.deep_view()[i as int] == k@);
            return true;
        }
        i = i + 1;
    }
    false
}

fn cols_without(cols: &Vec<String>, keys: &Vec<String>) -> (r: Vec<String>)
    ensures
        r.deep_view() == cols.deep_view().filter(not_in(keys.deep_view())),
{
    let ghost pred = not_in(keys.deep_view());
    let mut r: Vec<String> = Vec::new();
    let mut i: usize = 0;
    while i < cols.len()
        invariant
            i <= cols@.len(),
            pred == not_in(keys.deep_view()),
            r.deep_view() == cols.deep_view().take(i as int).filter(pred),
        decreases cols@.len() - i,
    {
        proof {
            assert(cols.deep_view().take(i + 1) =~= cols.deep_view().take(i as int).push(cols@[i as int]@));
            cols.deep_view().take(i as int).lemma_filter_push(cols@[i as int]@, pred);
        }
        if !list_contains(keys, cols[i].as_str()) {
            r.push(cols[i].clone());
            assert(r.deep_view() =~= cols.deep_view().take(i as int).filter(pred).push(cols@[i as int]@));
        }
        i = i + 1;
    }
    assert(cols.deep_view().take(i as int) =~= cols.deep_view());
    r
}

/// What the panes of the window work on, borrowed for a frame.
pub struct TreeBehavior<'a> {
    pub table: &'a mut Table,
    pub error: &'a mut Option<String>,
    pub key: &'a mut String,
}

impl<'a> TreeBehavior<'a> {
    /// Deletes the columns of `keys`: their scripts, and their entries in every group.
    pub fn remove_columns(&mut self, keys: &Vec<String>)
        requires
            old(self).table.wf(),
        ensures
            final(self).table.wf(),
            final(self).table.scripts.script_map() == old(self).table.scripts.script_map().remove_keys(keys.deep_view().to_set()),
            final(self).table.groups.deep_view() == without_keys(old(self).table.groups.deep_view(), keys.deep_view()),
            final(self).table.groups@.len() == old(self).table.groups@.len(),
            forall|i: int, x: Seq<char>| 0 <= i < old(self).table.groups@.len() ==>
                #[trigger] final(self).table.groups.deep_view()[i].1.to_multiset().count(x)
                    == (if keys.deep_view().contains(x) { 0 } else { old(self).table.groups.deep_view()[i].1.to_multiset().count(x) }),
            final(self).table.scripts.cache() == old(self).table.scripts.cache(),
            final(self).table.scripts.first_row() == old(self).table.scripts.first_row(),
            final(self).table.scripts.last_row() == old(self).table.scripts.last_row(),
            *final(self).error == *old(self).error,
            *final(self).key == *old(self).key,
            *final(final(self).table) == *final(old(self).table),
            *final(final(self).error) == *final(old(self).error),
            *final(final(self).key) == *final(old(self).key),
    {
        let ghost m0 = self.table.scripts.script_map();
        let mut t: usize = 0;
        while t < keys.len()
            invariant
                t <= keys@.len(),
                self.table.wf(),
                self.table.scripts.script_map() == m0.remove_keys(keys.deep_view().take(t as int).to_set()),
                self.table.groups.deep_view() == old(self).table.groups.deep_view(),
                self.table.scripts.cache() == old(self).table.scripts.cache(),
                self.table.scripts.first_row() == old(self).table.scripts.first_row(),
                self.table.scripts.last_row() == old(self).table.scripts.last_row(),
                *self.error == *old(self).error,
                *self.key == *old(self).key,
                *final(self.table) == *final(old(self).table),
                *final(self.error) == *final(old(self).error),
                *final(self.key) == *final(old(self).key),
            decreases keys@.len() - t,
        {
            self.table.scripts.remove_script(keys[t].as_str());
            proof {
                let before = keys.deep_view().take(t as int);
                assert(keys.deep_view().take(t + 1) =~= before.push(keys@[t as int]@));
                let y = keys@[t as int]@;
                broadcast use vstd::set::group_set_axioms;
                assert forall|x: Seq<char>| #[trigger] before.push(y).contains(x) <==> (before.contains(x) || x == y) by {
                    if before.push(y).contains(x) && x != y {
                        let j = before.push(y).index_of(x);
                        assert(before[j] == x);
                    }
                    if before.contains(x) {
                        let j = before.index_of(x);
                        assert(before.push(y)[j] == x);
                    }
                    if x == y {
                        assert(before.push(y)[before.len() as int] == x);
                    }
                }
                assert(before.push(y).to_set() =~= before.to_set().insert(y));
                assert(m0.remove_keys(before.to_set()).remove(keys@[t as int]@)
                    =~= m0.remove_keys(before.to_set().insert(keys@[t as int]@)));
            }
            t = t + 1;
        }
        assert(keys.deep_view().take(t as int) =~= keys.deep_view());
        let ghost g0 = self.table.groups.deep_view();
        let mut i: usize = 0;
        while i < self.table.groups.len()
            invariant
                i <= self.table.groups@.len(),
                g0.len() == self.table.groups@.len(),
                self.table.wf(),
                self.table.scripts.script_map() == m0.remove_keys(keys.deep_view().to_set()),
                forall|j: int| 0 <= j < i ==> #[trigger] self.table.groups.deep_view()[j] == without_keys(g0, keys.deep_view())[j],
                forall|j: int| i <= j < g0.len() ==> #[trigger] self.table.groups.deep_view()[j] == g0[j],
                self.table.scripts.cache() == old(self).table.scripts.cache(),
                self.table.scripts.first_row() == old(self).table.scripts.first_row(),
                self.table.scripts.last_row() == old(self).table.scripts.last_row(),
                *self.error == *old(self).error,
                *self.key == *old(self).key,
                *final(self.table) == *final(old(self).table),
                *final(self.error) == *final(old(self).error),
                *final(self.key) == *final(old(self).key),
            decreases self.table.groups@.len() - i,
        {
            let ghost prev = self.table.groups.deep_view();
            assert(prev[i as int] == g0[i as int]);
            assert(self.table.groups@[i as int].1.deep_view() == g0[i as int].1);
            let kept = cols_without(&self.table.groups[i].1, keys);
            assert(kept.deep_view() == g0[i as int].1.filter(not_in(keys.deep_view())));
            let ghost name = self.table.groups@[i as int].0;
            self.table.groups[i].1 = kept;
            proof {
                assert(self.table.groups@[i as int].0 == name);
                assert(name@ == g0[i as int].0);
                assert forall|j: int| 0 <= j < g0.len() && j != i implies #[trigger] self.table.groups.deep_view()[j] == prev[j] by {}
                assert(self.table.groups.deep_view()[i as int] =~~= without_keys(g0, keys.deep_view())[i as int]);
            }
            i = i + 1;
        }
        assert(self.table.groups.deep_view() =~~= without_keys(g0, keys.deep_view()));
        proof {
            law_remove_columns_takes_out_exactly_those(g0, keys.deep_view());
        }
    }

    /// Adds the typed key as a new column when "Add Column" was `clicked`, the key is not
    /// empty and no script has it yet: an empty script, listed last (see `with_new_key`),
    /// and the typed key is cleared. Returns whether the column was added.
    pub fn add_column(&mut self, clicked: bool) -> (added: bool)
        requires
            old(self).table.wf(),
        ensures
            final(self).table.wf(),
            added == (old(self).key@.len() > 0 && !old(self).table.scripts.script_map().contains_key(old(self).key@) && clicked),
            added ==> {
                &&& final(self).table.scripts.script_map() == old(self).table.scripts.script_map().insert(
                    old(self).key@, final(self).table.scripts.script_map()[old(self).key@])
                &&& final(self).table.scripts.script_map()[old(self).key@].text@ == Seq::<char>::empty()
                &&& final(self).table.scripts.script_map()[old(self).key@].ast is None
                &&& final(self).table.groups.deep_view() == with_new_key(old(self).table.groups.deep_view(), old(self).key@)
                &&& final(self).key@ == Seq::<char>::empty()
            },
            !added ==> *final(self).table == *old(self).table && *final(self).key == *old(self).key,
            final(self).table.scripts.cache() == old(self).table.scripts.cache(),
            final(self).table.scripts.first_row() == old(self).table.scripts.first_row(),
            final(self).table.scripts.last_row() == old(self).table.scripts.last_row(),
            *final(self).error == *old(self).error,
            *final(final(self).table) == *final(old(self).table),
            *final(final(self).error) == *final(old(self).error),
            *final(final(self).key) == *final(old(self).key),
    {
        if !self.key.as_str().is_empty() && !self.table.scripts.contains_key(self.key.as_str()) && clicked {
            let ghost g = self.table.groups.deep_view();
            let ghost k = self.key@;
            self.table.scripts.add_script(self.key.clone());
            let n = self.table.groups.len();
            if n > 0 {
                self.table.groups[n - 1].1.push(self.key.clone());
            } else {
                let mut cols: Vec<String> = Vec::new();
                cols.push(self.key.clone());
                self.table.groups.push((String::from_str("Remaining"), cols));
            }
            assert(self.table.groups.deep_view() =~~= with_new_key(g, k));
            *self.key = String::new();
            true
        } else {
            false
        }
    }

    /// Shows the outcome of an evaluation after an edit: its error, or no error.
    pub fn record_eval(&mut self, result: Result<(), String>)
        ensures
            *final(self).error == (match result {
                Ok(()) => None::<String>,
                Err(e) => Some(e),
            }),
            *final(self).table == *old(self).table,
            *final(self).key == *old(self).key,
            *final(final(self).table) == *final(old(self).table),
            *final(final(self).error) == *final(old(self).error),
            *final(final(self).key) == *final(old(self).key),
    {
        match result {
            Ok(()) => {
                *self.error = None;
            },
            Err(e) => {
                *self.error = Some(e);
            },
        }
    }

    /// Shows an error of the table pane; an earlier error is replaced, none is cleared.
    pub fn record_error(&mut self, message: String)
        ensures
            *final(self).error == Some(message),
            *final(self).table == *old(self).table,
            *final(self).key == *old(self).key,
            *final(final(self).table) == *final(old(self).table),
            *final(final(self).error) == *final(old(self).error),
            *final(final(self).key) == *final(old(self).key),
    {
        *self.error = Some(message);
    }
}

} // verus!
