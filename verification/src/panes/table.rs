//! The sheet: one column per script key, arranged in named groups, with rows
//! numbered from the first row of the scripts' range.

use vstd::prelude::*;
use std::collections::BTreeMap;

use crate::scripts::Scripts;
use crate::strmap::{strictly_sorted, lemma_keys_unique};

verus! {

broadcast use vstd::std_specs::btree::group_btree_axioms, vstd::laws_cmp::group_laws_cmp;

pub struct Table {
    pub num_sticky_cols: usize,
    pub is_row_expanded: BTreeMap<u64, bool>,
    pub prefetched: Vec<(u64, u64)>,
    pub scripts: Scripts,
    pub groups: Vec<(String, Vec<String>)>,
}

/// The keys of `cols` that are still available in `avail`, each taken the first time it
/// occurs, and what is left available afterwards.
pub open spec fn keep_listed(cols: Seq<Seq<char>>, avail: Set<Seq<char>>) -> (Seq<Seq<char>>, Set<Seq<char>>)
    decreases cols.len(),
{
    if cols.len() == 0 {
        (Seq::empty(), avail)
    } else {
        let (kept, left) = keep_listed(cols.drop_last(), avail);
        let k = cols.last();
        if left.contains(k) {
            (kept.push(k), left.remove(k))
        } else {
            (kept, left)
        }
    }
}

/// `keep_listed` over the groups in order, keeping their names.
pub open spec fn keep_groups(g: Seq<(Seq<char>, Seq<Seq<char>>)>, avail: Set<Seq<char>>) -> (Seq<(Seq<char>, Seq<Seq<char>>)>, Set<Seq<char>>)
    decreases g.len(),
{
    if g.len() == 0 {
        (Seq::empty(), avail)
    } else {
        let (kept, left) = keep_groups(g.drop_last(), avail);
        let (cols, rest) = keep_listed(g.last().1, left);
        (kept.push((g.last().0, cols)), rest)
    }
}

/// The groups made to list every key exactly once: a column whose key is not in `keys`,
/// or that repeats a key listed before it, is dropped, and the keys listed nowhere
/// are gathered, in key order, in a last group named `Remaining`.
pub open spec fn synced_groups(g: Seq<(Seq<char>, Seq<Seq<char>>)>, keys: Seq<Seq<char>>) -> Seq<(Seq<char>, Seq<Seq<char>>)> {
    let (kept, left) = keep_groups(g, keys.to_set());
    let rest = keys.filter(|k: Seq<char>| left.contains(k));
    if rest.len() > 0 {
        kept.push(("Remaining"@, rest))
    } else {
        kept
    }
}

/// The keys still available: those of `keys` whose flag is set.
spec fn avail_set(keys: Seq<Seq<char>>, flags: Seq<bool>) -> Set<Seq<char>> {
    Set::new(|k: Seq<char>| exists|p: int| 0 <= p < keys.len() && p < flags.len() && keys[p] == k && flags[p])
}

/// What the header cell of a column range shows.
pub enum HeaderLabel {
    /// Nothing (the top row above the sticky columns).
    Empty,
    /// The name of a group, on the top row.
    Group(String),
    /// The title of the row numbers column.
    RowHeader,
    /// The key of a script column.
    Key(String),
    /// A column without a key, by its group.
    Column(usize),
}

/// Whether some prepared range holds `row`.
pub open spec fn row_in_ranges(ranges: Seq<(u64, u64)>, row: u64) -> bool {
    exists|i: int| 0 <= i < ranges.len() && (#[trigger] ranges[i]).0 <= row < ranges[i].1
}

/// The demo cells whose text is long enough to be cut short.
pub fn is_long_cell(row_nr: u64, col_nr: usize) -> (r: bool)
    requires
        row_nr + col_nr <= u64::MAX,
    ensures
        r == ((row_nr + col_nr) % 27 == 0),
{
    (row_nr + col_nr as u64) % 27 == 0
}

impl Default for Table {
    /// One sticky column, nothing expanded or prepared, default scripts, no groups.
    fn default() -> (r: Self)
        ensures
            r.wf(),
            r.num_sticky_cols == 1,
            r.expanded() == Map::<u64, bool>::empty(),
            r.prefetched_rows() == Seq::<(u64, u64)>::empty(),
            r.scripts.script_map() == Map::<Seq<char>, crate::scripts::Script>::empty(),
            r.scripts.first_row() == 0,
            r.scripts.last_row() == 100,
            r.groups@ == Seq::<(String, Vec<String>)>::empty(),
    {
        Table {
            num_sticky_cols: 1,
            is_row_expanded: BTreeMap::new(),
            prefetched: Vec::new(),
            scripts: Scripts::default(),
            groups: Vec::new(),
        }
    }
}

impl Table {
    pub open spec fn wf(&self) -> bool {
        self.scripts.wf()
    }

    /// How many columns on the left stay in view when scrolling (the row numbers).
    pub open spec fn sticky_cols(&self) -> usize {
        self.num_sticky_cols
    }

    /// The rows whose details are shown or hidden.
    pub open spec fn expanded(&self) -> Map<u64, bool> {
        self.is_row_expanded@
    }

    /// The row ranges (start inclusive, end exclusive) prepared for the frame being drawn.
    pub open spec fn prefetched_rows(&self) -> Seq<(u64, u64)> {
        self.prefetched@
    }

    /// Whether `row_nr` lies in a range prepared for this frame.
    pub fn was_row_prefetched(&self, row_nr: u64) -> (r: bool)
        ensures
            r == row_in_ranges(self.prefetched_rows(), row_nr),
    {
        let mut i: usize = 0;
        while i < self.prefetched.len()
            invariant
                i <= self.prefetched@.len(),
                forall|j: int| 0 <= j < i ==> !((#[trigger] self.prefetched@[j]).0 <= row_nr < self.prefetched@[j].1),
            decreases self.prefetched@.len() - i,
        {
            if self.prefetched[i].0 <= row_nr && row_nr < self.prefetched[i].1 {
                return true;
            }
            i = i + 1;
        }
        false
    }

    /// Records that rows `start..end` are about to be drawn; they must exist.
    pub fn prepare(&mut self, start: u64, end: u64)
        requires
            old(self).wf(),
            end <= old(self).scripts.last_row() + 1,
        ensures
            final(self).wf(),
            final(self).prefetched_rows() == old(self).prefetched_rows().push((start, end)),
            final(self).scripts == old(self).scripts,
            final(self).groups@ == old(self).groups@,
            final(self).num_sticky_cols == old(self).num_sticky_cols,
            final(self).expanded() == old(self).expanded(),
    {
        self.prefetched.push((start, end));
    }

    /// Forgets the ranges prepared for the previous frame.
    pub fn clear_prefetched(&mut self)
        ensures
            final(self).prefetched_rows() == Seq::<(u64, u64)>::empty(),
            final(self).scripts == old(self).scripts,
            final(self).groups@ == old(self).groups@,
            final(self).num_sticky_cols == old(self).num_sticky_cols,
            final(self).expanded() == old(self).expanded(),
    {
        self.prefetched.clear();
    }

    /// Whether the details of `row_nr` are shown.
    pub fn is_expanded(&self, row_nr: u64) -> (r: bool)
        ensures
            r == (self.expanded().contains_key(row_nr) && self.expanded()[row_nr]),
    {
        match self.is_row_expanded.get(&row_nr) {
            Some(b) => *b,
            None => false,
        }
    }

    /// Shows the details of `row_nr` if they were hidden, hides them otherwise.
    pub fn toggle_row_expanded(&mut self, row_nr: u64)
        ensures
            final(self).expanded() == old(self).expanded().insert(row_nr, !old(self).is_expanded_spec(row_nr)),
            final(self).scripts == old(self).scripts,
            final(self).groups@ == old(self).groups@,
            final(self).num_sticky_cols == old(self).num_sticky_cols,
            final(self).prefetched_rows() == old(self).prefetched_rows(),
    {
        let was = self.is_expanded(row_nr);
        let _ = self.is_row_expanded.insert(row_nr, !was);
    }

    pub open spec fn is_expanded_spec(&self, row_nr: u64) -> bool {
        self.expanded().contains_key(row_nr) && self.expanded()[row_nr]
    }

    /// The value shown in cell `(row_nr, col_nr)`: for a column right of the sticky ones,
    /// the value computed for the row by the script whose key comes at that position in
    /// key order, if there is one.
    pub fn cell_value(&self, row_nr: u64, col_nr: usize) -> (r: Option<u64>)
        requires
            self.wf(),
            row_in_ranges(self.prefetched_rows(), row_nr),
            row_nr <= usize::MAX,
        ensures
            r == (if col_nr >= self.num_sticky_cols
                && col_nr - self.num_sticky_cols < self.scripts.key_seq().len()
                && self.scripts.cache().contains_key((self.scripts.key_seq()[col_nr - self.num_sticky_cols], row_nr as usize)) {
                Some(self.scripts.cache()[(self.scripts.key_seq()[col_nr - self.num_sticky_cols], row_nr as usize)])
            } else {
                None::<u64>
            }),
    {
        if col_nr >= self.num_sticky_cols {
            let key_index = col_nr - self.num_sticky_cols;
            match self.scripts.nth_key(key_index) {
                Some(key) => self.scripts.value(key.as_str(), row_nr as usize),
                None => None,
            }
        } else {
            None
        }
    }

    /// The header of the columns starting at `col_start`: on the top row the name of group
    /// `group_index` (nothing above the sticky columns); below it the title of the row
    /// numbers, or the key of the column, or, past the listed keys, the group's number.
    pub fn header_label(&self, row_nr: usize, group_index: usize, col_start: usize) -> (r: HeaderLabel)
        requires
            row_nr == 0 && 0 < col_start ==> group_index < self.groups@.len(),
        ensures
            row_nr == 0 && 0 < col_start ==> (r matches HeaderLabel::Group(name)
                && name@ == self.groups.deep_view()[group_index as int].0),
            row_nr == 0 && col_start == 0 ==> r is Empty,
            row_nr != 0 && col_start < self.num_sticky_cols ==> r is RowHeader,
            row_nr != 0 && col_start >= self.num_sticky_cols ==> {
                let i = col_start - self.num_sticky_cols;
                let flat = flat_keys(self.groups.deep_view());
                if i < flat.len() {
                    (r matches HeaderLabel::Key(k) && k@ == flat[i])
                } else {
                    r == HeaderLabel::Column(group_index)
                }
            },
    {
        if row_nr == 0 {
            if 0 < col_start {
                HeaderLabel::Group(self.groups[group_index].0.clone())
            } else {
                HeaderLabel::Empty
            }
        } else if col_start < self.num_sticky_cols {
            HeaderLabel::RowHeader
        } else {
            match self.flat_key(col_start - self.num_sticky_cols) {
                Some(k) => HeaderLabel::Key(k),
                None => HeaderLabel::Column(group_index),
            }
        }
    }

    /// The `n`-th key listed in the groups, group after group.
    pub fn flat_key(&self, n: usize) -> (r: Option<String>)
        ensures
            n < flat_keys(self.groups.deep_view()).len() ==> (r matches Some(k) && k@ == flat_keys(self.groups.deep_view())[n as int]),
            n >= flat_keys(self.groups.deep_view()).len() ==> r is None,
    {
        let ghost g = self.groups.deep_view();
        let mut i: usize = 0;
        let mut skipped: usize = 0;
        while i < self.groups.len()
            invariant
                i <= self.groups@.len(),
                g == self.groups.deep_view(),
                skipped == flat_keys(g.take(i as int)).len(),
                skipped <= n,
            decreases self.groups@.len() - i,
        {
            let len = self.groups[i].1.len();
            proof {
                assert(g.take(i + 1).drop_last() =~= g.take(i as int));
                lemma_flat_keys_prefix(g, i + 1);
            }
            if n - skipped < len {
                let k = self.groups[i].1[n - skipped].clone();
                proof {
                    let f = flat_keys(g.take(i + 1));
                    assert(f == flat_keys(g.take(i as int)) + g[i as int].1);
                    assert(f[n as int] == g[i as int].1[n - skipped]);
                    assert(flat_keys(g)[n as int] == f[n as int]);
                }
                return Some(k);
            }
            skipped = skipped + len;
            i = i + 1;
        }
        assert(g.take(i as int) =~= g);
        None
    }

    /// The column ranges of the groups (the sticky columns first, then each group's keys
    /// in turn) and the number of columns in all.
    pub fn header_groups(&self) -> (r: (Vec<(usize, usize)>, usize))
        requires
            self.num_sticky_cols + flat_keys(self.groups.deep_view()).len() <= usize::MAX,
        ensures
            r.0@.len() == self.groups@.len(),
            forall|i: int| 0 <= i < r.0@.len() ==> #[trigger] r.0@[i] == (
                (self.num_sticky_cols + flat_keys(self.groups.deep_view().take(i)).len()) as usize,
                (self.num_sticky_cols + flat_keys(self.groups.deep_view().take(i + 1)).len()) as usize),
            r.1 == self.num_sticky_cols + flat_keys(self.groups.deep_view()).len(),
    {
        let ghost g = self.groups.deep_view();
        let mut ranges: Vec<(usize, usize)> = Vec::new();
        let mut sum = self.num_sticky_cols;
        let mut i: usize = 0;
        while i < self.groups.len()
            invariant
                i <= self.groups@.len(),
                g == self.groups.deep_view(),
                self.num_sticky_cols + flat_keys(g).len() <= usize::MAX,
                sum == self.num_sticky_cols + flat_keys(g.take(i as int)).len(),
                ranges@.len() == i,
                forall|j: int| 0 <= j < i ==> #[trigger] ranges@[j] == (
                    (self.num_sticky_cols + flat_keys(g.take(j)).len()) as usize,
                    (self.num_sticky_cols + flat_keys(g.take(j + 1)).len()) as usize),
            decreases self.groups@.len() - i,
        {
            proof {
                assert(g.take(i + 1).drop_last() =~= g.take(i as int));
                lemma_flat_keys_prefix(g, i + 1);
            }
            let next = sum + self.groups[i].1.len();
            ranges.push((sum, next));
            sum = next;
            i = i + 1;
        }
        assert(g.take(i as int) =~= g);
        (ranges, sum)
    }

    /// Makes the groups list every script key exactly once, once the scripts have been
    /// initialised (`scripts_init` is how that went; on an error nothing changes).
    pub fn init(&mut self, scripts_init: Result<(), String>) -> (r: Result<(), String>)
        requires
            old(self).wf(),
        ensures
            final(self).wf(),
            r is Ok <==> scripts_init is Ok,
            r matches Err(e) ==> scripts_init == Err::<(), String>(e),
            r is Ok ==> final(self).groups.deep_view() == synced_groups(old(self).groups.deep_view(), old(self).scripts.key_seq()),
            r is Err ==> final(self).groups.deep_view() == old(self).groups.deep_view(),
            final(self).scripts == old(self).scripts,
            final(self).sticky_cols() == old(self).sticky_cols(),
            final(self).expanded() == old(self).expanded(),
            final(self).prefetched_rows() == old(self).prefetched_rows(),
    {
        match scripts_init {
            Err(e) => {
                return Err(e);
            },
            Ok(()) => {},
        }
        let keys = self.scripts.key_list();
        let ghost ks = self.scripts.key_seq();
        proof {
            self.scripts.lemma_keys();
            lemma_keys_unique(ks);
        }
        let n = keys.len();
        let mut avail: Vec<bool> = Vec::new();
        let mut q: usize = 0;
        while q < n
            invariant
                q <= n,
                avail@.len() == q,
                forall|p: int| 0 <= p < q ==> #[trigger] avail@[p],
            decreases n - q,
        {
            avail.push(true);
            q = q + 1;
        }
        assert(avail_set(ks, avail@) =~= ks.to_set());
        let mut old_groups: Vec<(String, Vec<String>)> = Vec::new();
        std::mem::swap(&mut old_groups, &mut self.groups);
        let ghost g = old_groups.deep_view();
        let mut new_groups: Vec<(String, Vec<String>)> = Vec::new();
        let mut i: usize = 0;
        while i < old_groups.len()
            invariant
                i <= old_groups@.len(),
                g == old_groups.deep_view(),
                self.scripts.wf(),
                self.scripts.key_seq() == ks,
                ks.no_duplicates(),
                keys@.len() == n == ks.len(),
                avail@.len() == n,
                (new_groups.deep_view(), avail_set(ks, avail@)) == keep_groups(g.take(i as int), ks.to_set()),
            decreases old_groups@.len() - i,
        {
            let name = old_groups[i].0.clone();
            let mut kept: Vec<String> = Vec::new();
            let ghost cols = g[i as int].1;
            let ghost start = avail_set(ks, avail@);
            let mut j: usize = 0;
            while j < old_groups[i].1.len()
                invariant
                    i < old_groups@.len(),
                    j <= old_groups@[i as int].1@.len(),
                    g == old_groups.deep_view(),
                    cols == g[i as int].1,
                    self.scripts.wf(),
                    self.scripts.key_seq() == ks,
                    ks.no_duplicates(),
                    ks.len() == n,
                    avail@.len() == n,
                    (kept.deep_view(), avail_set(ks, avail@)) == keep_listed(cols.take(j as int), start),
                decreases old_groups@[i as int].1@.len() - j,
            {
                let key = &old_groups[i].1[j];
                let ghost before = avail_set(ks, avail@);
                assert(cols.take(j + 1).drop_last() =~= cols.take(j as int));
                assert(cols.take(j + 1).last() == key@);
                match self.scripts.key_position(key.as_str()) {
                    Some(p) => {
                        if avail[p] {
                            avail[p] = false;
                            kept.push(key.clone());
                            proof {
                                assert(before.contains(key@));
                                assert(avail_set(ks, avail@) =~= before.remove(key@));
                                assert(kept.deep_view() =~= keep_listed(cols.take(j as int), start).0.push(key@));
                            }
                        } else {
                            proof {
                                assert(!before.contains(key@));
                            }
                        }
                    },
                    None => {
                        proof {
                            assert(!before.contains(key@));
                        }
                    },
                }
                j = j + 1;
            }
            assert(cols.take(j as int) =~= cols);
            new_groups.push((name, kept));
            proof {
                let gi = g.take(i + 1);
                assert(gi.drop_last() =~= g.take(i as int));
                assert(gi.last() == g[i as int]);
                assert(new_groups.deep_view() =~~= keep_groups(gi, ks.to_set()).0);
            }
            i = i + 1;
        }
        assert(g.take(i as int) =~= g);
        let ghost left = avail_set(ks, avail@);
        let mut rest: Vec<String> = Vec::new();
        let mut p: usize = 0;
        while p < n
            invariant
                p <= n,
                keys@.len() == n == ks.len(),
                avail@.len() == n,
                ks.no_duplicates(),
                forall|t: int| 0 <= t < n ==> #[trigger] keys@[t]@ == ks[t],
                left == avail_set(ks, avail@),
                rest.deep_view() == ks.take(p as int).filter(|k: Seq<char>| left.contains(k)),
            decreases n - p,
        {
            let ghost pred = |k: Seq<char>| left.contains(k);
            assert(ks.take(p + 1) =~= ks.take(p as int).push(ks[p as int]));
            proof { ks.take(p as int).lemma_filter_push(ks[p as int], pred); }
            assert(left.contains(ks[p as int]) == avail@[p as int]);
            if avail[p] {
                rest.push(keys[p].clone());
                assert(rest.deep_view() =~= ks.take(p as int).filter(pred).push(ks[p as int]));
            }
            p = p + 1;
        }
        assert(ks.take(n as int) =~= ks);
        if rest.len() > 0 {
            new_groups.push((String::from_str("Remaining"), rest));
        }
        self.groups = new_groups;
        assert(self.groups.deep_view() =~~= synced_groups(g, ks));
        Ok(())
    }
}


/// The keys of all columns, group after group.
pub open spec fn flat_keys(g: Seq<(Seq<char>, Seq<Seq<char>>)>) -> Seq<Seq<char>>
    decreases g.len(),
{
    if g.len() == 0 {
        Seq::empty()
    } else {
        flat_keys(g.drop_last()) + g.last().1
    }
}

/// The keys of the first groups are no more than the keys of all.
proof fn lemma_flat_keys_prefix(g: Seq<(Seq<char>, Seq<Seq<char>>)>, i: int)
    requires
        0 <= i <= g.len(),
    ensures
        flat_keys(g.take(i)).len() <= flat_keys(g).len(),
        forall|j: int| 0 <= j < flat_keys(g.take(i)).len() ==> #[trigger] flat_keys(g.take(i))[j] == flat_keys(g)[j],
    decreases g.len(),
{
    if i < g.len() {
        assert(g.drop_last().take(i) =~= g.take(i));
        lemma_flat_keys_prefix(g.drop_last(), i);
    } else {
        assert(g.take(i) =~= g);
    }
}

proof fn lemma_keep_listed(cols: Seq<Seq<char>>, avail: Set<Seq<char>>)
    ensures
        keep_listed(cols, avail).0.no_duplicates(),
        keep_listed(cols, avail).1.subset_of(avail),
        forall|k: Seq<char>| #[trigger] keep_listed(cols, avail).0.contains(k)
            <==> (avail.contains(k) && !keep_listed(cols, avail).1.contains(k)),
    decreases cols.len(),
{
    if cols.len() > 0 {
        lemma_keep_listed(cols.drop_last(), avail);
        let (kept, left) = keep_listed(cols.drop_last(), avail);
        let k = cols.last();
        if left.contains(k) {
            assert(!kept.contains(k));
            assert forall|i: int, j: int| 0 <= i < j < kept.push(k).len() implies kept.push(k)[i] != kept.push(k)[j] by {
                if j == kept.len() {
                    assert(kept.contains(kept[i]));
                }
            }
            assert forall|x: Seq<char>| #[trigger] kept.push(k).contains(x) <==> (avail.contains(x) && !left.remove(k).contains(x)) by {
                if x != k {
                    if kept.push(k).contains(x) {
                        let i = kept.push(k).index_of(x);
                        assert(kept[i] == x);
                    }
                    if kept.contains(x) {
                        let i = kept.index_of(x);
                        assert(kept.push(k)[i] == x);
                    }
                } else {
                    assert(kept.push(k)[kept.len() as int] == x);
                }
            }
        }
    }
}

proof fn lemma_keep_groups(g: Seq<(Seq<char>, Seq<Seq<char>>)>, avail: Set<Seq<char>>)
    ensures
        flat_keys(keep_groups(g, avail).0).no_duplicates(),
        keep_groups(g, avail).1.subset_of(avail),
        forall|k: Seq<char>| #[trigger] flat_keys(keep_groups(g, avail).0).contains(k)
            <==> (avail.contains(k) && !keep_groups(g, avail).1.contains(k)),
        keep_groups(g, avail).0.len() == g.len(),
        forall|i: int| 0 <= i < g.len() ==> #[trigger] keep_groups(g, avail).0[i].0 == g[i].0,
    decreases g.len(),
{
    if g.len() > 0 {
        lemma_keep_groups(g.drop_last(), avail);
        let (kept, left) = keep_groups(g.drop_last(), avail);
        lemma_keep_listed(g.last().1, left);
        let (cols, rest) = keep_listed(g.last().1, left);
        let res = kept.push((g.last().0, cols));
        assert(res.drop_last() =~= kept);
        let a = flat_keys(kept);
        assert(flat_keys(res) == a + cols);
        assert forall|k: Seq<char>| #[trigger] (a + cols).contains(k) <==> (avail.contains(k) && !rest.contains(k)) by {
            if (a + cols).contains(k) {
                let i = (a + cols).index_of(k);
                if i < a.len() {
                    assert(a[i] == k);
                } else {
                    assert(cols[i - a.len()] == k);
                }
            }
            if a.contains(k) {
                let i = a.index_of(k);
                assert((a + cols)[i] == k);
            }
            if cols.contains(k) {
                let i = cols.index_of(k);
                assert((a + cols)[a.len() + i] == k);
            }
        }
        assert((a + cols).no_duplicates()) by {
            assert forall|i: int, j: int| 0 <= i < j < (a + cols).len() implies (a + cols)[i] != (a + cols)[j] by {
                if i < a.len() && j >= a.len() {
                    assert(a.contains(a[i]));
                    assert(cols.contains(cols[j - a.len()]));
                }
            }
        }
    }
}

proof fn lemma_filter_no_duplicates(s: Seq<Seq<char>>, pred: spec_fn(Seq<char>) -> bool)
    requires
        s.no_duplicates(),
    ensures
        s.filter(pred).no_duplicates(),
    decreases s.len(),
{
    if s.len() > 0 {
        let t = s.drop_last();
        let x = s.last();
        assert(t.no_duplicates());
        lemma_filter_no_duplicates(t, pred);
        assert(s =~= t.push(x));
        t.lemma_filter_push(x, pred);
        if pred(x) {
            let f = t.filter(pred);
            assert(!f.contains(x)) by {
                if f.contains(x) {
                    t.lemma_filter_contains_rev(pred, x);
                    let j = t.index_of(x);
                    assert(s[j] == s[s.len() - 1]);
                }
            }
            assert forall|i: int, j: int| 0 <= i < j < f.push(x).len() implies f.push(x)[i] != f.push(x)[j] by {
                if j == f.len() {
                    assert(f.contains(f[i]));
                }
            }
        }
    }
}

/// After `init`, the groups list every script key exactly once and nothing else, and
/// the groups that were there keep their names and order (one group may be added
/// after them).
pub proof fn law_synced_groups_list_each_key_once(g: Seq<(Seq<char>, Seq<Seq<char>>)>, keys: Seq<Seq<char>>)
    requires
        keys.no_duplicates(),
    ensures
        flat_keys(synced_groups(g, keys)).no_duplicates(),
        flat_keys(synced_groups(g, keys)).to_set() == keys.to_set(),
        g.len() <= synced_groups(g, keys).len() <= g.len() + 1,
        forall|i: int| 0 <= i < g.len() ==> #[trigger] synced_groups(g, keys)[i].0 == g[i].0,
{
    let avail = keys.to_set();
    lemma_keep_groups(g, avail);
    let (kept, left) = keep_groups(g, avail);
    let pred = |k: Seq<char>| left.contains(k);
    let rest = keys.filter(pred);
    let a = flat_keys(kept);
    assert forall|k: Seq<char>| #[trigger] rest.contains(k) <==> left.contains(k) by {
        if left.contains(k) {
            assert(avail.contains(k));
            let i = keys.index_of(k);
            keys.lemma_filter_contains(pred, i);
        }
        if rest.contains(k) {
            let i = rest.index_of(k);
            keys.lemma_filter_pred(pred, i);
        }
    }
    if rest.len() > 0 {
        let res = kept.push(("Remaining"@, rest));
        assert(res.drop_last() =~= kept);
        assert(flat_keys(res) == a + rest);
        assert(rest.no_duplicates()) by {
            lemma_filter_no_duplicates(keys, pred);
        }
        assert((a + rest).no_duplicates()) by {
            assert forall|i: int, j: int| 0 <= i < j < (a + rest).len() implies (a + rest)[i] != (a + rest)[j] by {
                if i < a.len() && j >= a.len() {
                    assert(a.contains(a[i]));
                    assert(rest.contains(rest[j - a.len()]));
                }
            }
        }
        assert((a + rest).to_set() =~= keys.to_set()) by {
            assert forall|k: Seq<char>| (a + rest).contains(k) <==> keys.contains(k) by {
                if (a + rest).contains(k) {
                    let i = (a + rest).index_of(k);
                    if i >= a.len() {
                        assert(rest[i - a.len()] == k);
                        assert(rest.contains(k));
                        assert(avail.contains(k));
                    } else {
                        assert(a[i] == k);
                        assert(a.contains(k));
                        assert(avail.contains(k));
                    }
                }
                if keys.contains(k) {
                    assert(avail.contains(k));
                    if a.contains(k) {
                        let i = a.index_of(k);
                        assert((a + rest)[i] == k);
                    } else {
                        assert(left.contains(k));
                        assert(rest.contains(k));
                        let i = rest.index_of(k);
                        assert((a + rest)[a.len() + i] == k);
                    }
                }
            }
        }
    } else {
        assert forall|k: Seq<char>| !left.contains(k) by {
            if left.contains(k) {
                assert(rest.contains(k));
            }
        }
        assert(a.to_set() =~= keys.to_set());
    }
}


proof fn lemma_keep_listed_all(cols: Seq<Seq<char>>, avail: Set<Seq<char>>)
    requires
        cols.no_duplicates(),
        forall|k: Seq<char>| #[trigger] cols.contains(k) ==> avail.contains(k),
    ensures
        keep_listed(cols, avail) == (cols, avail.difference(cols.to_set())),
    decreases cols.len(),
{
    if cols.len() == 0 {
        assert(avail.difference(cols.to_set()) =~= avail);
    } else {
        let t = cols.drop_last();
        let x = cols.last();
        assert forall|k: Seq<char>| #[trigger] t.contains(k) implies avail.contains(k) by {
            let i = t.index_of(k);
            assert(cols[i] == k);
            assert(cols.contains(k));
        }
        lemma_keep_listed_all(t, avail);
        assert(!t.contains(x)) by {
            if t.contains(x) {
                let i = t.index_of(x);
                assert(cols[i] == cols[cols.len() - 1]);
            }
        }
        assert(cols.contains(x)) by { assert(cols[cols.len() - 1] == x); }
        assert(avail.difference(t.to_set()).contains(x));
        assert(t.push(x) =~= cols);
        assert(avail.difference(t.to_set()).remove(x) =~= avail.difference(cols.to_set())) by {
            assert forall|k: Seq<char>| #[trigger] cols.contains(k) <==> (t.contains(k) || k == x) by {
                if cols.contains(k) && k != x {
                    let i = cols.index_of(k);
                    assert(t[i] == k);
                }
                if t.contains(k) {
                    let i = t.index_of(k);
                    assert(cols[i] == k);
                }
            }
        }
    }
}

proof fn lemma_keep_groups_all(g: Seq<(Seq<char>, Seq<Seq<char>>)>, avail: Set<Seq<char>>)
    requires
        flat_keys(g).no_duplicates(),
        forall|k: Seq<char>| #[trigger] flat_keys(g).contains(k) ==> avail.contains(k),
    ensures
        keep_groups(g, avail) == (g, avail.difference(flat_keys(g).to_set())),
    decreases g.len(),
{
    if g.len() == 0 {
        assert(avail.difference(flat_keys(g).to_set()) =~= avail);
        assert(g =~= Seq::<(Seq<char>, Seq<Seq<char>>)>::empty());
    } else {
        let h = g.drop_last();
        let cols = g.last().1;
        let a = flat_keys(h);
        assert(flat_keys(g) == a + cols);
        assert(a.no_duplicates()) by {
            assert forall|i: int, j: int| 0 <= i < j < a.len() implies a[i] != a[j] by {
                assert((a + cols)[i] == a[i]);
                assert((a + cols)[j] == a[j]);
            }
        }
        assert(cols.no_duplicates()) by {
            assert forall|i: int, j: int| 0 <= i < j < cols.len() implies cols[i] != cols[j] by {
                assert((a + cols)[a.len() + i] == cols[i]);
                assert((a + cols)[a.len() + j] == cols[j]);
            }
        }
        assert forall|k: Seq<char>| #[trigger] a.contains(k) implies avail.contains(k) by {
            let i = a.index_of(k);
            assert((a + cols)[i] == k);
            assert(flat_keys(g).contains(k));
        }
        lemma_keep_groups_all(h, avail);
        let left = avail.difference(a.to_set());
        assert forall|k: Seq<char>| #[trigger] cols.contains(k) implies left.contains(k) by {
            let i = cols.index_of(k);
            assert((a + cols)[a.len() + i] == k);
            assert(flat_keys(g).contains(k));
            assert(avail.contains(k));
            if a.contains(k) {
                let j = a.index_of(k);
                assert((a + cols)[j] == k);
            }
        }
        lemma_keep_listed_all(cols, left);
        assert(h.push((g.last().0, cols)) =~= g);
        assert(left.difference(cols.to_set()) =~= avail.difference(flat_keys(g).to_set())) by {
            assert forall|k: Seq<char>| #[trigger] (a + cols).contains(k) <==> (a.contains(k) || cols.contains(k)) by {
                if (a + cols).contains(k) {
                    let i = (a + cols).index_of(k);
                    if i < a.len() { assert(a[i] == k); } else { assert(cols[i - a.len()] == k); }
                }
                if a.contains(k) {
                    let i = a.index_of(k);
                    assert((a + cols)[i] == k);
                }
                if cols.contains(k) {
                    let i = cols.index_of(k);
                    assert((a + cols)[a.len() + i] == k);
                }
            }
        }
    }
}

/// Making the groups list every key once a second time changes nothing: `init` is
/// idempotent.
pub proof fn law_synced_groups_idempotent(g: Seq<(Seq<char>, Seq<Seq<char>>)>, keys: Seq<Seq<char>>)
    requires
        keys.no_duplicates(),
    ensures
        synced_groups(synced_groups(g, keys), keys) == synced_groups(g, keys),
{
    let s = synced_groups(g, keys);
    law_synced_groups_list_each_key_once(g, keys);
    let avail = keys.to_set();
    assert forall|k: Seq<char>| #[trigger] flat_keys(s).contains(k) implies avail.contains(k) by {
        assert(flat_keys(s).to_set().contains(k));
    }
    lemma_keep_groups_all(s, avail);
    let left = avail.difference(flat_keys(s).to_set());
    assert(left =~= Set::<Seq<char>>::empty());
    let pred = |k: Seq<char>| left.contains(k);
    let rest = keys.filter(pred);
    assert(rest.len() == 0) by {
        if rest.len() > 0 {
            keys.lemma_filter_pred(pred, 0);
        }
    }
}

} // verus!
