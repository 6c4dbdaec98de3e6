//! The script store of the sheet: one script per column key, the values it has
//! computed for each row, and the bookkeeping of an evaluation.
//!
//! Running a script is the engine's work and happens outside this module: a cell is
//! evaluated by `Scripts::eval_one_begin` (which decides whether the cell is a
//! dependency loop, out of range, cached, missing, or ready to run, compiling the
//! script on first use) and, once the engine has produced the value,
//! `Scripts::eval_one_finish`. A whole evaluation walks the cells handed out by
//! `Scripts::next_cell`. Values are kept as the bit patterns of the engine's
//! floating point results; this module never looks inside them.

use vstd::prelude::*;
use vstd::hash_map::HashMapWithView;

use rhai::{Engine, ParseError, AST};

use crate::engine::compile;
use crate::strmap::StrMap;
use crate::text::{decimal, write_decimal};

verus! {

broadcast use vstd::std_specs::hash::group_hash_axioms;

/// The source that is compiled for a script: its text as the body of `fn run(row)`.
pub open spec fn wrapped(script: Seq<char>) -> Seq<char> {
    "fn run(row) {\n"@ + script + "\n}"@
}

/// Makes a script's text the body of `fn run(row)`, the function the engine calls for
/// each row.
pub fn wrap_script(script: &str) -> (r: String)
    ensures
        r@ == wrapped(script@),
{
    let mut r = String::from_str("fn run(row) {\n");
    r.append(script);
    r.append("\n}");
    r
}

/// The text of a script and, once compiled, its syntax tree.
pub struct Script {
    pub text: String,
    pub ast: Option<AST>,
}

/// Values computed so far, per column key and row.
pub struct ValueCache {
    cols: StrMap<HashMapWithView<usize, u64>>,
}

impl ValueCache {
    pub closed spec fn wf(&self) -> bool {
        self.cols.wf()
    }

    /// The cached value of each (key, row) cell.
    pub closed spec fn view(&self) -> Map<(Seq<char>, usize), u64> {
        Map::new(
            |c: (Seq<char>, usize)| self.cols@.contains_key(c.0) && self.cols@[c.0]@.contains_key(c.1),
            |c: (Seq<char>, usize)| self.cols@[c.0]@[c.1],
        )
    }

    pub fn new() -> (r: Self)
        ensures
            r.wf(),
            r@ == Map::<(Seq<char>, usize), u64>::empty(),
    {
        let r = ValueCache { cols: StrMap::new() };
        assert(r@ =~= Map::<(Seq<char>, usize), u64>::empty());
        r
    }

    /// The value cached for row `row` of column `key`.
    pub fn get(&self, key: &str, row: usize) -> (r: Option<u64>)
        requires
            self.wf(),
        ensures
            r == (if self@.contains_key((key@, row)) { Some(self@[(key@, row)]) } else { None::<u64> }),
    {
        match self.cols.get(key) {
            Some(col) => match col.get(&row) {
                Some(v) => Some(*v),
                None => None,
            },
            None => None,
        }
    }

    pub fn insert(&mut self, key: &str, row: usize, v: u64)
        requires
            old(self).wf(),
        ensures
            final(self).wf(),
            final(self)@ == old(self)@.insert((key@, row), v),
    {
        let ghost old_view = self@;
        let taken = self.cols.remove(key);
        let mut col = match taken {
            Some(c) => c,
            None => HashMapWithView::new(),
        };
        col.insert(row, v);
        self.cols.insert(key.to_owned(), col);
        proof {
            assert forall|c: (Seq<char>, usize)| #[trigger] self@.contains_key(c)
                == old_view.insert((key@, row), v).contains_key(c) by {}
            assert(self@ =~= old_view.insert((key@, row), v));
        }
    }
}

/// What `Scripts::eval_one_begin` decided for a cell it does not turn into an error.
pub enum CellStep {
    /// The value was computed before in this evaluation.
    Cached(u64),
    /// The script of the cell is compiled: the engine may run it for the row.
    Run,
}

/// Why a cell could not be evaluated.
pub enum EvalError {
    /// The cell depends on itself; the message lists the chain of cells.
    DependencyLoop(String),
    /// The row is outside the sheet's rows; the message says which.
    RowOutOfRange(String),
    /// No script is stored under the key.
    ScriptNotFound(String),
    /// The script of the cell does not parse.
    Parse(ParseError),
}

/// How `Scripts::eval_one_begin` treats a cell, as a function of the state it finds.
pub enum CellOutcome {
    DependencyLoop,
    RowOutOfRange,
    Cached(u64),
    ScriptNotFound,
    Compile,
    Ready,
}

/// `(key, row)` as it appears in a dependency loop message.
pub open spec fn frame_text(f: (Seq<char>, usize)) -> Seq<char> {
    "("@ + f.0 + ", "@ + decimal(f.1 as nat) + ")"@
}

/// The frames of a chain joined by ` -> `.
pub open spec fn join_frames(s: Seq<(Seq<char>, usize)>) -> Seq<char>
    decreases s.len(),
{
    if s.len() == 0 {
        Seq::empty()
    } else if s.len() == 1 {
        frame_text(s[0])
    } else {
        join_frames(s.drop_last()) + " -> "@ + frame_text(s.last())
    }
}

pub open spec fn loop_message(chain: Seq<(Seq<char>, usize)>) -> Seq<char> {
    "Encountered dependency loop "@ + join_frames(chain)
}

pub open spec fn range_message(row: usize, key: Seq<char>, start: usize, end: usize) -> Seq<char> {
    "Row index "@ + decimal(row as nat) + " of \""@ + key + "\" out of range ["@
        + decimal(start as nat) + ","@ + decimal(end as nat) + "]"@
}

pub open spec fn eval_message(key: Seq<char>, row: usize, err: Seq<char>) -> Seq<char> {
    "In "@ + key + "["@ + decimal(row as nat) + "], "@ + err
}

/// The view of a call stack.
pub open spec fn frames(v: Seq<(String, usize)>) -> Seq<(Seq<char>, usize)> {
    Seq::new(v.len(), |i: int| (v[i].0@, v[i].1))
}

/// What `eval_one_begin` does with cell `(key, row)`, in the order in which it checks.
pub open spec fn cell_outcome(
    stack: Seq<(Seq<char>, usize)>,
    start: usize,
    end: usize,
    cache: Map<(Seq<char>, usize), u64>,
    scripts: Map<Seq<char>, Script>,
    key: Seq<char>,
    row: usize,
) -> CellOutcome {
    if stack.contains((key, row)) {
        CellOutcome::DependencyLoop
    } else if !(start <= row <= end) {
        CellOutcome::RowOutOfRange
    } else if cache.contains_key((key, row)) {
        CellOutcome::Cached(cache[(key, row)])
    } else if !scripts.contains_key(key) {
        CellOutcome::ScriptNotFound
    } else if scripts[key].ast is None {
        CellOutcome::Compile
    } else {
        CellOutcome::Ready
    }
}

/// The error text of an evaluation that failed at row `row` of column `key`, given the
/// engine's text of the error.
pub fn eval_error_message(key: &str, row: usize, err: &str) -> (r: String)
    ensures
        r@ == eval_message(key@, row, err@),
{
    let mut r = String::from_str("In ");
    r.append(key);
    r.append("[");
    write_decimal(&mut r, row);
    r.append("], ");
    r.append(err);
    r
}

fn write_frame(s: &mut String, key: &String, row: usize)
    ensures
        final(s)@ == old(s)@ + frame_text((key@, row)),
{
    s.append("(");
    s.append(key.as_str());
    s.append(", ");
    write_decimal(s, row);
    s.append(")");
}

fn loop_text(stack: &Vec<(String, usize)>) -> (r: String)
    ensures
        r@ == loop_message(frames(stack@)),
{
    let mut r = String::from_str("Encountered dependency loop ");
    let ghost prefix = r@;
    let mut i: usize = 0;
    while i < stack.len()
        invariant
            i <= stack@.len(),
            prefix == "Encountered dependency loop "@,
            r@ == prefix + join_frames(frames(stack@).take(i as int)),
        decreases stack@.len() - i,
    {
        let ghost before = r@;
        if i > 0 {
            r.append(" -> ");
        }
        write_frame(&mut r, &stack[i].0, stack[i].1);
        proof {
            let t = frames(stack@).take(i + 1);
            assert(t.drop_last() =~= frames(stack@).take(i as int));
            assert(t.last() == (stack@[i as int].0@, stack@[i as int].1));
            if i == 0 {
                assert(join_frames(frames(stack@).take(0)) =~= Seq::<char>::empty());
                assert(r@ =~= prefix + join_frames(t));
            } else {
                assert(r@ =~= prefix + join_frames(t));
            }
        }
        i = i + 1;
    }
    assert(frames(stack@).take(i as int) =~= frames(stack@));
    r
}

fn range_text(row: usize, key: &str, start: usize, end: usize) -> (r: String)
    ensures
        r@ == range_message(row, key@, start, end),
{
    let mut r = String::from_str("Row index ");
    write_decimal(&mut r, row);
    r.append(" of \"");
    r.append(key);
    r.append("\" out of range [");
    write_decimal(&mut r, start);
    r.append(",");
    write_decimal(&mut r, end);
    r.append("]");
    r
}

fn stack_contains(stack: &Vec<(String, usize)>, key: &str, row: usize) -> (b: bool)
    ensures
        b == frames(stack@).contains((key@, row)),
{
    let mut i: usize = 0;
    while i < stack.len()
        invariant
            i <= stack@.len(),
            forall|j: int| 0 <= j < i ==> #[trigger] frames(stack@)[j] != (key@, row),
        decreases stack@.len() - i,
    {
        if stack[i].1 == row && crate::text::str_eq(stack[i].0.as_str(), key) {
            assert(frames(stack@)[i as int] == (key@, row));
            return true;
        }
        assert(frames(stack@)[i as int] != (key@, row));
        i = i + 1;
    }
    false
}

/// The cells of one evaluation, handed out row by row, each row in key order.
pub struct EvalRun {
    keys: Vec<String>,
    end: usize,
    row: usize,
    key_idx: usize,
    done: bool,
    saved: ValueCache,
}

impl EvalRun {
    /// The keys of the evaluation, fixed when it began.
    pub closed spec fn keys(&self) -> Seq<Seq<char>> {
        Seq::new(self.keys@.len(), |i: int| self.keys@[i]@)
    }

    pub closed spec fn last_row(&self) -> usize {
        self.end
    }

    /// The row of the next cell.
    pub closed spec fn row(&self) -> usize {
        self.row
    }

    /// The position of the key of the next cell.
    pub closed spec fn key_index(&self) -> int {
        self.key_idx as int
    }

    /// Whether every cell was handed out.
    pub closed spec fn done(&self) -> bool {
        self.done
    }

    /// The values as they were before the evaluation began.
    pub closed spec fn saved(&self) -> Map<(Seq<char>, usize), u64> {
        self.saved@
    }

    pub closed spec fn wf(&self) -> bool {
        &&& self.saved.wf()
        &&& !self.done ==> self.key_idx < self.keys@.len() && self.row <= self.end
    }

    /// The number of cells still to be handed out.
    pub open spec fn remaining(&self) -> int {
        if self.done() {
            0
        } else {
            (self.last_row() - self.row()) * self.keys().len() + (self.keys().len() - self.key_index())
        }
    }
}

pub struct Scripts {
    scripts: StrMap<Script>,
    values: ValueCache,
    call_stack: Vec<(String, usize)>,
    range_start: usize,
    range_end: usize,
}

impl Scripts {
    pub closed spec fn wf(&self) -> bool {
        &&& self.scripts.wf()
        &&& self.values.wf()
        &&& self.range_end < usize::MAX
    }

    /// The scripts by key.
    pub closed spec fn script_map(&self) -> Map<Seq<char>, Script> {
        self.scripts@
    }

    /// The keys in increasing order.
    pub closed spec fn key_seq(&self) -> Seq<Seq<char>> {
        self.scripts.keys()
    }

    /// The values computed so far.
    pub closed spec fn cache(&self) -> Map<(Seq<char>, usize), u64> {
        self.values@
    }

    /// The cells being evaluated, outermost first.
    pub closed spec fn stack(&self) -> Seq<(Seq<char>, usize)> {
        frames(self.call_stack@)
    }

    /// The first row of the sheet.
    pub closed spec fn first_row(&self) -> usize {
        self.range_start
    }

    /// The last row of the sheet.
    pub closed spec fn last_row(&self) -> usize {
        self.range_end
    }

    /// What `eval_one_begin` does with a cell in the current state.
    pub open spec fn outcome(&self, key: Seq<char>, row: usize) -> CellOutcome {
        cell_outcome(self.stack(), self.first_row(), self.last_row(), self.cache(), self.script_map(), key, row)
    }

    pub proof fn lemma_keys(&self)
        requires
            self.wf(),
        ensures
            crate::strmap::strictly_sorted(self.key_seq()),
            forall|k: Seq<char>| #[trigger] self.script_map().contains_key(k) <==> self.key_seq().contains(k),
            self.script_map().dom().len() == self.key_seq().len(),
    {
        self.scripts.lemma_view();
    }
}

impl Scripts {
    pub fn contains_key(&self, key: &str) -> (b: bool)
        requires
            self.wf(),
        ensures
            b == self.script_map().contains_key(key@),
    {
        self.scripts.contains_key(key)
    }

    /// The script stored under `key`.
    pub fn script(&self, key: &str) -> (r: Option<&Script>)
        requires
            self.wf(),
        ensures
            r matches Some(s) ==> self.script_map().contains_key(key@) && *s == self.script_map()[key@],
            r is None ==> !self.script_map().contains_key(key@),
    {
        self.scripts.get(key)
    }

    /// Drops the script stored under `key`, if any. Values already computed stay
    /// until the next evaluation.
    pub fn remove_script(&mut self, key: &str)
        requires
            old(self).wf(),
        ensures
            final(self).wf(),
            final(self).script_map() == old(self).script_map().remove(key@),
            final(self).cache() == old(self).cache(),
            final(self).stack() == old(self).stack(),
            final(self).first_row() == old(self).first_row(),
            final(self).last_row() == old(self).last_row(),
    {
        let _ = self.scripts.remove(key);
    }

    /// Stores an empty, uncompiled script under `key`, in place of any script there.
    pub fn add_script(&mut self, key: String)
        requires
            old(self).wf(),
        ensures
            final(self).wf(),
            final(self).script_map() == old(self).script_map().insert(key@, final(self).script_map()[key@]),
            final(self).script_map()[key@].text@ == Seq::<char>::empty(),
            final(self).script_map()[key@].ast is None,
            final(self).cache() == old(self).cache(),
            final(self).stack() == old(self).stack(),
            final(self).first_row() == old(self).first_row(),
            final(self).last_row() == old(self).last_row(),
    {
        let _ = self.scripts.insert(key, Script { text: String::new(), ast: None });
    }

    /// Replaces the text of the script under `key`, which then has to be compiled anew.
    /// Returns whether there is such a script; if not, nothing changes.
    pub fn edit_script(&mut self, key: &str, text: String) -> (found: bool)
        requires
            old(self).wf(),
        ensures
            final(self).wf(),
            found == old(self).script_map().contains_key(key@),
            found ==> final(self).script_map() == old(self).script_map().insert(key@, final(self).script_map()[key@]),
            found ==> final(self).script_map()[key@].text == text && final(self).script_map()[key@].ast is None,
            !found ==> final(self).script_map() == old(self).script_map(),
            final(self).key_seq() == old(self).key_seq(),
            final(self).cache() == old(self).cache(),
            final(self).stack() == old(self).stack(),
            final(self).first_row() == old(self).first_row(),
            final(self).last_row() == old(self).last_row(),
    {
        if self.scripts.contains_key(key) {
            let _ = self.scripts.insert(key.to_owned(), Script { text, ast: None });
            true
        } else {
            false
        }
    }

    /// Sets the rows to `0..=count - 1`. Returns whether the rows were set, in which case
    /// the sheet has to be evaluated again; a count of zero changes nothing.
    pub fn set_num_rows(&mut self, count: usize) -> (changed: bool)
        requires
            old(self).wf(),
        ensures
            final(self).wf(),
            changed == (count > 0),
            changed ==> final(self).first_row() == 0 && final(self).last_row() == count - 1,
            !changed ==> final(self).first_row() == old(self).first_row()
                && final(self).last_row() == old(self).last_row(),
            final(self).script_map() == old(self).script_map(),
            final(self).key_seq() == old(self).key_seq(),
            final(self).cache() == old(self).cache(),
            final(self).stack() == old(self).stack(),
    {
        if count > 0 {
            self.range_start = 0;
            self.range_end = count - 1;
            true
        } else {
            false
        }
    }

    /// Sets the rows to `start..=end` (as when loading a saved sheet).
    pub fn set_rows(&mut self, start: usize, end: usize)
        requires
            old(self).wf(),
            end < usize::MAX,
        ensures
            final(self).wf(),
            final(self).first_row() == start,
            final(self).last_row() == end,
            final(self).script_map() == old(self).script_map(),
            final(self).key_seq() == old(self).key_seq(),
            final(self).cache() == old(self).cache(),
            final(self).stack() == old(self).stack(),
    {
        self.range_start = start;
        self.range_end = end;
    }

    /// One past the last row.
    pub fn num_rows(&self) -> (n: usize)
        requires
            self.wf(),
        ensures
            n == self.last_row() + 1,
    {
        self.range_end + 1
    }

    /// The first row.
    pub fn first_row_index(&self) -> (n: usize)
        ensures
            n == self.first_row(),
    {
        self.range_start
    }

    pub fn key_count(&self) -> (n: usize)
        requires
            self.wf(),
        ensures
            n == self.key_seq().len(),
            n == self.script_map().dom().len(),
    {
        proof { self.lemma_keys(); }
        self.scripts.len()
    }

    /// The `n`-th key in increasing order.
    pub fn nth_key(&self, n: usize) -> (r: Option<String>)
        requires
            self.wf(),
        ensures
            n < self.key_seq().len() ==> (r matches Some(k) && k@ == self.key_seq()[n as int]),
            n >= self.key_seq().len() ==> r is None,
    {
        if n < self.scripts.len() {
            Some(self.scripts.key_at(n).clone())
        } else {
            None
        }
    }

    /// The position of `key` in key order.
    pub fn key_position(&self, key: &str) -> (r: Option<usize>)
        requires
            self.wf(),
        ensures
            r matches Some(p) ==> p < self.key_seq().len() && self.key_seq()[p as int] == key@,
            r is None ==> !self.key_seq().contains(key@),
    {
        match self.scripts.find(key) {
            Ok(p) => Some(p),
            Err(_) => None,
        }
    }

    /// A copy of every key, in increasing order.
    pub fn key_list(&self) -> (r: Vec<String>)
        requires
            self.wf(),
        ensures
            r@.len() == self.key_seq().len(),
            forall|i: int| 0 <= i < r@.len() ==> #[trigger] r@[i]@ == self.key_seq()[i],
    {
        self.scripts.key_list()
    }

    /// The values computed so far.
    pub fn values(&self) -> (r: &ValueCache)
        requires
            self.wf(),
        ensures
            r.wf(),
            r@ == self.cache(),
    {
        &self.values
    }

    /// The value computed for row `row` of column `key`.
    pub fn value(&self, key: &str, row: usize) -> (r: Option<u64>)
        requires
            self.wf(),
        ensures
            r == (if self.cache().contains_key((key@, row)) { Some(self.cache()[(key@, row)]) } else { None::<u64> }),
    {
        self.values.get(key, row)
    }
}

impl Scripts {
    /// Starts an evaluation of every cell: the cells of the current keys and rows are
    /// handed out by `next_cell`, and the values computed so far are set aside (and
    /// brought back by `abort_eval`).
    pub fn begin_eval(&mut self) -> (run: EvalRun)
        requires
            old(self).wf(),
        ensures
            final(self).wf(),
            run.wf(),
            run.keys() == old(self).key_seq(),
            run.last_row() == old(self).last_row(),
            run.saved() == old(self).cache(),
            run.done() == (old(self).first_row() > old(self).last_row() || old(self).key_seq().len() == 0),
            !run.done() ==> run.row() == old(self).first_row() && run.key_index() == 0,
            !run.done() ==> run.remaining() == (old(self).last_row() - old(self).first_row() + 1) * old(self).key_seq().len(),
            final(self).cache() == Map::<(Seq<char>, usize), u64>::empty(),
            final(self).script_map() == old(self).script_map(),
            final(self).key_seq() == old(self).key_seq(),
            final(self).stack() == old(self).stack(),
            final(self).first_row() == old(self).first_row(),
            final(self).last_row() == old(self).last_row(),
    {
        let keys = self.scripts.key_list();
        let mut saved = ValueCache::new();
        std::mem::swap(&mut saved, &mut self.values);
        let done = self.range_start > self.range_end || keys.len() == 0;
        let run = EvalRun { keys, end: self.range_end, row: self.range_start, key_idx: 0, done, saved };
        assert(run.keys() =~= old(self).key_seq());
        proof {
            let n = run.keys().len() as int;
            let a = self.range_end as int;
            let b = self.range_start as int;
            assert((a - b) * n + n == (a - b + 1) * n) by (nonlinear_arith);
        }
        run
    }

    /// Hands out the next cell of `run` and empties the call stack for it.
    pub fn next_cell(&mut self, run: &mut EvalRun) -> (r: Option<(String, usize)>)
        requires
            old(self).wf(),
            old(run).wf(),
        ensures
            final(self).wf(),
            final(run).wf(),
            final(run).keys() == old(run).keys(),
            final(run).last_row() == old(run).last_row(),
            final(run).saved() == old(run).saved(),
            final(self).script_map() == old(self).script_map(),
            final(self).key_seq() == old(self).key_seq(),
            final(self).cache() == old(self).cache(),
            final(self).first_row() == old(self).first_row(),
            final(self).last_row() == old(self).last_row(),
            old(run).done() ==> r is None && final(run).done() && final(self).stack() == old(self).stack(),
            !old(run).done() ==> {
                &&& r matches Some(cell) && cell.0@ == old(run).keys()[old(run).key_index()]
                    && cell.1 == old(run).row()
                &&& final(self).stack() == Seq::<(Seq<char>, usize)>::empty()
                &&& final(run).remaining() == old(run).remaining() - 1
                &&& if old(run).key_index() + 1 < old(run).keys().len() {
                    !final(run).done() && final(run).row() == old(run).row()
                        && final(run).key_index() == old(run).key_index() + 1
                } else if old(run).row() == old(run).last_row() {
                    final(run).done()
                } else {
                    !final(run).done() && final(run).row() == old(run).row() + 1
                        && final(run).key_index() == 0
                }
            },
    {
        if run.done {
            return None;
        }
        let cell = (run.keys[run.key_idx].clone(), run.row);
        self.call_stack.clear();
        let ghost n = run.keys@.len() as int;
        let ghost r0 = run.row as int;
        let ghost e = run.end as int;
        assert(run.key_idx < run.keys@.len());
        if run.key_idx < run.keys.len() - 1 {
            run.key_idx = run.key_idx + 1;
        } else if run.row == run.end {
            run.done = true;
            assert((e - r0) * n == 0) by (nonlinear_arith)
                requires e == r0;
        } else {
            run.key_idx = 0;
            run.row = run.row + 1;
            assert((e - r0) * n == (e - (r0 + 1)) * n + n) by (nonlinear_arith);
        }
        assert(self.stack() =~= Seq::<(Seq<char>, usize)>::empty());
        Some(cell)
    }

    /// Gives up an evaluation: the values set aside when it began come back.
    pub fn abort_eval(&mut self, run: EvalRun)
        requires
            old(self).wf(),
            run.wf(),
        ensures
            final(self).wf(),
            final(self).cache() == run.saved(),
            final(self).script_map() == old(self).script_map(),
            final(self).key_seq() == old(self).key_seq(),
            final(self).stack() == old(self).stack(),
            final(self).first_row() == old(self).first_row(),
            final(self).last_row() == old(self).last_row(),
    {
        self.values = run.saved;
    }

    /// The first half of evaluating cell `(key, row)`: detects a dependency loop (the
    /// cell is already being evaluated), a row out of range, a value computed before,
    /// a missing script, and compiles the script on first use. The cell is pushed on
    /// the call stack, except when its value was cached; it leaves the stack in
    /// `eval_one_finish` once the engine has run the script for the row.
    pub fn eval_one_begin(&mut self, engine: &Engine, key: &str, row: usize) -> (r: Result<CellStep, EvalError>)
        requires
            old(self).wf(),
        ensures
            final(self).wf(),
            final(self).key_seq() == old(self).key_seq(),
            final(self).cache() == old(self).cache(),
            final(self).first_row() == old(self).first_row(),
            final(self).last_row() == old(self).last_row(),
            old(self).outcome(key@, row) is Cached ==> final(self).stack() == old(self).stack(),
            !(old(self).outcome(key@, row) is Cached) ==> final(self).stack() == old(self).stack().push((key@, row)),
            !(old(self).outcome(key@, row) is Compile) ==> final(self).script_map() == old(self).script_map(),
            (r matches Err(EvalError::DependencyLoop(_))) <==> old(self).stack().contains((key@, row)),
            !old(self).stack().contains((key@, row)) && old(self).first_row() <= row <= old(self).last_row()
                && !old(self).cache().contains_key((key@, row)) && old(self).script_map().contains_key(key@)
                ==> (r matches Ok(CellStep::Run) || r matches Err(EvalError::Parse(_))),
            match old(self).outcome(key@, row) {
                CellOutcome::DependencyLoop => r matches Err(EvalError::DependencyLoop(m))
                    && m@ == loop_message(old(self).stack().push((key@, row))),
                CellOutcome::RowOutOfRange => r matches Err(EvalError::RowOutOfRange(m))
                    && m@ == range_message(row, key@, old(self).first_row(), old(self).last_row()),
                CellOutcome::Cached(v) => r matches Ok(CellStep::Cached(w)) && w == v,
                CellOutcome::ScriptNotFound => r matches Err(EvalError::ScriptNotFound(k)) && k@ == key@,
                CellOutcome::Compile => (r is Ok && r->Ok_0 is Run
                    && final(self).script_map().dom() == old(self).script_map().dom()
                    && (forall|k: Seq<char>| k != key@ && #[trigger] old(self).script_map().contains_key(k)
                        ==> final(self).script_map()[k] == old(self).script_map()[k])
                    && final(self).script_map()[key@].text == old(self).script_map()[key@].text
                    && final(self).script_map()[key@].ast is Some)
                    || (r matches Err(EvalError::Parse(_))
                    && final(self).script_map() == old(self).script_map()),
                CellOutcome::Ready => r matches Ok(CellStep::Run),
            },
    {
        let present = stack_contains(&self.call_stack, key, row);
        self.call_stack.push((key.to_owned(), row));
        proof {
            assert(self.stack() =~= old(self).stack().push((key@, row)));
        }
        if present {
            return Err(EvalError::DependencyLoop(loop_text(&self.call_stack)));
        }
        if !(self.range_start <= row && row <= self.range_end) {
            return Err(EvalError::RowOutOfRange(range_text(row, key, self.range_start, self.range_end)));
        }
        match self.values.get(key, row) {
            Some(v) => {
                self.call_stack.pop();
                assert(self.stack() =~= old(self).stack());
                return Ok(CellStep::Cached(v));
            },
            None => {},
        }
        let source = match self.scripts.get(key) {
            None => {
                return Err(EvalError::ScriptNotFound(key.to_owned()));
            },
            Some(script) => {
                if script.ast.is_some() {
                    return Ok(CellStep::Run);
                }
                wrap_script(script.text.as_str())
            },
        };
        let compiled = compile(engine, source.as_str());
        let r = self.store_compiled(key, compiled);
        assert(self.script_map().dom() =~= old(self).script_map().dom());
        r
    }

    /// Takes the outcome of compiling the script under `key` (its text wrapped by
    /// `wrap_script`): a syntax tree is stored with the script, which is then ready to
    /// run; a parse error becomes the cell's error and changes nothing.
    pub fn store_compiled(&mut self, key: &str, compiled: Result<AST, ParseError>) -> (r: Result<CellStep, EvalError>)
        requires
            old(self).wf(),
            old(self).script_map().contains_key(key@),
        ensures
            final(self).wf(),
            final(self).key_seq() == old(self).key_seq(),
            final(self).cache() == old(self).cache(),
            final(self).stack() == old(self).stack(),
            final(self).first_row() == old(self).first_row(),
            final(self).last_row() == old(self).last_row(),
            match compiled {
                Ok(ast) => r matches Ok(CellStep::Run) && final(self).script_map() == old(self).script_map().insert(
                    key@,
                    (Script { text: old(self).script_map()[key@].text, ast: Some(ast) }),
                ),
                Err(e) => r matches Err(EvalError::Parse(f)) && f == e
                    && final(self).script_map() == old(self).script_map(),
            },
    {
        match compiled {
            Ok(ast) => {
                let text = self.scripts.get(key).unwrap().text.clone();
                let _ = self.scripts.insert(key.to_owned(), Script { text, ast: Some(ast) });
                Ok(CellStep::Run)
            },
            Err(e) => Err(EvalError::Parse(e)),
        }
    }

    /// The second half of evaluating a cell: stores the value that the engine computed
    /// for `(key, row)` and takes the top cell off the call stack.
    pub fn eval_one_finish(&mut self, key: &str, row: usize, value: u64)
        requires
            old(self).wf(),
        ensures
            final(self).wf(),
            final(self).cache() == old(self).cache().insert((key@, row), value),
            final(self).stack() == (if old(self).stack().len() > 0 {
                old(self).stack().drop_last()
            } else {
                old(self).stack()
            }),
            final(self).script_map() == old(self).script_map(),
            final(self).key_seq() == old(self).key_seq(),
            final(self).first_row() == old(self).first_row(),
            final(self).last_row() == old(self).last_row(),
    {
        self.values.insert(key, row, value);
        let _ = self.call_stack.pop();
        assert(self.stack() =~= (if old(self).stack().len() > 0 {
            old(self).stack().drop_last()
        } else {
            old(self).stack()
        }));
    }
}

impl Default for Scripts {
    /// No scripts, rows 0 to 100.
    fn default() -> (r: Self)
        ensures
            r.wf(),
            r.script_map() == Map::<Seq<char>, Script>::empty(),
            r.key_seq() == Seq::<Seq<char>>::empty(),
            r.cache() == Map::<(Seq<char>, usize), u64>::empty(),
            r.stack() == Seq::<(Seq<char>, usize)>::empty(),
            r.first_row() == 0,
            r.last_row() == 100,
    {
        let r = Scripts {
            scripts: StrMap::new(),
            values: ValueCache::new(),
            call_stack: Vec::new(),
            range_start: 0,
            range_end: 100,
        };
        assert(r.stack() =~= Seq::<(Seq<char>, usize)>::empty());
        r
    }
}


/// A value that `eval_one_finish` stored for a cell is what `eval_one_begin` hands back
/// for that cell from then on, without looking at its script, as long as the cell is in
/// range and not itself being evaluated.
pub proof fn law_finished_value_is_reused(
    stack: Seq<(Seq<char>, usize)>,
    start: usize,
    end: usize,
    cache: Map<(Seq<char>, usize), u64>,
    scripts: Map<Seq<char>, Script>,
    key: Seq<char>,
    row: usize,
    v: u64,
)
    requires
        !stack.contains((key, row)),
        start <= row <= end,
    ensures
        cell_outcome(stack, start, end, cache.insert((key, row), v), scripts, key, row) == CellOutcome::Cached(v),
{
}

/// A dependency loop is reported for exactly the cells that are themselves on the call
/// stack: other cells of the same row (or of the same column) being evaluated do not
/// make one. A cell off the stack, in range, not cached and with a stored script is
/// compiled or run.
pub proof fn law_loop_only_for_the_same_cell(
    stack: Seq<(Seq<char>, usize)>,
    start: usize,
    end: usize,
    cache: Map<(Seq<char>, usize), u64>,
    scripts: Map<Seq<char>, Script>,
    key: Seq<char>,
    row: usize,
)
    ensures
        cell_outcome(stack, start, end, cache, scripts, key, row) is DependencyLoop
            <==> exists|i: int| 0 <= i < stack.len() && stack[i].0 == key && stack[i].1 == row,
        (forall|i: int| 0 <= i < stack.len() ==> stack[i] != (key, row))
            && start <= row <= end
            && !cache.contains_key((key, row))
            && scripts.contains_key(key)
            ==> (cell_outcome(stack, start, end, cache, scripts, key, row) is Compile
                || cell_outcome(stack, start, end, cache, scripts, key, row) is Ready),
{
    if exists|i: int| 0 <= i < stack.len() && stack[i].0 == key && stack[i].1 == row {
        let i = choose|i: int| 0 <= i < stack.len() && stack[i].0 == key && stack[i].1 == row;
        assert(stack[i] == (key, row));
        assert(stack.contains((key, row)));
    }
    if stack.contains((key, row)) {
        let i = stack.index_of((key, row));
        assert(stack[i].0 == key && stack[i].1 == row);
    }
}

/// A cell that is being evaluated when it is asked for again is a dependency loop,
/// whatever else holds of it.
pub proof fn law_reentered_cell_is_loop(
    stack: Seq<(Seq<char>, usize)>,
    start: usize,
    end: usize,
    cache: Map<(Seq<char>, usize), u64>,
    scripts: Map<Seq<char>, Script>,
    key: Seq<char>,
    row: usize,
)
    requires
        stack.contains((key, row)),
    ensures
        cell_outcome(stack, start, end, cache, scripts, key, row) is DependencyLoop,
{
}

/// The order of the keys, and so the key that `nth_key` gives for each position, depends
/// only on which keys are stored.
pub proof fn law_key_order_fixed_by_keys(a: Scripts, b: Scripts)
    requires
        a.wf(),
        b.wf(),
        a.script_map().dom() == b.script_map().dom(),
    ensures
        a.key_seq() == b.key_seq(),
{
    a.lemma_keys();
    b.lemma_keys();
    assert(a.key_seq().to_set() =~= b.key_seq().to_set()) by {
        assert forall|k: Seq<char>| a.key_seq().contains(k) <==> b.key_seq().contains(k) by {
            assert(a.script_map().dom().contains(k) == b.script_map().dom().contains(k));
            assert(a.script_map().contains_key(k) == b.script_map().contains_key(k));
            assert(a.script_map().contains_key(k) <==> a.key_seq().contains(k));
            assert(b.script_map().contains_key(k) <==> b.key_seq().contains(k));
        }
    }
    crate::strmap::lemma_sorted_unique(a.key_seq(), b.key_seq());
}

} // verus!
