//! The process snapshot pipeline: each tick the raw process list is
//! replaced wholesale, filtered by a case-insensitive substring query,
//! sorted by the active column (always ascending first, with the whole
//! sequence reversed for descending order), and truncated to the configured
//! maximum.

use vstd::prelude::*;
use crate::lemma_vec_deep_view;
use crate::text::{contains_ci, contains_ci_exec, lex_le, lex_le_exec};
use crate::text::{lemma_lex_le_total, lemma_lex_le_trans};

verus! {

/// The column the process table is sorted by.
#[derive(PartialEq, Eq, Structural, Clone, Copy, Debug)]
pub enum SortColumn {
    Pid,
    Name,
    Cpu,
    Memory,
}

/// One row of the process snapshot. CPU usage is in hundredths of a
/// percent. The collection is replaced, never merged, every tick: rows have
/// no identity across ticks and no history.
pub struct ProcessInfo {
    pub pid: u32,
    pub name: String,
    pub cpu_usage: u32,
    pub memory: u64,
    pub status: String,
}

/// The mathematical image of a process row.
#[verifier::ext_equal]
pub ghost struct ProcView {
    pub pid: u32,
    pub name: Seq<char>,
    pub cpu_usage: u32,
    pub memory: u64,
    pub status: Seq<char>,
}

impl View for ProcessInfo {
    type V = ProcView;

    open spec fn view(&self) -> ProcView {
        ProcView {
            pid: self.pid,
            name: self.name@,
            cpu_usage: self.cpu_usage,
            memory: self.memory,
            status: self.status@,
        }
    }
}

impl DeepView for ProcessInfo {
    type V = ProcView;

    open spec fn deep_view(&self) -> ProcView {
        self@
    }
}

/// The key order of the chosen column: `a` sorts no later than `b`.
/// Numeric columns compare their numbers; the name column compares
/// lexicographically by code point.
pub open spec fn key_le(col: SortColumn, a: ProcView, b: ProcView) -> bool {
    match col {
        SortColumn::Pid => a.pid <= b.pid,
        SortColumn::Name => lex_le(a.name, b.name),
        SortColumn::Cpu => a.cpu_usage <= b.cpu_usage,
        SortColumn::Memory => a.memory <= b.memory,
    }
}

/// Decides the key order on two rows.
pub fn key_le_exec(col: SortColumn, a: &ProcessInfo, b: &ProcessInfo) -> (r: bool)
    ensures
        r == key_le(col, a@, b@),
{
    match col {
        SortColumn::Pid => a.pid <= b.pid,
        SortColumn::Name => lex_le_exec(a.name.as_str(), b.name.as_str()),
        SortColumn::Cpu => a.cpu_usage <= b.cpu_usage,
        SortColumn::Memory => a.memory <= b.memory,
    }
}

/// Of any two rows, one sorts no later than the other.
pub proof fn lemma_key_le_total(col: SortColumn, a: ProcView, b: ProcView)
    ensures
        key_le(col, a, b) || key_le(col, b, a),
{
    if col is Name {
        lemma_lex_le_total(a.name, b.name);
    }
}

/// The key order is transitive.
pub proof fn lemma_key_le_trans(col: SortColumn, a: ProcView, b: ProcView, c: ProcView)
    requires
        key_le(col, a, b),
        key_le(col, b, c),
    ensures
        key_le(col, a, c),
{
    if col is Name {
        lemma_lex_le_trans(a.name, b.name, c.name);
    }
}

/// A row kept by the filter: the query is empty, or occurs in the row's
/// name up to ASCII case.
pub open spec fn row_matches(p: ProcView, q: Seq<char>) -> bool {
    q.len() == 0 || contains_ci(p.name, q)
}

/// The rows that survive the search filter, in their original order.
pub open spec fn filter_spec(ps: Seq<ProcView>, q: Seq<char>) -> Seq<ProcView>
    decreases ps.len(),
{
    if ps.len() == 0 {
        ps
    } else {
        let rest = filter_spec(ps.drop_last(), q);
        if row_matches(ps.last(), q) {
            rest.push(ps.last())
        } else {
            rest
        }
    }
}

/// An empty query disables filtering.
pub proof fn lemma_filter_empty_query(ps: Seq<ProcView>, q: Seq<char>)
    requires
        q.len() == 0,
    ensures
        filter_spec(ps, q) == ps,
    decreases ps.len(),
{
    if ps.len() > 0 {
        lemma_filter_empty_query(ps.drop_last(), q);
        assert(filter_spec(ps, q) =~= ps);
    }
}

/// Where a new row lands among already sorted rows: after every row that
/// sorts no later than it, before the rest.
pub open spec fn insert_spec(col: SortColumn, s: Seq<ProcView>, x: ProcView) -> Seq<ProcView>
    decreases s.len(),
{
    if s.len() == 0 {
        seq![x]
    } else if key_le(col, s[0], x) {
        seq![s[0]] + insert_spec(col, s.drop_first(), x)
    } else {
        seq![x] + s
    }
}

/// Insertion sort over the key order: rows are taken in input order and
/// each is placed after the rows already equal to it, so equal keys keep
/// their relative input order.
pub open spec fn sort_spec(col: SortColumn, s: Seq<ProcView>) -> Seq<ProcView>
    decreases s.len(),
{
    if s.len() == 0 {
        s
    } else {
        insert_spec(col, sort_spec(col, s.drop_last()), s.last())
    }
}

/// The fully ordered sequence: ascending by the key order, or that
/// sequence reversed when descending.
pub open spec fn ordered_spec(col: SortColumn, ascending: bool, s: Seq<ProcView>) -> Seq<ProcView> {
    if ascending {
        sort_spec(col, s)
    } else {
        sort_spec(col, s).reverse()
    }
}

/// The snapshot rendered this tick: filtered, ordered, and truncated to
/// the head of the ordered sequence.
pub open spec fn snapshot_spec(
    ps: Seq<ProcView>,
    q: Seq<char>,
    col: SortColumn,
    ascending: bool,
    max: int,
) -> Seq<ProcView> {
    let d = ordered_spec(col, ascending, filter_spec(ps, q));
    if d.len() <= max {
        d
    } else {
        d.take(max)
    }
}

/// Monotone ascending in the key order.
pub open spec fn sorted_asc(col: SortColumn, s: Seq<ProcView>) -> bool {
    forall|i: int, j: int| 0 <= i <= j < s.len() ==> key_le(col, #[trigger] s[i], #[trigger] s[j])
}

/// Monotone descending in the key order.
pub open spec fn sorted_desc(col: SortColumn, s: Seq<ProcView>) -> bool {
    forall|i: int, j: int| 0 <= i <= j < s.len() ==> key_le(col, #[trigger] s[j], #[trigger] s[i])
}

/// Every row of an inserted sequence is the new row or one of the old.
proof fn lemma_insert_spec_elems(col: SortColumn, s: Seq<ProcView>, x: ProcView)
    ensures
        insert_spec(col, s, x).len() == s.len() + 1,
        forall|i: int|
            0 <= i < insert_spec(col, s, x).len() ==> (#[trigger] insert_spec(col, s, x)[i] == x
                || s.contains(insert_spec(col, s, x)[i])),
    decreases s.len(),
{
    if s.len() == 0 {
    } else if key_le(col, s[0], x) {
        lemma_insert_spec_elems(col, s.drop_first(), x);
        let t = insert_spec(col, s, x);
        let rest = insert_spec(col, s.drop_first(), x);
        assert forall|i: int| 0 <= i < t.len() implies (t[i] == x || s.contains(t[i])) by {
            if i == 0 {
                assert(s.contains(s[0]));
            } else {
                assert(t[i] == rest[i - 1]);
                if rest[i - 1] != x {
                    let k = choose|k: int| 0 <= k < s.drop_first().len() && s.drop_first()[k]
                        == rest[i - 1];
                    assert(s[k + 1] == rest[i - 1]);
                }
            }
        }
    } else {
        let t = insert_spec(col, s, x);
        assert forall|i: int| 0 <= i < t.len() implies (t[i] == x || s.contains(t[i])) by {
            if i > 0 {
                assert(t[i] == s[i - 1]);
            }
        }
    }
}

/// Inserting into a sorted sequence keeps it sorted.
proof fn lemma_insert_spec_sorted(col: SortColumn, s: Seq<ProcView>, x: ProcView)
    requires
        sorted_asc(col, s),
    ensures
        sorted_asc(col, insert_spec(col, s, x)),
    decreases s.len(),
{
    lemma_key_le_total(col, x, x);
    if s.len() == 0 {
    } else if key_le(col, s[0], x) {
        assert forall|i: int, j: int| 0 <= i <= j < s.drop_first().len() implies key_le(
            col,
            #[trigger] s.drop_first()[i],
            #[trigger] s.drop_first()[j],
        ) by {
            assert(s.drop_first()[i] == s[i + 1]);
            assert(s.drop_first()[j] == s[j + 1]);
        }
        lemma_insert_spec_sorted(col, s.drop_first(), x);
        lemma_insert_spec_elems(col, s.drop_first(), x);
        let t = insert_spec(col, s, x);
        let rest = insert_spec(col, s.drop_first(), x);
        assert forall|i: int, j: int| 0 <= i <= j < t.len() implies key_le(
            col,
            t[i],
            t[j],
        ) by {
            if i == 0 {
                assert(t[0] == s[0]);
                if j > 0 {
                    assert(t[j] == rest[j - 1]);
                    if rest[j - 1] == x {
                    } else {
                        let k = choose|k: int|
                            0 <= k < s.drop_first().len() && s.drop_first()[k] == rest[j - 1];
                        assert(s[k + 1] == rest[j - 1]);
                        assert(key_le(col, s[0], s[k + 1]));
                    }
                } else {
                    assert(key_le(col, s[0], s[0]));
                }
            } else {
                assert(t[i] == rest[i - 1]);
                assert(t[j] == rest[j - 1]);
            }
        }
    } else {
        lemma_key_le_total(col, s[0], x);
        assert(key_le(col, x, s[0]));
        let t = insert_spec(col, s, x);
        assert forall|i: int, j: int| 0 <= i <= j < t.len() implies key_le(
            col,
            t[i],
            t[j],
        ) by {
            if i == 0 && j > 0 {
                assert(t[j] == s[j - 1]);
                assert(key_le(col, s[0], s[j - 1]));
                lemma_key_le_trans(col, x, s[0], s[j - 1]);
            } else if i > 0 {
                assert(t[i] == s[i - 1]);
                assert(t[j] == s[j - 1]);
            }
        }
    }
}

/// Insertion adds exactly the new row to the collection.
proof fn lemma_insert_spec_multiset(col: SortColumn, s: Seq<ProcView>, x: ProcView)
    ensures
        insert_spec(col, s, x).to_multiset() == s.to_multiset().insert(x),
    decreases s.len(),
{
    broadcast use vstd::seq_lib::group_to_multiset_ensures;

    if s.len() == 0 {
        assert(seq![x] =~= Seq::<ProcView>::empty().push(x));
        assert(s =~= Seq::<ProcView>::empty());
    } else if key_le(col, s[0], x) {
        lemma_insert_spec_multiset(col, s.drop_first(), x);
        let rest = insert_spec(col, s.drop_first(), x);
        vstd::seq_lib::lemma_multiset_commutative(seq![s[0]], rest);
        vstd::seq_lib::lemma_multiset_commutative(seq![s[0]], s.drop_first());
        assert(s =~= seq![s[0]] + s.drop_first());
        assert(seq![s[0]].to_multiset().add(s.drop_first().to_multiset().insert(x)) =~= (seq![
            s[0],
        ].to_multiset().add(s.drop_first().to_multiset())).insert(x));
    } else {
        vstd::seq_lib::lemma_multiset_commutative(seq![x], s);
        assert(seq![x] =~= Seq::<ProcView>::empty().push(x));
        assert(Seq::<ProcView>::empty().to_multiset().insert(x).add(s.to_multiset())
            =~= s.to_multiset().insert(x).add(Seq::<ProcView>::empty().to_multiset()));
        assert(s.to_multiset().insert(x).add(Seq::<ProcView>::empty().to_multiset())
            =~= s.to_multiset().insert(x)) by {
            assert(Seq::<ProcView>::empty().to_multiset().len() == 0);
        }
    }
}

/// The sort is monotone in the key order.
pub proof fn lemma_sort_spec_sorted(col: SortColumn, s: Seq<ProcView>)
    ensures
        sorted_asc(col, sort_spec(col, s)),
    decreases s.len(),
{
    if s.len() > 0 {
        lemma_sort_spec_sorted(col, s.drop_last());
        lemma_insert_spec_sorted(col, sort_spec(col, s.drop_last()), s.last());
    }
}

/// The sort is a permutation: no row appears or disappears.
pub proof fn lemma_sort_spec_multiset(col: SortColumn, s: Seq<ProcView>)
    ensures
        sort_spec(col, s).to_multiset() == s.to_multiset(),
    decreases s.len(),
{
    broadcast use vstd::seq_lib::group_to_multiset_ensures;

    if s.len() > 0 {
        lemma_sort_spec_multiset(col, s.drop_last());
        lemma_insert_spec_multiset(col, sort_spec(col, s.drop_last()), s.last());
        assert(s =~= s.drop_last().push(s.last()));
    }
}

/// Where the new row lands, written out: at the first position whose row
/// sorts after it.
proof fn lemma_insert_spec_at(col: SortColumn, s: Seq<ProcView>, x: ProcView, j: int)
    requires
        0 <= j <= s.len(),
        forall|k: int| 0 <= k < j ==> key_le(col, #[trigger] s[k], x),
        j < s.len() ==> !key_le(col, s[j], x),
    ensures
        insert_spec(col, s, x) == s.take(j) + seq![x] + s.skip(j),
    decreases j,
{
    if j == 0 {
        assert(insert_spec(col, s, x) =~= s.take(0) + seq![x] + s.skip(0));
    } else {
        assert(key_le(col, s[0], x));
        lemma_insert_spec_at(col, s.drop_first(), x, j - 1);
        assert(insert_spec(col, s, x) =~= s.take(j) + seq![x] + s.skip(j)) by {
            assert(s.drop_first().take(j - 1) =~= s.subrange(1, j));
            assert(s.drop_first().skip(j - 1) =~= s.skip(j));
            assert(seq![s[0]] + (s.subrange(1, j) + seq![x] + s.skip(j)) =~= s.take(j) + seq![x]
                + s.skip(j));
        }
    }
}

/// Finds where a new row lands: the first position whose row sorts after
/// it, the end if there is none.
fn find_insert_pos(out: &Vec<ProcessInfo>, x: &ProcessInfo, col: SortColumn) -> (j: usize)
    ensures
        j <= out@.len(),
        forall|k: int| 0 <= k < j ==> key_le(col, #[trigger] out.deep_view()[k], x@),
        j < out@.len() ==> !key_le(col, out.deep_view()[j as int], x@),
{
    proof {
        lemma_vec_deep_view(out);
    }
    let mut j: usize = 0;
    loop
        invariant
            0 <= j <= out@.len(),
            out.deep_view().len() == out@.len(),
            forall|t: int| 0 <= t < out@.len() ==> out.deep_view()[t] == #[trigger] (out@[t]@),
            forall|k: int| 0 <= k < j ==> key_le(col, #[trigger] out.deep_view()[k], x@),
        decreases out@.len() - j,
    {
        if j == out.len() {
            return j;
        }
        if !key_le_exec(col, &out[j], x) {
            return j;
        }
        j = j + 1;
    }
}

/// Places a row among already sorted rows, after every row that sorts no
/// later than it.
fn insert_sorted(out: &mut Vec<ProcessInfo>, x: ProcessInfo, col: SortColumn)
    ensures
        final(out).deep_view() == insert_spec(col, old(out).deep_view(), x@),
{
    let ghost s = out.deep_view();
    let ghost outs = out@;
    let ghost xv = x@;
    let j = find_insert_pos(out, &x, col);
    proof {
        lemma_insert_spec_at(col, s, xv, j as int);
    }
    out.insert(j, x);
    proof {
        lemma_vec_deep_view(out);
        assert(out.deep_view() =~= s.take(j as int) + seq![xv] + s.skip(j as int)) by {
            assert(out@ == outs.insert(j as int, x));
            assert forall|t: int| 0 <= t < out@.len() implies out.deep_view()[t] == (s.take(
                j as int,
            ) + seq![xv] + s.skip(j as int))[t] by {
                if t < j {
                    assert(out@[t] == outs[t]);
                } else if t == j {
                    assert(out@[t] == x);
                } else {
                    assert(out@[t] == outs[t - 1]);
                }
            }
        }
    }
}

/// Sorts the rows by the chosen column, ascending.
fn sort_procs(v: Vec<ProcessInfo>, col: SortColumn) -> (r: Vec<ProcessInfo>)
    ensures
        r.deep_view() == sort_spec(col, v.deep_view()),
{
    let mut rest = v;
    let ghost origs = rest@;
    let ghost orig = rest.deep_view();
    proof {
        lemma_vec_deep_view(&rest);
        assert(rest@ =~= origs.skip(0));
    }
    let mut out: Vec<ProcessInfo> = Vec::new();
    while rest.len() > 0
        invariant
            rest@.len() <= origs.len(),
            rest@ == origs.skip(origs.len() - rest@.len()),
            out.deep_view() == sort_spec(col, orig.take(origs.len() - rest@.len())),
            orig.len() == origs.len(),
            forall|t: int| 0 <= t < origs.len() ==> orig[t] == #[trigger] (origs[t]@),
        decreases rest.len(),
    {
        let ghost k = origs.len() - rest@.len();
        let x = rest.remove(0);
        proof {
            assert(x == origs[k]);
            assert(rest@ =~= origs.skip(k + 1));
        }
        insert_sorted(&mut out, x, col);
        proof {
            assert(orig.take(k + 1).drop_last() =~= orig.take(k));
            assert(orig.take(k + 1).last() == orig[k]);
        }
    }
    proof {
        assert(orig.take(orig.len() as int) =~= orig);
    }
    out
}

/// Keeps the rows the query retains, in order.
fn filter_procs(v: Vec<ProcessInfo>, query: &str) -> (r: Vec<ProcessInfo>)
    ensures
        r.deep_view() == filter_spec(v.deep_view(), query@),
{
    let ghost q = query@;
    let mut rest = v;
    let ghost origs = rest@;
    let ghost orig = rest.deep_view();
    proof {
        lemma_vec_deep_view(&rest);
        assert(rest@ =~= origs.skip(0));
    }
    let mut out: Vec<ProcessInfo> = Vec::new();
    let query_empty = query.is_empty();
    while rest.len() > 0
        invariant
            rest@.len() <= origs.len(),
            rest@ == origs.skip(origs.len() - rest@.len()),
            out.deep_view() == filter_spec(orig.take(origs.len() - rest@.len()), q),
            orig.len() == origs.len(),
            forall|t: int| 0 <= t < origs.len() ==> orig[t] == #[trigger] (origs[t]@),
            query_empty == (q.len() == 0),
            q == query@,
        decreases rest.len(),
    {
        let ghost k = origs.len() - rest@.len();
        let ghost f = filter_spec(orig.take(k), q);
        let x = rest.remove(0);
        proof {
            assert(x == origs[k]);
            assert(x@ == orig[k]);
            assert(rest@ =~= origs.skip(k + 1));
            assert(orig.take(k + 1).drop_last() =~= orig.take(k));
            assert(orig.take(k + 1).last() == orig[k]);
        }
        let ghost outs = out@;
        proof {
            lemma_vec_deep_view(&out);
        }
        if query_empty || contains_ci_exec(x.name.as_str(), query) {
            out.push(x);
            proof {
                lemma_vec_deep_view(&out);
                assert(out.deep_view() =~= f.push(x@)) by {
                    assert(out@ == outs.push(x));
                    assert forall|t: int| 0 <= t < out@.len() implies out.deep_view()[t] == f.push(
                        x@,
                    )[t] by {
                        if t < out@.len() - 1 {
                            assert(out@[t] == outs[t]);
                        } else {
                            assert(out@[t] == x);
                        }
                    }
                }
            }
        }
    }
    proof {
        assert(orig.take(orig.len() as int) =~= orig);
    }
    out
}

/// Reverses the order of the rows.
fn reverse_procs(v: Vec<ProcessInfo>) -> (r: Vec<ProcessInfo>)
    ensures
        r.deep_view() == v.deep_view().reverse(),
{
    let mut rest = v;
    let ghost origs = rest@;
    let ghost orig = rest.deep_view();
    proof {
        lemma_vec_deep_view(&rest);
        assert(rest@ =~= origs.take(origs.len() as int));
    }
    let mut out: Vec<ProcessInfo> = Vec::new();
    while rest.len() > 0
        invariant
            rest@.len() <= origs.len(),
            rest@ == origs.take(rest@.len() as int),
            out@.len() == origs.len() - rest@.len(),
            forall|t: int| 0 <= t < out@.len() ==> #[trigger] out@[t] == origs[origs.len() - 1 - t],
            orig.len() == origs.len(),
            forall|t: int| 0 <= t < origs.len() ==> orig[t] == #[trigger] (origs[t]@),
        decreases rest.len(),
    {
        let x = rest.pop().unwrap();
        proof {
            assert(x == origs[rest@.len() as int]);
            assert(rest@ =~= origs.take(rest@.len() as int));
        }
        out.push(x);
    }
    proof {
        lemma_vec_deep_view(&out);
        assert(out.deep_view() =~= orig.reverse());
    }
    out
}

/// Produces the snapshot rendered this tick from the raw process list and
/// the active filter, sort and limit configuration. An empty input yields
/// an empty output; no error conditions exist.
pub fn build_snapshot(
    raw: Vec<ProcessInfo>,
    query: &str,
    col: SortColumn,
    ascending: bool,
    max: usize,
) -> (r: Vec<ProcessInfo>)
    ensures
        r.deep_view() == snapshot_spec(raw.deep_view(), query@, col, ascending, max as int),
        r.len() <= max,
{
    let filtered = filter_procs(raw, query);
    let sorted = sort_procs(filtered, col);
    let mut ordered = if ascending {
        sorted
    } else {
        reverse_procs(sorted)
    };
    if ordered.len() > max {
        ordered.truncate(max);
        proof {
            let d = ordered_spec(col, ascending, filter_spec(raw.deep_view(), query@));
            assert(ordered.deep_view() =~= d.take(max as int));
        }
    }
    ordered
}

/// Law: with a non-empty query, every retained row has the query as a
/// case-insensitive substring of its name, and no matching row is dropped.
pub proof fn lemma_filter_query(ps: Seq<ProcView>, q: Seq<char>)
    requires
        q.len() > 0,
    ensures
        forall|i: int|
            0 <= i < filter_spec(ps, q).len() ==> contains_ci(
                #[trigger] filter_spec(ps, q)[i].name,
                q,
            ),
        forall|i: int|
            0 <= i < ps.len() && contains_ci((#[trigger] ps[i]).name, q) ==> filter_spec(
                ps,
                q,
            ).contains(ps[i]),
    decreases ps.len(),
{
    if ps.len() > 0 {
        lemma_filter_query(ps.drop_last(), q);
        let f = filter_spec(ps, q);
        let rest = filter_spec(ps.drop_last(), q);
        assert forall|i: int|
            0 <= i < ps.len() && contains_ci((#[trigger] ps[i]).name, q) implies f.contains(
            ps[i],
        ) by {
            if i < ps.len() - 1 {
                assert(ps.drop_last()[i] == ps[i]);
                assert(rest.contains(ps[i]));
                let k = choose|k: int| 0 <= k < rest.len() && rest[k] == ps[i];
                assert(f[k] == ps[i]);
            } else {
                assert(f.last() == ps.last());
            }
        }
    }
}

/// Law: the snapshot is monotone in the chosen key, respecting the
/// direction.
pub proof fn lemma_snapshot_monotone(
    ps: Seq<ProcView>,
    q: Seq<char>,
    col: SortColumn,
    ascending: bool,
    max: int,
)
    requires
        max >= 0,
    ensures
        ascending ==> sorted_asc(col, snapshot_spec(ps, q, col, ascending, max)),
        !ascending ==> sorted_desc(col, snapshot_spec(ps, q, col, ascending, max)),
{
    let f = filter_spec(ps, q);
    let s = sort_spec(col, f);
    lemma_sort_spec_sorted(col, f);
    let d = ordered_spec(col, ascending, f);
    let out = snapshot_spec(ps, q, col, ascending, max);
    assert(forall|t: int| 0 <= t < out.len() ==> out[t] == d[t]);
    if !ascending {
        assert forall|i: int, j: int| 0 <= i <= j < out.len() implies key_le(
            col,
            out[j],
            out[i],
        ) by {
            assert(d[i] == s[s.len() - 1 - i]);
            assert(d[j] == s[s.len() - 1 - j]);
        }
    }
}

/// Law: reversing the direction turns the fully ordered sequence into its
/// exact reverse.
pub proof fn lemma_direction_reverse(col: SortColumn, ps: Seq<ProcView>, q: Seq<char>)
    ensures
        ordered_spec(col, false, filter_spec(ps, q)) == ordered_spec(
            col,
            true,
            filter_spec(ps, q),
        ).reverse(),
{
}

/// Law: when the filtered, ordered list is longer than the configured
/// maximum, the snapshot is exactly the head of that list, of maximum
/// length.
pub proof fn lemma_truncation(
    ps: Seq<ProcView>,
    q: Seq<char>,
    col: SortColumn,
    ascending: bool,
    max: int,
)
    requires
        0 <= max,
        ordered_spec(col, ascending, filter_spec(ps, q)).len() > max,
    ensures
        snapshot_spec(ps, q, col, ascending, max).len() == max,
        snapshot_spec(ps, q, col, ascending, max) == ordered_spec(
            col,
            ascending,
            filter_spec(ps, q),
        ).take(max),
{
}

} // verus!
