//! Resource ledger safety simulation (Banker's algorithm).  Starting from
//! `work = available` with every thread unfinished, the detector repeatedly
//! scans from the top for an unfinished thread whose entire `need` row is
//! covered by `work`; such a thread is marked finished and its `allocation`
//! row is added into `work`.  The state is safe exactly when every thread can
//! be finished this way.

use vstd::prelude::*;

verus! {

/// Every row of the matrix has exactly `cols` entries.
pub open spec fn rect(m: Seq<Seq<usize>>, cols: int) -> bool {
    forall|t: int| 0 <= t < m.len() ==> (#[trigger] m[t]).len() == cols
}

/// Row `row` is covered by `work` entry-wise.
pub open spec fn row_fits(row: Seq<usize>, work: Seq<int>) -> bool {
    forall|j: int| 0 <= j < work.len() ==> (#[trigger] row[j]) <= work[j]
}

/// Sum of `alloc[t][j]` over the finished threads `t < upto`.
pub open spec fn col_sum_upto(alloc: Seq<Seq<usize>>, finish: Seq<bool>, j: int, upto: int) -> int
    decreases upto,
{
    if upto <= 0 {
        0
    } else {
        col_sum_upto(alloc, finish, j, upto - 1) + if finish[upto - 1] {
            alloc[upto - 1][j] as int
        } else {
            0
        }
    }
}

/// Sum of `alloc[t][j]` over all threads `t < upto`.
pub open spec fn col_total_upto(alloc: Seq<Seq<usize>>, j: int, upto: int) -> int
    decreases upto,
{
    if upto <= 0 {
        0
    } else {
        col_total_upto(alloc, j, upto - 1) + alloc[upto - 1][j]
    }
}

/// The matrix with entry `(t, j)` overwritten by `v`.
pub open spec fn mat_set(m: Seq<Seq<usize>>, t: int, j: int, v: usize) -> Seq<Seq<usize>> {
    m.update(t, m[t].update(j, v))
}

/// Sum of one whole allocation column.
pub open spec fn col_total(alloc: Seq<Seq<usize>>, j: int) -> int {
    col_total_upto(alloc, j, alloc.len() as int)
}

/// Units of resource `j` at hand once the finished threads have returned
/// their allocations.
pub open spec fn work_of(avail: Seq<usize>, alloc: Seq<Seq<usize>>, finish: Seq<bool>, j: int) -> int {
    avail[j] + col_sum_upto(alloc, finish, j, alloc.len() as int)
}

/// The whole working vector for a finish mask.
pub open spec fn work_seq(avail: Seq<usize>, alloc: Seq<Seq<usize>>, finish: Seq<bool>) -> Seq<int> {
    Seq::new(avail.len(), |j: int| work_of(avail, alloc, finish, j))
}

/// Thread `t` is unfinished and its whole need row is covered by the current
/// working vector.
pub open spec fn can_finish(
    need: Seq<Seq<usize>>,
    alloc: Seq<Seq<usize>>,
    avail: Seq<usize>,
    finish: Seq<bool>,
    t: int,
) -> bool {
    &&& 0 <= t < finish.len()
    &&& !finish[t]
    &&& row_fits(need[t], work_seq(avail, alloc, finish))
}

/// First thread at or after `i` that can finish; the thread count when none.
pub open spec fn first_can_finish_from(
    need: Seq<Seq<usize>>,
    alloc: Seq<Seq<usize>>,
    avail: Seq<usize>,
    finish: Seq<bool>,
    i: int,
) -> int
    decreases finish.len() - i,
{
    if i < 0 || i >= finish.len() {
        finish.len() as int
    } else if can_finish(need, alloc, avail, finish, i) {
        i
    } else {
        first_can_finish_from(need, alloc, avail, finish, i + 1)
    }
}

/// How many threads are still unfinished.
pub open spec fn count_false(s: Seq<bool>) -> nat
    decreases s.len(),
{
    if s.len() == 0 {
        0
    } else {
        count_false(s.drop_last()) + if s.last() {
            0nat
        } else {
            1nat
        }
    }
}

proof fn lemma_count_false_update(s: Seq<bool>, t: int)
    requires
        0 <= t < s.len(),
        !s[t],
    ensures
        count_false(s.update(t, true)) == count_false(s) - 1,
    decreases s.len(),
{
    if t == s.len() - 1 {
        assert(s.update(t, true).drop_last() =~= s.drop_last());
    } else {
        lemma_count_false_update(s.drop_last(), t);
        assert(s.update(t, true).drop_last() =~= s.drop_last().update(t, true));
    }
}

/// The finish mask at the detector's fixpoint: repeatedly finish the first
/// thread that can, until none can.
pub open spec fn bankers_finish(
    need: Seq<Seq<usize>>,
    alloc: Seq<Seq<usize>>,
    avail: Seq<usize>,
    finish: Seq<bool>,
) -> Seq<bool>
    decreases count_false(finish),
    via bankers_finish_decreases
{
    let t = first_can_finish_from(need, alloc, avail, finish, 0);
    if t < finish.len() {
        bankers_finish(need, alloc, avail, finish.update(t, true))
    } else {
        finish
    }
}

#[via_fn]
proof fn bankers_finish_decreases(
    need: Seq<Seq<usize>>,
    alloc: Seq<Seq<usize>>,
    avail: Seq<usize>,
    finish: Seq<bool>,
) {
    let t = first_can_finish_from(need, alloc, avail, finish, 0);
    if t < finish.len() {
        lemma_first_can_finish(need, alloc, avail, finish, 0);
        lemma_count_false_update(finish, t);
    }
}

/// `first_can_finish_from` names the least position at or after `i` that can
/// finish, or the thread count when there is none.
pub proof fn lemma_first_can_finish(
    need: Seq<Seq<usize>>,
    alloc: Seq<Seq<usize>>,
    avail: Seq<usize>,
    finish: Seq<bool>,
    i: int,
)
    requires
        0 <= i <= finish.len(),
    ensures
        i <= first_can_finish_from(need, alloc, avail, finish, i) <= finish.len(),
        forall|j: int|
            i <= j < first_can_finish_from(need, alloc, avail, finish, i) ==> !can_finish(
                need,
                alloc,
                avail,
                finish,
                j,
            ),
        first_can_finish_from(need, alloc, avail, finish, i) < finish.len() ==> can_finish(
            need,
            alloc,
            avail,
            finish,
            first_can_finish_from(need, alloc, avail, finish, i),
        ),
    decreases finish.len() - i,
{
    if i < finish.len() && !can_finish(need, alloc, avail, finish, i) {
        lemma_first_can_finish(need, alloc, avail, finish, i + 1);
    }
}

/// The state is safe: the fixpoint finishes every thread.
pub open spec fn bankers_safe(need: Seq<Seq<usize>>, alloc: Seq<Seq<usize>>, avail: Seq<usize>) -> bool {
    let fin = bankers_finish(need, alloc, avail, Seq::new(need.len(), |t: int| false));
    forall|t: int| 0 <= t < fin.len() ==> fin[t]
}

proof fn lemma_col_sum_update(alloc: Seq<Seq<usize>>, finish: Seq<bool>, j: int, upto: int, t: int)
    requires
        0 <= t < finish.len(),
        !finish[t],
        upto <= finish.len(),
    ensures
        col_sum_upto(alloc, finish.update(t, true), j, upto) == col_sum_upto(alloc, finish, j, upto)
            + if t < upto {
            alloc[t][j] as int
        } else {
            0
        },
    decreases upto,
{
    if upto > 0 {
        lemma_col_sum_update(alloc, finish, j, upto - 1, t);
    }
}

proof fn lemma_col_sum_le_total(alloc: Seq<Seq<usize>>, finish: Seq<bool>, j: int, upto: int)
    ensures
        0 <= col_sum_upto(alloc, finish, j, upto),
        col_sum_upto(alloc, finish, j, upto) <= col_total_upto(alloc, j, upto),
    decreases upto,
{
    if upto > 0 {
        lemma_col_sum_le_total(alloc, finish, j, upto - 1);
    }
}

/// Runs the safety simulation and reports whether the state is safe, i.e.
/// whether every thread can still run to completion.
pub fn detect_safe(avail: &Vec<usize>, need: &Vec<Vec<usize>>, alloc: &Vec<Vec<usize>>) -> (safe:
    bool)
    requires
        need@.len() == alloc@.len(),
        rect(need.deep_view(), avail@.len() as int),
        rect(alloc.deep_view(), avail@.len() as int),
        forall|j: int|
            0 <= j < avail@.len() ==> avail@[j] + col_total(alloc.deep_view(), j) <= usize::MAX,
    ensures
        safe == bankers_safe(need.deep_view(), alloc.deep_view(), avail@),
{
    let ghost needv = need.deep_view();
    let ghost allocv = alloc.deep_view();
    let ghost availv = avail@;
    let n = need.len();
    let m = avail.len();
    let ghost all_false = Seq::new(n as nat, |t: int| false);
    let mut finish: Vec<bool> = Vec::new();
    while finish.len() < n
        invariant
            finish@.len() <= n,
            forall|t: int| 0 <= t < finish@.len() ==> !(#[trigger] finish@[t]),
        decreases n - finish@.len(),
    {
        finish.push(false);
    }
    let mut work: Vec<usize> = Vec::new();
    while work.len() < m
        invariant
            m == avail@.len(),
            work@.len() <= m,
            forall|j: int| 0 <= j < work@.len() ==> work@[j] == avail@[j],
        decreases m - work@.len(),
    {
        let j = work.len();
        work.push(avail[j]);
    }
    proof {
        assert(finish@ =~= all_false);
        assert forall|j: int| 0 <= j < m implies work@[j] == work_of(availv, allocv, finish@, j) by {
            lemma_col_sum_all_false(allocv, finish@, j, allocv.len() as int);
        }
    }
    let mut progress = true;
    while progress
        invariant
            n == need@.len() == alloc@.len() == finish@.len(),
            m == avail@.len() == work@.len(),
            needv == need.deep_view(),
            allocv == alloc.deep_view(),
            availv == avail@,
            rect(needv, m as int),
            rect(allocv, m as int),
            forall|j: int| 0 <= j < m ==> availv[j] + col_total(allocv, j) <= usize::MAX,
            forall|j: int|
                0 <= j < m ==> (#[trigger] work@[j]) == work_of(availv, allocv, finish@, j),
            bankers_finish(needv, allocv, availv, finish@) == bankers_finish(
                needv,
                allocv,
                availv,
                all_false,
            ),
            !progress ==> first_can_finish_from(needv, allocv, availv, finish@, 0) == n,
        decreases count_false(finish@) + if progress {
            1int
        } else {
            0int
        },
    {
        let ghost finish0 = finish@;
        let mut t: usize = 0;
        let mut chosen: usize = n;
        while t < n
            invariant
                n == need@.len() == alloc@.len() == finish@.len(),
                m == avail@.len() == work@.len(),
                needv == need.deep_view(),
                allocv == alloc.deep_view(),
                availv == avail@,
                rect(needv, m as int),
                finish@ == finish0,
                forall|j: int|
                    0 <= j < m ==> (#[trigger] work@[j]) == work_of(availv, allocv, finish@, j),
                t <= n,
                chosen <= n,
                chosen == n ==> forall|u: int|
                    0 <= u < t ==> !can_finish(needv, allocv, availv, finish@, u),
                chosen < n ==> can_finish(needv, allocv, availv, finish@, chosen as int) && (
                forall|u: int| 0 <= u < chosen ==> !can_finish(needv, allocv, availv, finish@, u))
                    && chosen < t,
            decreases n - t + if chosen == n {
                1int
            } else {
                0int
            },
        {
            if chosen == n && !finish[t] {
                let row = &need[t];
                proof {
                    assert(row@ =~= needv[t as int]);
                }
                let mut j: usize = 0;
                let mut fits = true;
                while j < m
                    invariant
                        m == avail@.len() == work@.len(),
                        needv == need.deep_view(),
                        t < n,
                        n == need@.len(),
                        row@ == needv[t as int],
                        row@.len() == m,
                        j <= m,
                        forall|jj: int|
                            0 <= jj < m ==> (#[trigger] work@[jj]) == work_of(
                                availv,
                                allocv,
                                finish@,
                                jj,
                            ),
                        fits == (forall|jj: int|
                            0 <= jj < j ==> (#[trigger] needv[t as int][jj]) <= work_of(
                                availv,
                                allocv,
                                finish@,
                                jj,
                            )),
                    decreases m - j,
                {
                    if row[j] > work[j] {
                        fits = false;
                        proof {
                            assert(!(needv[t as int][j as int] <= work_of(
                                availv,
                                allocv,
                                finish@,
                                j as int,
                            )));
                        }
                        j = m;
                    } else {
                        j += 1;
                    }
                }
                if fits {
                    proof {
                        assert(row_fits(needv[t as int], work_seq(availv, allocv, finish@)));
                    }
                    chosen = t;
                }
            }
            t += 1;
        }
        proof {
            lemma_first_can_finish(needv, allocv, availv, finish@, 0);
            let f = first_can_finish_from(needv, allocv, availv, finish@, 0);
            if chosen < n {
                if f < chosen {
                    assert(!can_finish(needv, allocv, availv, finish@, f));
                }
                assert(f == chosen);
            } else {
                assert(f == n);
            }
        }
        if chosen < n {
            let ghost finish1 = finish@.update(chosen as int, true);
            let mut j: usize = 0;
            while j < m
                invariant
                    m == avail@.len() == work@.len(),
                    n == alloc@.len() == finish@.len(),
                    allocv == alloc.deep_view(),
                    availv == avail@,
                    rect(allocv, m as int),
                    forall|jj: int| 0 <= jj < m ==> availv[jj] + col_total(allocv, jj) <= usize::MAX,
                    chosen < n,
                    finish@ == finish0,
                    !finish0[chosen as int],
                    finish1 == finish0.update(chosen as int, true),
                    j <= m,
                    forall|jj: int|
                        j <= jj < m ==> (#[trigger] work@[jj]) == work_of(
                            availv,
                            allocv,
                            finish0,
                            jj,
                        ),
                    forall|jj: int|
                        0 <= jj < j ==> (#[trigger] work@[jj]) == work_of(
                            availv,
                            allocv,
                            finish1,
                            jj,
                        ),
                decreases m - j,
            {
                proof {
                    assert(alloc@[chosen as int]@ =~= allocv[chosen as int]);
                }
                let add = alloc[chosen][j];
                proof {
                    lemma_col_sum_update(allocv, finish0, j as int, allocv.len() as int, chosen as int);
                    lemma_col_sum_le_total(allocv, finish1, j as int, allocv.len() as int);
                    assert(work@[j as int] + add <= usize::MAX);
                }
                work[j] = work[j] + add;
                j += 1;
            }
            finish[chosen] = true;
            proof {
                assert(finish@ =~= finish1);
                assert(bankers_finish(needv, allocv, availv, finish0) == bankers_finish(
                    needv,
                    allocv,
                    availv,
                    finish@,
                ));
                lemma_count_false_update(finish0, chosen as int);
            }
        } else {
            progress = false;
        }
    }
    proof {
        assert(bankers_finish(needv, allocv, availv, finish@) =~= finish@);
    }
    let mut all = true;
    let mut t: usize = 0;
    while t < n
        invariant
            n == finish@.len(),
            t <= n,
            all == (forall|u: int| 0 <= u < t ==> (#[trigger] finish@[u])),
        decreases n - t,
    {
        if !finish[t] {
            all = false;
            proof {
                assert(!finish@[t as int]);
            }
            t = n;
        } else {
            t += 1;
        }
    }
    proof {
        assert(bankers_finish(needv, allocv, availv, all_false) == finish@);
        if all {
            assert(bankers_safe(needv, allocv, availv));
        } else {
            assert(!bankers_safe(needv, allocv, availv));
        }
    }
    all
}

/// Two matrices that agree on column `j` below `upto` have the same partial
/// column total.
pub proof fn lemma_col_total_prefix_eq(a: Seq<Seq<usize>>, b: Seq<Seq<usize>>, j: int, upto: int)
    requires
        forall|t: int| 0 <= t < upto ==> (#[trigger] a[t])[j] == b[t][j],
    ensures
        col_total_upto(a, j, upto) == col_total_upto(b, j, upto),
    decreases upto,
{
    if upto > 0 {
        lemma_col_total_prefix_eq(a, b, j, upto - 1);
    }
}

proof fn lemma_col_total_set_upto(alloc: Seq<Seq<usize>>, t: int, j: int, v: usize, jj: int, upto: int)
    requires
        0 <= t < alloc.len(),
        0 <= j < alloc[t].len(),
        0 <= jj < alloc[t].len(),
        upto <= alloc.len(),
    ensures
        col_total_upto(alloc.update(t, alloc[t].update(j, v)), jj, upto) == col_total_upto(
            alloc,
            jj,
            upto,
        ) + if t < upto && jj == j {
            v - alloc[t][j]
        } else {
            0
        },
    decreases upto,
{
    if upto > 0 {
        lemma_col_total_set_upto(alloc, t, j, v, jj, upto - 1);
    }
}

/// Effect of overwriting one matrix entry on any column total.
pub proof fn lemma_col_total_set(alloc: Seq<Seq<usize>>, t: int, j: int, v: usize, jj: int)
    requires
        0 <= t < alloc.len(),
        0 <= j < alloc[t].len(),
        0 <= jj < alloc[t].len(),
    ensures
        col_total(alloc.update(t, alloc[t].update(j, v)), jj) == col_total(alloc, jj) + if jj == j {
            v - alloc[t][j]
        } else {
            0
        },
{
    lemma_col_total_set_upto(alloc, t, j, v, jj, alloc.len() as int);
}

proof fn lemma_entry_le_col_total_upto(alloc: Seq<Seq<usize>>, t: int, j: int, upto: int)
    requires
        0 <= t < upto,
        upto <= alloc.len(),
    ensures
        alloc[t][j] <= col_total_upto(alloc, j, upto),
    decreases upto,
{
    lemma_col_total_nonneg_upto(alloc, j, upto - 1);
    if t < upto - 1 {
        lemma_entry_le_col_total_upto(alloc, t, j, upto - 1);
    }
}

/// Any single entry is at most its column total.
pub proof fn lemma_entry_le_col_total(alloc: Seq<Seq<usize>>, t: int, j: int)
    requires
        0 <= t < alloc.len(),
    ensures
        alloc[t][j] <= col_total(alloc, j),
{
    lemma_entry_le_col_total_upto(alloc, t, j, alloc.len() as int);
}

proof fn lemma_two_entries_upto(alloc: Seq<Seq<usize>>, t1: int, t2: int, j: int, upto: int)
    requires
        0 <= t1 < t2 < upto,
        upto <= alloc.len(),
    ensures
        alloc[t1][j] + alloc[t2][j] <= col_total_upto(alloc, j, upto),
    decreases upto,
{
    if t2 == upto - 1 {
        lemma_entry_le_col_total_upto(alloc, t1, j, upto - 1);
    } else {
        lemma_two_entries_upto(alloc, t1, t2, j, upto - 1);
    }
}

/// Two distinct entries of one column together stay within its total.
pub proof fn lemma_two_entries_le_col_total(alloc: Seq<Seq<usize>>, t1: int, t2: int, j: int)
    requires
        0 <= t1 < alloc.len(),
        0 <= t2 < alloc.len(),
        t1 != t2,
    ensures
        alloc[t1][j] + alloc[t2][j] <= col_total(alloc, j),
{
    if t1 < t2 {
        lemma_two_entries_upto(alloc, t1, t2, j, alloc.len() as int);
    } else {
        lemma_two_entries_upto(alloc, t2, t1, j, alloc.len() as int);
    }
}

proof fn lemma_col_total_nonneg_upto(alloc: Seq<Seq<usize>>, j: int, upto: int)
    ensures
        0 <= col_total_upto(alloc, j, upto),
    decreases upto,
{
    if upto > 0 {
        lemma_col_total_nonneg_upto(alloc, j, upto - 1);
    }
}

/// Column totals are never negative.
pub proof fn lemma_col_total_nonneg(alloc: Seq<Seq<usize>>, j: int)
    ensures
        0 <= col_total(alloc, j),
{
    lemma_col_total_nonneg_upto(alloc, j, alloc.len() as int);
}

proof fn lemma_col_total_zero_upto(alloc: Seq<Seq<usize>>, j: int, upto: int)
    requires
        forall|t: int| 0 <= t < alloc.len() ==> (#[trigger] alloc[t])[j] == 0,
        upto <= alloc.len(),
    ensures
        col_total_upto(alloc, j, upto) == 0,
    decreases upto,
{
    if upto > 0 {
        lemma_col_total_zero_upto(alloc, j, upto - 1);
    }
}

/// A column of zeroes sums to zero.
pub proof fn lemma_col_total_zero_col(alloc: Seq<Seq<usize>>, j: int)
    requires
        forall|t: int| 0 <= t < alloc.len() ==> (#[trigger] alloc[t])[j] == 0,
    ensures
        col_total(alloc, j) == 0,
{
    lemma_col_total_zero_upto(alloc, j, alloc.len() as int);
}

/// Appending a row adds that row's entry to every column total.
pub proof fn lemma_col_total_push_row(alloc: Seq<Seq<usize>>, row: Seq<usize>, j: int)
    ensures
        col_total(alloc.push(row), j) == col_total(alloc, j) + row[j],
{
    let a2 = alloc.push(row);
    assert(a2[alloc.len() as int] == row);
    lemma_col_total_prefix_eq(a2, alloc, j, alloc.len() as int);
}

proof fn lemma_col_sum_all_false(alloc: Seq<Seq<usize>>, finish: Seq<bool>, j: int, upto: int)
    requires
        forall|t: int| 0 <= t < finish.len() ==> !(#[trigger] finish[t]),
        upto <= finish.len(),
    ensures
        col_sum_upto(alloc, finish, j, upto) == 0,
    decreases upto,
{
    if upto > 0 {
        lemma_col_sum_all_false(alloc, finish, j, upto - 1);
    }
}

} // verus!
