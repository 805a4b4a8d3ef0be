//! The termination measure of the search driver's expansion loop.
//!
//! Every iteration of the loop pops one frontier entry, and every entry it
//! pushes either records a node for the first time or strictly lowers the
//! recorded `f` of an already recorded node. Weighing an unrecorded node
//! identifier more than any single `f` value therefore gives a quantity that
//! strictly decreases with each iteration: the pop pays for the iteration,
//! and each push is paid for by the record change that admitted it.

use crate::store::NodeInfo;
use vstd::prelude::*;

verus! {

/// The number of distinct node identifiers.
pub(crate) open spec fn id_count() -> int {
    usize::MAX as int + 1
}

/// One more than the largest possible `f` value.
pub(crate) open spec fn f_bound() -> int {
    u64::MAX as int + 1
}

/// The sum of the recorded `f` priorities over all records.
pub(crate) open spec fn sum_f(m: Map<usize, NodeInfo>) -> int
    decreases m.dom().len(),
{
    if m.dom().finite() && m.dom().len() > 0 {
        let k = m.dom().choose();
        if m.dom().contains(k) {
            m[k].f + sum_f(m.remove(k))
        } else {
            0
        }
    } else {
        0
    }
}

/// Summing a nonempty map can start at any recorded node.
pub(crate) proof fn lemma_sum_f_remove(m: Map<usize, NodeInfo>, k: usize)
    requires
        m.dom().finite(),
        m.dom().contains(k),
    ensures
        sum_f(m) == m[k].f + sum_f(m.remove(k)),
    decreases m.dom().len(),
{
    if m.dom().len() == 0 {
        m.dom().lemma_len0_is_empty();
        assert(false);
    }
    let k0 = m.dom().choose();
    assert(m.dom().contains(k0));
    if k0 == k {
    } else {
        let m1 = m.remove(k0);
        let mk = m.remove(k);
        lemma_sum_f_remove(m1, k);
        lemma_sum_f_remove(mk, k0);
        assert(m1.remove(k) =~= mk.remove(k0));
    }
}

/// The sum of recorded priorities is never negative.
pub(crate) proof fn lemma_sum_f_nonneg(m: Map<usize, NodeInfo>)
    requires
        m.dom().finite(),
    ensures
        sum_f(m) >= 0,
    decreases m.dom().len(),
{
    if m.dom().len() > 0 {
        let k = m.dom().choose();
        if m.dom().contains(k) {
            lemma_sum_f_nonneg(m.remove(k));
        }
    }
}

/// Recording a node for the first time adds its `f` to the sum.
pub(crate) proof fn lemma_sum_f_insert_fresh(m: Map<usize, NodeInfo>, k: usize, v: NodeInfo)
    requires
        m.dom().finite(),
        !m.dom().contains(k),
    ensures
        sum_f(m.insert(k, v)) == sum_f(m) + v.f,
{
    let m2 = m.insert(k, v);
    lemma_sum_f_remove(m2, k);
    assert(m2.remove(k) =~= m);
}

/// Replacing a record changes the sum by the difference of the `f` values.
pub(crate) proof fn lemma_sum_f_insert_update(m: Map<usize, NodeInfo>, k: usize, v: NodeInfo)
    requires
        m.dom().finite(),
        m.dom().contains(k),
    ensures
        sum_f(m.insert(k, v)) == sum_f(m) - m[k].f + v.f,
{
    let m2 = m.insert(k, v);
    lemma_sum_f_remove(m2, k);
    lemma_sum_f_remove(m, k);
    assert(m2.remove(k) =~= m.remove(k));
}

/// A finite set of `usize` values has at most `id_count()` elements.
pub(crate) proof fn lemma_usize_set_len_bound(s: Set<usize>)
    requires
        s.finite(),
    ensures
        s.len() <= id_count(),
{
    let r = Set::<usize>::range_inclusive(0, usize::MAX);
    <usize as vstd::set_lib::FiniteRange>::range_properties(0, usize::MAX);
    assert(!Set::<usize>::range(0, usize::MAX).contains(usize::MAX));
    assert(r.len() == id_count());
    assert(s.subset_of(r));
    vstd::set_lib::lemma_len_subset(s, r);
}

/// The measure itself: unrecorded identifiers weighted above any `f`, plus
/// the sum of recorded priorities, plus the number of frontier entries.
pub(crate) open spec fn loop_measure(infos: Map<usize, NodeInfo>, open_len: nat) -> int {
    f_bound() * (id_count() - infos.dom().len()) + sum_f(infos) + open_len
}

/// The measure is never negative.
pub(crate) proof fn lemma_measure_nonneg(infos: Map<usize, NodeInfo>, open_len: nat)
    requires
        infos.dom().finite(),
    ensures
        loop_measure(infos, open_len) >= 0,
{
    lemma_usize_set_len_bound(infos.dom());
    lemma_sum_f_nonneg(infos);
    assert(f_bound() * (id_count() - infos.dom().len()) >= 0) by (nonlinear_arith)
        requires
            infos.dom().len() <= id_count(),
    ;
}

/// Pushing one frontier entry while recording its node for the first time
/// does not increase the measure.
pub(crate) proof fn lemma_measure_fresh(
    infos: Map<usize, NodeInfo>,
    open_len: nat,
    k: usize,
    v: NodeInfo,
)
    requires
        infos.dom().finite(),
        !infos.dom().contains(k),
    ensures
        loop_measure(infos.insert(k, v), (open_len + 1) as nat) <= loop_measure(infos, open_len),
{
    lemma_sum_f_insert_fresh(infos, k, v);
    assert(infos.insert(k, v).dom().len() == infos.dom().len() + 1);
    assert(f_bound() * (id_count() - (infos.dom().len() + 1)) == f_bound() * (id_count()
        - infos.dom().len()) - f_bound()) by (nonlinear_arith);
}

/// Pushing one frontier entry while strictly lowering a node's recorded `f`
/// does not increase the measure.
pub(crate) proof fn lemma_measure_update(
    infos: Map<usize, NodeInfo>,
    open_len: nat,
    k: usize,
    v: NodeInfo,
)
    requires
        infos.dom().finite(),
        infos.dom().contains(k),
        v.f < infos[k].f,
    ensures
        loop_measure(infos.insert(k, v), (open_len + 1) as nat) <= loop_measure(infos, open_len),
{
    lemma_sum_f_insert_update(infos, k, v);
    assert(infos.insert(k, v).dom() =~= infos.dom());
}

} // verus!
