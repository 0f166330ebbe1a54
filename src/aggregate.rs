use vstd::prelude::*;

use crate::table::{table_wf, total_of, CellTable, Entry};

verus! {

/// A table's transistor terms are non-negative, so a prefix never adds up to
/// more than the whole.
proof fn lemma_total_prefix(v: Seq<Entry>, i: int)
    requires
        table_wf(v),
        0 <= i <= v.len(),
    ensures
        0 <= total_of(v.take(i)) <= total_of(v),
    decreases v.len(),
{
    if i == v.len() {
        assert(v.take(i) =~= v);
        lemma_total_nonneg(v);
    } else {
        let w = v.drop_last();
        assert(table_wf(w));
        lemma_total_prefix(w, i);
        assert(w.take(i) =~= v.take(i));
        let t = v.last().1.transistors as int;
        let c = v.last().1.count as int;
        assert(t * c >= 0) by (nonlinear_arith)
            requires
                t >= 0,
                c >= 0,
        ;
    }
}

proof fn lemma_total_nonneg(v: Seq<Entry>)
    requires
        table_wf(v),
    ensures
        total_of(v) >= 0,
    decreases v.len(),
{
    if v.len() > 0 {
        let w = v.drop_last();
        assert(table_wf(w));
        lemma_total_nonneg(w);
        let t = v.last().1.transistors as int;
        let c = v.last().1.count as int;
        assert(t * c >= 0) by (nonlinear_arith)
            requires
                t >= 0,
                c >= 0,
        ;
    }
}

/// A table in which no subcircuit is instantiated, the empty table among them,
/// totals zero.
pub proof fn lemma_total_zero(v: Seq<Entry>)
    requires
        forall|i: int| 0 <= i < v.len() ==> #[trigger] v[i].1.count == 0,
    ensures
        total_of(v) == 0,
    decreases v.len(),
{
    if v.len() > 0 {
        let w = v.drop_last();
        assert(forall|i: int| 0 <= i < w.len() ==> #[trigger] w[i].1.count == v[i].1.count);
        lemma_total_zero(w);
    }
}

impl CellTable {
    /// The aggregate transistor count: over all entries, transistors per
    /// instance times instantiations. `None` when it does not fit in an `i64`.
    pub fn total(&self) -> (r: Option<i64>)
        requires
            self.wf(),
        ensures
            r == (if total_of(self@) <= i64::MAX {
                Some(total_of(self@) as i64)
            } else {
                None::<i64>
            }),
    {
        let n = self.len();
        let mut acc: i64 = 0;
        let mut i: usize = 0;
        assert(self@.take(0) =~= Seq::<Entry>::empty());
        while i < n
            invariant
                self.wf(),
                n == self@.len(),
                i <= n,
                acc == total_of(self@.take(i as int)),
            decreases n - i,
        {
            let s = self.stat_at(i);
            assert(self@.take(i + 1).drop_last() =~= self@.take(i as int));
            assert(self@.take(i + 1).last() == self@[i as int]);
            proof {
                lemma_total_prefix(self@, i as int);
                lemma_total_prefix(self@, i + 1);
            }
            match s.transistors.checked_mul(s.count) {
                Some(term) => match acc.checked_add(term) {
                    Some(sum) => {
                        acc = sum;
                    },
                    None => {
                        return None;
                    },
                },
                None => {
                    return None;
                },
            }
            i = i + 1;
        }
        assert(self@.take(n as int) =~= self@);
        proof {
            lemma_total_nonneg(self@);
        }
        Some(acc)
    }
}

} // verus!
