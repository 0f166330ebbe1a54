use vstd::prelude::*;

use crate::table::{bump, counted, has_name, index_of, known_matches, name_views, names_of, sum_counts, CellTable, Entry};

verus! {

impl CellTable {
    /// Counts the instantiations found in a structural netlist. Each element of
    /// `names` is the target name of one module instantiation, or `None` where
    /// that name could not be resolved; names absent from the table are skipped.
    pub fn count_instances(&mut self, names: &[Option<Vec<u8>>])
        requires
            old(self).wf(),
            forall|i: int|
                0 <= i < old(self)@.len() ==> #[trigger] old(self)@[i].1.count + names@.len()
                    <= i64::MAX,
        ensures
            final(self)@ == counted(old(self)@, name_views(names@)),
            final(self).wf(),
    {
        let ghost v0 = self@;
        let ghost ns = name_views(names@);
        let mut i: usize = 0;
        assert(ns.take(0) =~= Seq::<Option<Seq<u8>>>::empty());
        while i < names.len()
            invariant
                self.wf(),
                i <= names@.len(),
                ns == name_views(names@),
                self@ == counted(v0, ns.take(i as int)),
                self@.len() == v0.len(),
                forall|k: int|
                    0 <= k < v0.len() ==> #[trigger] self@[k].1.count <= v0[k].1.count + i,
                forall|k: int| 0 <= k < v0.len() ==> v0[k].1.count + names@.len() <= i64::MAX,
            decreases names.len() - i,
        {
            let ghost before = self@;
            assert(ns.take(i + 1).drop_last() =~= ns.take(i as int));
            match &names[i] {
                Some(n) => {
                    self.record_instance(n.as_slice());
                    assert(self@ == bump(before, n@));
                },
                None => {},
            }
            proof {
                if ns[i as int] is Some {
                    lemma_bump_counts(before, ns[i as int]->0);
                }
            }
            i = i + 1;
        }
        assert(ns.take(names@.len() as int) =~= ns);
    }
}

proof fn lemma_bump_counts(v: Seq<Entry>, name: Seq<u8>)
    requires
        forall|i: int| 0 <= i < v.len() ==> #[trigger] v[i].1.count < i64::MAX,
    ensures
        bump(v, name).len() == v.len(),
        forall|k: int|
            0 <= k < v.len() ==> v[k].1.count <= #[trigger] bump(v, name)[k].1.count <= v[k].1.count
                + 1,
{
    if has_name(v, name) {
        let j = index_of(v, name);
        assert(v[j].0 == name);
        assert(v[j].1.count < i64::MAX);
    }
}

/// A single instantiation of a known name adds one to the sum of counts; an
/// unknown name changes nothing.
proof fn lemma_bump_sum(v: Seq<Entry>, name: Seq<u8>)
    requires
        forall|i: int| 0 <= i < v.len() ==> #[trigger] v[i].1.count < i64::MAX,
    ensures
        sum_counts(bump(v, name)) == sum_counts(v) + if has_name(v, name) { 1int } else { 0int },
        names_of(bump(v, name)) == names_of(v),
{
    if has_name(v, name) {
        let j = index_of(v, name);
        assert(v[j].0 == name);
        lemma_sum_update(v, j, (name, crate::stat::Stat { transistors: v[j].1.transistors, count: (v[j].1.count + 1) as i64 }));
        assert(names_of(bump(v, name)) =~= names_of(v));
    }
}

proof fn lemma_sum_update(v: Seq<Entry>, j: int, e: Entry)
    requires
        0 <= j < v.len(),
    ensures
        sum_counts(v.update(j, e)) == sum_counts(v) - v[j].1.count + e.1.count,
    decreases v.len(),
{
    let w = v.update(j, e);
    if j == v.len() - 1 {
        assert(w.drop_last() =~= v.drop_last());
    } else {
        assert(w.drop_last() =~= v.drop_last().update(j, e));
        lemma_sum_update(v.drop_last(), j, e);
    }
}

/// Counting conserves the instantiations: the counts of the table grow, in
/// sum, by exactly the number of names that resolve to a name of the table,
/// and the set and order of names in the table stay as they were.
pub proof fn lemma_counting_conserves(v: Seq<Entry>, names: Seq<Option<Seq<u8>>>)
    requires
        forall|i: int| 0 <= i < v.len() ==> #[trigger] v[i].1.count + names.len() <= i64::MAX,
    ensures
        sum_counts(counted(v, names)) == sum_counts(v) + known_matches(v, names),
        names_of(counted(v, names)) == names_of(v),
        counted(v, names).len() == v.len(),
        forall|i: int|
            0 <= i < v.len() ==> #[trigger] counted(v, names)[i].1.count <= v[i].1.count
                + names.len(),
    decreases names.len(),
{
    if names.len() > 0 {
        let rest = names.drop_last();
        lemma_counting_conserves(v, rest);
        let r = counted(v, rest);
        assert(forall|i: int| 0 <= i < r.len() ==> names_of(r)[i] == #[trigger] r[i].0);
        assert(forall|i: int| 0 <= i < v.len() ==> names_of(v)[i] == #[trigger] v[i].0);
        match names.last() {
            Some(n) => {
                lemma_bump_counts(r, n);
                lemma_bump_sum(r, n);
                assert(has_name(r, n) == has_name(v, n)) by {
                    if has_name(r, n) {
                        let j = index_of(r, n);
                        assert(r[j].0 == names_of(v)[j]);
                    }
                    if has_name(v, n) {
                        let j = index_of(v, n);
                        assert(v[j].0 == names_of(r)[j]);
                    }
                }
                let b = bump(r, n);
                assert(forall|i: int| 0 <= i < b.len() ==> names_of(b)[i] == #[trigger] b[i].0);
                if has_name(r, n) {
                    let j = index_of(r, n);
                    assert(r[j].0 == n);
                }
            },
            None => {},
        }
    }
}

/// Instantiations of names that the table does not hold change nothing.
pub proof fn lemma_unknown_names_change_nothing(v: Seq<Entry>, names: Seq<Option<Seq<u8>>>)
    requires
        forall|i: int| 0 <= i < names.len() && #[trigger] names[i] is Some ==> !has_name(v, names[i]->0),
    ensures
        counted(v, names) == v,
    decreases names.len(),
{
    if names.len() > 0 {
        let rest = names.drop_last();
        assert(forall|i: int| 0 <= i < rest.len() ==> rest[i] == #[trigger] names[i]);
        lemma_unknown_names_change_nothing(v, rest);
        assert(names[names.len() - 1] == names.last());
    }
}

} // verus!
