use vstd::prelude::*;

use crate::stat::Stat;

verus! {

/// A table entry as contracts see it: a subcircuit name and its statistics.
pub type Entry = (Seq<u8>, Stat);

/// Some entry of `v` carries `name`.
pub open spec fn has_name(v: Seq<Entry>, name: Seq<u8>) -> bool {
    exists|i: int| 0 <= i < v.len() && #[trigger] v[i].0 == name
}

/// The position of the entry named `name` (meaningful when `has_name(v, name)`).
pub open spec fn index_of(v: Seq<Entry>, name: Seq<u8>) -> int {
    choose|i: int| 0 <= i < v.len() && #[trigger] v[i].0 == name
}

/// No two entries share a name.
pub open spec fn names_unique(v: Seq<Entry>) -> bool {
    forall|i: int, j: int|
        0 <= i < v.len() && 0 <= j < v.len() && i != j ==> #[trigger] v[i].0 != #[trigger] v[j].0
}

/// Names are unique and every statistic is non-negative.
pub open spec fn table_wf(v: Seq<Entry>) -> bool {
    &&& names_unique(v)
    &&& forall|i: int| 0 <= i < v.len() ==> #[trigger] v[i].1.transistors >= 0 && v[i].1.count >= 0
}

/// The statistics stored under `name`, if any.
pub open spec fn lookup(v: Seq<Entry>, name: Seq<u8>) -> Option<Stat> {
    if has_name(v, name) {
        Some(v[index_of(v, name)].1)
    } else {
        None
    }
}

/// Stores `stat` under `name`: an existing entry of that name is overwritten in
/// place, otherwise a new entry is appended.
pub open spec fn put(v: Seq<Entry>, name: Seq<u8>, stat: Stat) -> Seq<Entry> {
    if has_name(v, name) {
        v.update(index_of(v, name), (name, stat))
    } else {
        v.push((name, stat))
    }
}

/// Records one instantiation of `name`: the entry's count grows by one; a name
/// that is not in the table changes nothing.
pub open spec fn bump(v: Seq<Entry>, name: Seq<u8>) -> Seq<Entry> {
    if has_name(v, name) {
        let i = index_of(v, name);
        v.update(
            i,
            (name, Stat { transistors: v[i].1.transistors, count: (v[i].1.count + 1) as i64 }),
        )
    } else {
        v
    }
}

/// The table after recording, in order, every resolved instantiation name;
/// unresolved ones (`None`) are skipped.
pub open spec fn counted(v: Seq<Entry>, names: Seq<Option<Seq<u8>>>) -> Seq<Entry>
    decreases names.len(),
{
    if names.len() == 0 {
        v
    } else {
        let rest = counted(v, names.drop_last());
        match names.last() {
            Some(n) => bump(rest, n),
            None => rest,
        }
    }
}

/// The aggregate transistor count: the sum of transistors times count.
pub open spec fn total_of(v: Seq<Entry>) -> int
    decreases v.len(),
{
    if v.len() == 0 {
        0
    } else {
        total_of(v.drop_last()) + v.last().1.transistors * v.last().1.count
    }
}

/// The sum of all instantiation counts.
pub open spec fn sum_counts(v: Seq<Entry>) -> int
    decreases v.len(),
{
    if v.len() == 0 {
        0
    } else {
        sum_counts(v.drop_last()) + v.last().1.count
    }
}

/// The names of the table, in order.
pub open spec fn names_of(v: Seq<Entry>) -> Seq<Seq<u8>> {
    v.map_values(|e: Entry| e.0)
}

/// How many of `names` resolve to a name that `v` holds.
pub open spec fn known_matches(v: Seq<Entry>, names: Seq<Option<Seq<u8>>>) -> int
    decreases names.len(),
{
    if names.len() == 0 {
        0
    } else {
        known_matches(v, names.drop_last()) + match names.last() {
            Some(n) => if has_name(v, n) { 1int } else { 0int },
            None => 0int,
        }
    }
}

/// The names handed over by a caller, as byte sequences.
pub open spec fn name_views(names: Seq<Option<Vec<u8>>>) -> Seq<Option<Seq<u8>>> {
    names.map_values(|o: Option<Vec<u8>>| match o {
        Some(n) => Some(n@),
        None => None,
    })
}

/// `a` and `b` hold the same bytes.
pub fn bytes_eq(a: &[u8], b: &[u8]) -> (r: bool)
    ensures
        r == (a@ == b@),
{
    if a.len() != b.len() {
        return false;
    }
    let mut i: usize = 0;
    while i < a.len()
        invariant
            a@.len() == b@.len(),
            i <= a@.len(),
            forall|k: int| 0 <= k < i ==> a@[k] == b@[k],
        decreases a.len() - i,
    {
        if a[i] != b[i] {
            return false;
        }
        i = i + 1;
    }
    assert(a@ =~= b@);
    true
}

/// The table of subcircuits: each name with its transistor cost and its count
/// of instantiations.
pub struct CellTable {
    entries: Vec<(Vec<u8>, Stat)>,
}

impl View for CellTable {
    type V = Seq<Entry>;

    closed spec fn view(&self) -> Seq<Entry> {
        self.entries@.map_values(|e: (Vec<u8>, Stat)| (e.0@, e.1))
    }
}

impl CellTable {
    pub open spec fn wf(&self) -> bool {
        table_wf(self@)
    }

    /// An empty table.
    pub fn new() -> (r: CellTable)
        ensures
            r@ == Seq::<Entry>::empty(),
            r.wf(),
    {
        let r = CellTable { entries: Vec::new() };
        assert(r@ =~= Seq::<Entry>::empty());
        r
    }

    /// The number of entries.
    pub fn len(&self) -> (r: usize)
        ensures
            r == self@.len(),
    {
        self.entries.len()
    }

    /// The name of entry `i`.
    pub fn name_at(&self, i: usize) -> (r: &[u8])
        requires
            i < self@.len(),
        ensures
            r@ == self@[i as int].0,
    {
        self.entries[i].0.as_slice()
    }

    /// The statistics of entry `i`.
    pub fn stat_at(&self, i: usize) -> (r: Stat)
        requires
            i < self@.len(),
        ensures
            r == self@[i as int].1,
    {
        self.entries[i].1
    }

    fn find(&self, name: &[u8]) -> (r: Option<usize>)
        requires
            self.wf(),
        ensures
            match r {
                Some(i) => i < self@.len() && self@[i as int].0 == name@ && index_of(self@, name@)
                    == i && has_name(self@, name@),
                None => !has_name(self@, name@),
            },
    {
        let mut i: usize = 0;
        while i < self.entries.len()
            invariant
                self.wf(),
                i <= self@.len(),
                self@.len() == self.entries@.len(),
                forall|k: int| 0 <= k < i ==> self@[k].0 != name@,
            decreases self.entries.len() - i,
        {
            assert(self@[i as int].0 == self.entries@[i as int].0@);
            if bytes_eq(self.entries[i].0.as_slice(), name) {
                assert(self@[i as int].0 == name@);
                assert(has_name(self@, name@));
                let ghost j = index_of(self@, name@);
                assert(self@[j].0 == name@);
                assert(j == i);
                return Some(i);
            }
            i = i + 1;
        }
        None
    }

    /// The statistics stored under `name`.
    pub fn get(&self, name: &[u8]) -> (r: Option<Stat>)
        requires
            self.wf(),
        ensures
            r == lookup(self@, name@),
    {
        match self.find(name) {
            Some(i) => Some(self.entries[i].1),
            None => None,
        }
    }

    /// Stores `stat` under `name`, overwriting an entry of the same name.
    pub fn insert(&mut self, name: Vec<u8>, stat: Stat)
        requires
            old(self).wf(),
            stat.transistors >= 0,
            stat.count >= 0,
        ensures
            final(self)@ == put(old(self)@, name@, stat),
            final(self).wf(),
    {
        let ghost v = self@;
        match self.find(name.as_slice()) {
            Some(i) => {
                self.entries.set(i, (name, stat));
                assert(self@ =~= v.update(i as int, (name@, stat)));
            },
            None => {
                self.entries.push((name, stat));
                assert(self@ =~= v.push((name@, stat)));
            },
        }
    }

    /// Records one instantiation of `name`; an unknown name changes nothing.
    pub fn record_instance(&mut self, name: &[u8])
        requires
            old(self).wf(),
            forall|i: int| 0 <= i < old(self)@.len() ==> #[trigger] old(self)@[i].1.count < i64::MAX,
        ensures
            final(self)@ == bump(old(self)@, name@),
            final(self).wf(),
    {
        let ghost v = self@;
        match self.find(name) {
            Some(i) => {
                let s = self.entries[i].1;
                assert(s == v[i as int].1);
                let n = self.entries[i].0.clone();
                assert(n@ == v[i as int].0);
                self.entries.set(i, (n, Stat { transistors: s.transistors, count: s.count + 1 }));
                assert(self@ =~= bump(v, name@));
            },
            None => {},
        }
    }
}

} // verus!
