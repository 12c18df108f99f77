//! Buckets: per day and category, how often each log text occurs and how
//! much each unit's quantities add up to.
use vstd::prelude::*;
use crate::entry::{entry_views, Entry, EntryView};
use crate::value::{EntryValue, ValueView};

verus! {

/// A log text and how many times it occurs.
#[derive(Debug)]
pub struct LogCount {
    pub text: String,
    pub count: usize,
}

/// A unit and the sum, in millionths, of the magnitudes given in it.
#[derive(Debug)]
pub struct UnitTotal {
    pub unit: String,
    pub total: i128,
}

#[derive(Debug)]
pub struct Bucket {
    pub logs: Vec<LogCount>,
    pub quantities: Vec<UnitTotal>,
}

pub ghost struct BucketView {
    pub logs: Map<Seq<char>, int>,
    pub quantities: Map<Seq<char>, int>,
}

/// The map that a list of keyed values stands for.
pub open spec fn pairs_map(s: Seq<(Seq<char>, int)>) -> Map<Seq<char>, int>
    decreases s.len(),
{
    if s.len() == 0 {
        Map::empty()
    } else {
        pairs_map(s.drop_last()).insert(s.last().0, s.last().1)
    }
}

pub open spec fn keys_unique(s: Seq<(Seq<char>, int)>) -> bool {
    forall|i: int, j: int| 0 <= i < j < s.len() ==> #[trigger] s[i].0 != #[trigger] s[j].0
}

pub open spec fn log_pairs(s: Seq<LogCount>) -> Seq<(Seq<char>, int)> {
    s.map_values(|l: LogCount| (l.text@, l.count as int))
}

pub open spec fn unit_pairs(s: Seq<UnitTotal>) -> Seq<(Seq<char>, int)> {
    s.map_values(|u: UnitTotal| (u.unit@, u.total as int))
}

impl View for Bucket {
    type V = BucketView;

    open spec fn view(&self) -> BucketView {
        BucketView { logs: pairs_map(log_pairs(self.logs@)), quantities: pairs_map(unit_pairs(self.quantities@)) }
    }
}

impl Bucket {
    /// Each log text and each unit stands in the bucket once.
    pub open spec fn wf(&self) -> bool {
        keys_unique(log_pairs(self.logs@)) && keys_unique(unit_pairs(self.quantities@))
    }
}

/// One value added to a bucket: a log counts once more, a quantity adds its
/// magnitude to its unit's sum.
pub open spec fn add_value(b: BucketView, v: ValueView) -> BucketView {
    match v {
        ValueView::Log(t) => BucketView {
            logs: b.logs.insert(t, if b.logs.contains_key(t) { b.logs[t] + 1 } else { 1 }),
            quantities: b.quantities,
        },
        ValueView::Quantity(m, u) => BucketView {
            logs: b.logs,
            quantities: b.quantities.insert(u, if b.quantities.contains_key(u) { b.quantities[u] + m } else { m }),
        },
    }
}

/// The bucket of a sequence of values.
pub open spec fn tally(vals: Seq<ValueView>) -> BucketView
    decreases vals.len(),
{
    if vals.len() == 0 {
        BucketView { logs: Map::empty(), quantities: Map::empty() }
    } else {
        add_value(tally(vals.drop_last()), vals.last())
    }
}

pub open spec fn value_fits(v: ValueView) -> bool {
    v matches ValueView::Quantity(m, _) ==> i64::MIN <= m <= i64::MAX
}

/// The largest magnitude of a value, in millionths.
pub open spec fn max_magnitude() -> int {
    0x8000_0000_0000_0000
}

pub open spec fn tally_bounded(b: BucketView, n: int) -> bool {
    &&& forall|t: Seq<char>| #[trigger] b.logs.contains_key(t) ==> 1 <= b.logs[t] <= n
    &&& forall|u: Seq<char>| #[trigger] b.quantities.contains_key(u) ==> -n * max_magnitude()
        <= b.quantities[u] <= n * max_magnitude()
}

pub proof fn lemma_tally_bounded(vals: Seq<ValueView>)
    requires
        forall|i: int| 0 <= i < vals.len() ==> value_fits(#[trigger] vals[i]),
    ensures
        tally_bounded(tally(vals), vals.len() as int),
    decreases vals.len(),
{
    if vals.len() > 0 {
        let n = vals.len() as int;
        assert forall|i: int| 0 <= i < vals.len() - 1 implies value_fits(#[trigger] vals.drop_last()[i]) by {
            assert(vals.drop_last()[i] == vals[i]);
        }
        lemma_tally_bounded(vals.drop_last());
        assert(value_fits(vals[n - 1]));
        let b = tally(vals.drop_last());
        assert forall|u: Seq<char>| #[trigger] b.quantities.contains_key(u) implies -n * max_magnitude()
            <= b.quantities[u] <= n * max_magnitude() by {
            assert((n - 1) * max_magnitude() <= n * max_magnitude()) by (nonlinear_arith)
                requires n >= 1;
            assert(-n * max_magnitude() <= -(n - 1) * max_magnitude()) by (nonlinear_arith)
                requires n >= 1;
        }
        let r = tally(vals);
        match vals.last() {
            ValueView::Quantity(m, u) => {
                assert(-n * max_magnitude() == -(n - 1) * max_magnitude() - max_magnitude()) by (nonlinear_arith);
                assert(n * max_magnitude() == (n - 1) * max_magnitude() + max_magnitude()) by (nonlinear_arith);
                assert(1 * max_magnitude() <= n * max_magnitude()) by (nonlinear_arith)
                    requires n >= 1;
            },
            ValueView::Log(t) => {},
        }
    }
}

pub proof fn lemma_pairs_lookup(s: Seq<(Seq<char>, int)>)
    requires
        keys_unique(s),
    ensures
        forall|i: int| 0 <= i < s.len() ==> pairs_map(s).contains_key(#[trigger] s[i].0) && pairs_map(s)[s[i].0]
            == s[i].1,
        forall|k: Seq<char>| #[trigger] pairs_map(s).contains_key(k) ==> exists|i: int| 0 <= i < s.len() && s[i].0 == k,
    decreases s.len(),
{
    if s.len() > 0 {
        let t = s.drop_last();
        assert(keys_unique(t)) by {
            assert forall|i: int, j: int| 0 <= i < j < t.len() implies #[trigger] t[i].0 != #[trigger] t[j].0 by {
                assert(t[i] == s[i] && t[j] == s[j]);
            }
        }
        lemma_pairs_lookup(t);
        assert forall|i: int| 0 <= i < s.len() implies pairs_map(s).contains_key(#[trigger] s[i].0)
            && pairs_map(s)[s[i].0] == s[i].1 by {
            if i < s.len() - 1 {
                assert(t[i] == s[i]);
                assert(s[i].0 != s[s.len() - 1].0);
            }
        }
        assert forall|k: Seq<char>| #[trigger] pairs_map(s).contains_key(k) implies exists|i: int|
            0 <= i < s.len() && s[i].0 == k by {
            if k != s.last().0 {
                assert(pairs_map(t).contains_key(k));
                let i = choose|i: int| 0 <= i < t.len() && t[i].0 == k;
                assert(s[i] == t[i]);
            } else {
                assert(s[s.len() - 1].0 == k);
            }
        }
    }
}

pub proof fn lemma_pairs_update(s: Seq<(Seq<char>, int)>, k: int, v: int)
    requires
        keys_unique(s),
        0 <= k < s.len(),
    ensures
        pairs_map(s.update(k, (s[k].0, v))) == pairs_map(s).insert(s[k].0, v),
        keys_unique(s.update(k, (s[k].0, v))),
    decreases s.len(),
{
    let s2 = s.update(k, (s[k].0, v));
    assert(keys_unique(s2)) by {
        assert forall|i: int, j: int| 0 <= i < j < s2.len() implies #[trigger] s2[i].0 != #[trigger] s2[j].0 by {
            assert(s2[i].0 == s[i].0 && s2[j].0 == s[j].0);
        }
    }
    let t = s.drop_last();
    if k == s.len() - 1 {
        assert(s2.drop_last() =~= t);
        assert(pairs_map(s2) =~= pairs_map(s).insert(s[k].0, v));
    } else {
        assert(keys_unique(t)) by {
            assert forall|i: int, j: int| 0 <= i < j < t.len() implies #[trigger] t[i].0 != #[trigger] t[j].0 by {
                assert(t[i] == s[i] && t[j] == s[j]);
            }
        }
        lemma_pairs_update(t, k, v);
        assert(s2.drop_last() =~= t.update(k, (t[k].0, v)));
        assert(s[k].0 != s.last().0);
        assert(pairs_map(s2) =~= pairs_map(s).insert(s[k].0, v));
    }
}

pub proof fn lemma_pairs_push(s: Seq<(Seq<char>, int)>, key: Seq<char>, v: int)
    requires
        keys_unique(s),
        !pairs_map(s).contains_key(key),
    ensures
        pairs_map(s.push((key, v))) == pairs_map(s).insert(key, v),
        keys_unique(s.push((key, v))),
{
    lemma_pairs_lookup(s);
    let s2 = s.push((key, v));
    assert(s2.drop_last() =~= s);
    assert forall|i: int, j: int| 0 <= i < j < s2.len() implies #[trigger] s2[i].0 != #[trigger] s2[j].0 by {
        if j == s.len() {
            assert(s2[i] == s[i]);
            assert(pairs_map(s).contains_key(s[i].0));
        } else {
            assert(s2[i] == s[i] && s2[j] == s[j]);
        }
    }
}

impl Bucket {
    /// A bucket with nothing in it.
    pub fn new() -> (r: Bucket)
        ensures
            r.wf(),
            r@ == tally(Seq::empty()),
    {
        let r = Bucket { logs: Vec::new(), quantities: Vec::new() };
        assert(log_pairs(r.logs@) =~= Seq::empty());
        assert(unit_pairs(r.quantities@) =~= Seq::empty());
        assert(r@.logs =~= Map::empty());
        assert(r@.quantities =~= Map::empty());
        r
    }

    /// Adds one value to the bucket.
    pub fn add(&mut self, v: &EntryValue, Ghost(n): Ghost<int>)
        requires
            old(self).wf(),
            tally_bounded(old(self)@, n),
            0 <= n < usize::MAX,
        ensures
            final(self).wf(),
            final(self)@ == add_value(old(self)@, v@),
    {
        match v {
            EntryValue::Log(t) => {
                let ghost s = log_pairs(self.logs@);
                proof {
                    lemma_pairs_lookup(s);
                }
                let mut k: usize = 0;
                while k < self.logs.len() && self.logs[k].text != *t
                    invariant
                        k <= self.logs@.len(),
                        s == log_pairs(self.logs@),
                        forall|i: int| 0 <= i < k ==> self.logs@[i].text@ != t@,
                    decreases self.logs@.len() - k,
                {
                    k = k + 1;
                }
                if k < self.logs.len() {
                    let old_entry = self.logs.remove(k);
                    assert(s[k as int].0 == t@);
                    let c = old_entry.count;
                    proof {
                        assert(pairs_map(s)[t@] == c);
                        assert(old(self)@.logs == pairs_map(s));
                        assert(old(self)@.logs.contains_key(t@));
                        assert(c <= n);
                    }
                    self.logs.insert(k, LogCount { text: old_entry.text, count: c + 1 });
                    proof {
                        assert(log_pairs(self.logs@) =~= s.update(k as int, (s[k as int].0, c + 1)));
                        lemma_pairs_update(s, k as int, c + 1);
                    }
                } else {
                    proof {
                        assert(!pairs_map(s).contains_key(t@)) by {
                            if pairs_map(s).contains_key(t@) {
                                let i = choose|i: int| 0 <= i < s.len() && s[i].0 == t@;
                                assert(self.logs@[i].text@ == t@);
                            }
                        }
                        lemma_pairs_push(s, t@, 1);
                    }
                    self.logs.push(LogCount { text: t.clone(), count: 1 });
                    assert(log_pairs(self.logs@) =~= s.push((t@, 1)));
                }
            },
            EntryValue::Quantity(q) => {
                let ghost s = unit_pairs(self.quantities@);
                proof {
                    lemma_pairs_lookup(s);
                }
                let mut k: usize = 0;
                while k < self.quantities.len() && self.quantities[k].unit != q.unit
                    invariant
                        k <= self.quantities@.len(),
                        s == unit_pairs(self.quantities@),
                        forall|i: int| 0 <= i < k ==> self.quantities@[i].unit@ != q.unit@,
                    decreases self.quantities@.len() - k,
                {
                    k = k + 1;
                }
                if k < self.quantities.len() {
                    let old_entry = self.quantities.remove(k);
                    assert(s[k as int].0 == q.unit@);
                    let c = old_entry.total;
                    proof {
                        assert(pairs_map(s)[q.unit@] == c);
                        assert(old(self)@.quantities == pairs_map(s));
                        assert(old(self)@.quantities.contains_key(q.unit@));
                        assert(-n * max_magnitude() <= c <= n * max_magnitude());
                        assert(n * max_magnitude() + max_magnitude() <= i128::MAX) by (nonlinear_arith)
                            requires 0 <= n < usize::MAX;
                    }
                    let total = c + q.magnitude as i128;
                    self.quantities.insert(k, UnitTotal { unit: old_entry.unit, total });
                    proof {
                        assert(unit_pairs(self.quantities@) =~= s.update(k as int, (s[k as int].0, total as int)));
                        lemma_pairs_update(s, k as int, total as int);
                    }
                } else {
                    proof {
                        assert(!pairs_map(s).contains_key(q.unit@)) by {
                            if pairs_map(s).contains_key(q.unit@) {
                                let i = choose|i: int| 0 <= i < s.len() && s[i].0 == q.unit@;
                                assert(self.quantities@[i].unit@ == q.unit@);
                            }
                        }
                        lemma_pairs_push(s, q.unit@, q.magnitude as int);
                    }
                    self.quantities.push(UnitTotal { unit: q.unit.clone(), total: q.magnitude as i128 });
                    assert(unit_pairs(self.quantities@) =~= s.push((q.unit@, q.magnitude as int)));
                }
            },
        }
    }
}

/// The values of a sequence of entries.
pub open spec fn values_of(es: Seq<EntryView>) -> Seq<ValueView> {
    es.map_values(|e: EntryView| e.value)
}

/// The bucket of a list of entries: how often each log text occurs, and the
/// sum of the magnitudes given in each unit.
pub fn aggregate(entries: &Vec<Entry>) -> (r: Bucket)
    ensures
        r.wf(),
        r@ == tally(values_of(entry_views(entries@))),
{
    let ghost vals = values_of(entry_views(entries@));
    let mut b = Bucket::new();
    let mut i: usize = 0;
    while i < entries.len()
        invariant
            i <= entries@.len(),
            vals == values_of(entry_views(entries@)),
            b.wf(),
            b@ == tally(vals.take(i as int)),
        decreases entries@.len() - i,
    {
        proof {
            let pre = vals.take(i as int);
            assert forall|k: int| 0 <= k < pre.len() implies value_fits(#[trigger] pre[k]) by {
                assert(pre[k] == entries@[k].value@);
            }
            lemma_tally_bounded(pre);
            assert(vals.take(i + 1).drop_last() =~= pre);
        }
        b.add(&entries[i].value, Ghost(i as int));
        i = i + 1;
    }
    assert(vals.take(entries@.len() as int) =~= vals);
    b
}

} // verus!
