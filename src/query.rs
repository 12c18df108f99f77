//! Queries: the entries whose category holds a filter, within a window of
//! days, grouped by day (in the order days are first met) and within a day
//! by category (in lexicographic order), each group summed into a bucket.
use vstd::prelude::*;
use crate::bucket::{add_value, lemma_tally_bounded, tally, tally_bounded, value_fits, Bucket, BucketView};
use crate::entry::{entry_views, Entry, EntryView};
use crate::error::TrackError;
use crate::order::{contains_chars, is_substring, lemma_lex_irreflexive, lemma_lex_total, lemma_lex_transitive, lex_less, lex_lt};
use crate::text::chars_of;
use crate::value::ValueView;

verus! {

/// A category of one day and the bucket of its entries.
#[derive(Debug)]
pub struct CategoryGroup {
    pub category: String,
    pub bucket: Bucket,
}

/// A day and its categories.
#[derive(Debug)]
pub struct DayGroup {
    pub day: i32,
    pub categories: Vec<CategoryGroup>,
}

/// An entry that a query with `filter` keeps, when days after `min_day` count.
pub open spec fn selected(e: EntryView, filter: Seq<char>, min_day: int) -> bool {
    is_substring(filter, e.category) && e.stamp.day > min_day
}

/// The entries of `es` that a query keeps, in order.
pub open spec fn picked(es: Seq<EntryView>, filter: Seq<char>, min_day: int) -> Seq<EntryView>
    decreases es.len(),
{
    if es.len() == 0 {
        Seq::empty()
    } else if selected(es.last(), filter, min_day) {
        picked(es.drop_last(), filter, min_day).push(es.last())
    } else {
        picked(es.drop_last(), filter, min_day)
    }
}

/// The days of `f`, each once, in the order in which they first occur.
pub open spec fn days_seen(f: Seq<EntryView>) -> Seq<int>
    decreases f.len(),
{
    if f.len() == 0 {
        Seq::empty()
    } else if days_seen(f.drop_last()).contains(f.last().stamp.day) {
        days_seen(f.drop_last())
    } else {
        days_seen(f.drop_last()).push(f.last().stamp.day)
    }
}

/// The categories of the entries of `f` on day `d`.
pub open spec fn cats_at(f: Seq<EntryView>, d: int) -> Set<Seq<char>>
    decreases f.len(),
{
    if f.len() == 0 {
        Set::empty()
    } else if f.last().stamp.day == d {
        cats_at(f.drop_last(), d).insert(f.last().category)
    } else {
        cats_at(f.drop_last(), d)
    }
}

/// The values of the entries of `f` on day `d` in category `c`, in order.
pub open spec fn values_at(f: Seq<EntryView>, d: int, c: Seq<char>) -> Seq<ValueView>
    decreases f.len(),
{
    if f.len() == 0 {
        Seq::empty()
    } else if f.last().stamp.day == d && f.last().category == c {
        values_at(f.drop_last(), d, c).push(f.last().value)
    } else {
        values_at(f.drop_last(), d, c)
    }
}

pub open spec fn cats_sorted(cats: Seq<CategoryGroup>) -> bool {
    forall|i: int, j: int| 0 <= i < j < cats.len() ==> lex_lt(#[trigger] cats[i].category@, #[trigger] cats[j].category@)
}

/// `cats` is the grouping of the entries of `f` on day `d`: its categories
/// in order, each with the bucket of its values.
pub open spec fn day_matches(cats: Seq<CategoryGroup>, f: Seq<EntryView>, d: int) -> bool {
    &&& cats_sorted(cats)
    &&& forall|c: Seq<char>| #[trigger] cats_at(f, d).contains(c) ==> exists|j: int| 0 <= j < cats.len() && cats[j].category@ == c
    &&& forall|j: int| 0 <= j < cats.len() ==> cats_at(f, d).contains(#[trigger] cats[j].category@)
    &&& forall|j: int| 0 <= j < cats.len() ==> (#[trigger] cats[j]).bucket.wf() && cats[j].bucket@ == tally(
        values_at(f, d, cats[j].category@),
    )
}

/// `groups` is the grouping of the entries of `f`: one group per day, in
/// the order in which days first occur.
pub open spec fn groups_match(groups: Seq<DayGroup>, f: Seq<EntryView>) -> bool {
    &&& groups.len() == days_seen(f).len()
    &&& forall|i: int| 0 <= i < groups.len() ==> (#[trigger] groups[i]).day as int == days_seen(f)[i]
    &&& forall|i: int| 0 <= i < groups.len() ==> day_matches((#[trigger] groups[i]).categories@, f, groups[i].day as int)
}

pub open spec fn all_fit(f: Seq<EntryView>) -> bool {
    forall|k: int| 0 <= k < f.len() ==> value_fits(#[trigger] f[k].value)
}

proof fn lemma_push_other_day(f: Seq<EntryView>, e: EntryView, d: int)
    requires
        e.stamp.day != d,
    ensures
        cats_at(f.push(e), d) == cats_at(f, d),
        forall|c: Seq<char>| #[trigger] values_at(f.push(e), d, c) == values_at(f, d, c),
{
    assert(f.push(e).drop_last() =~= f);
}

proof fn lemma_push_same_day(f: Seq<EntryView>, e: EntryView)
    ensures
        cats_at(f.push(e), e.stamp.day) == cats_at(f, e.stamp.day).insert(e.category),
        values_at(f.push(e), e.stamp.day, e.category) == values_at(f, e.stamp.day, e.category).push(e.value),
        forall|c: Seq<char>| c != e.category ==> #[trigger] values_at(f.push(e), e.stamp.day, c) == values_at(f, e.stamp.day, c),
{
    assert(f.push(e).drop_last() =~= f);
}

proof fn lemma_values_at_absent(f: Seq<EntryView>, d: int, c: Seq<char>)
    requires
        !cats_at(f, d).contains(c),
    ensures
        values_at(f, d, c) == Seq::<ValueView>::empty(),
    decreases f.len(),
{
    if f.len() > 0 {
        lemma_values_at_absent(f.drop_last(), d, c);
    }
}

proof fn lemma_cats_at_seen(f: Seq<EntryView>, d: int)
    requires
        !days_seen(f).contains(d),
    ensures
        cats_at(f, d) == Set::<Seq<char>>::empty(),
    decreases f.len(),
{
    if f.len() > 0 {
        let t = f.drop_last();
        if days_seen(t).contains(d) {
            if days_seen(t).contains(f.last().stamp.day) {
                assert(days_seen(f) == days_seen(t));
            } else {
                let i = choose|i: int| 0 <= i < days_seen(t).len() && days_seen(t)[i] == d;
                assert(days_seen(f)[i] == d);
            }
        } else {
            lemma_cats_at_seen(t, d);
            if f.last().stamp.day == d {
                if days_seen(t).contains(d) {
                } else {
                    assert(days_seen(f)[days_seen(t).len() as int] == d);
                }
            }
        }
    }
}

proof fn lemma_values_at_fit(f: Seq<EntryView>, d: int, c: Seq<char>)
    requires
        all_fit(f),
    ensures
        values_at(f, d, c).len() <= f.len(),
        forall|k: int| 0 <= k < values_at(f, d, c).len() ==> value_fits(#[trigger] values_at(f, d, c)[k]),
    decreases f.len(),
{
    if f.len() > 0 {
        let t = f.drop_last();
        assert forall|k: int| 0 <= k < t.len() implies value_fits(#[trigger] t[k].value) by {
            assert(t[k] == f[k]);
        }
        lemma_values_at_fit(t, d, c);
        assert(value_fits(f[f.len() - 1].value));
    }
}

/// Adds entry `e` to the categories of its day.
fn add_to_day(cats: &mut Vec<CategoryGroup>, e: &Entry, Ghost(f): Ghost<Seq<EntryView>>)
    requires
        day_matches(old(cats)@, f, e@.stamp.day),
        all_fit(f),
        f.len() < usize::MAX,
    ensures
        day_matches(final(cats)@, f.push(e@), e@.stamp.day),
{
    let ghost d = e@.stamp.day;
    let ghost f2 = f.push(e@);
    let c = chars_of(e.category.as_str());
    let ghost cv = e.category@;
    proof {
        lemma_push_same_day(f, e@);
        lemma_values_at_fit(f, d, cv);
        lemma_tally_bounded(values_at(f, d, cv));
    }
    let mut j: usize = 0;
    while j < cats.len() && lex_less(&chars_of(cats[j].category.as_str()), &c)
        invariant
            j <= cats@.len(),
            cats@ == old(cats)@,
            c@ == cv,
            forall|k: int| 0 <= k < j ==> lex_lt(#[trigger] cats@[k].category@, cv),
        decreases cats@.len() - j,
    {
        j = j + 1;
    }
    if j < cats.len() && cats[j].category == e.category {
        let mut g = cats.remove(j);
        let ghost n = values_at(f, d, cv).len() as int;
        assert(g.bucket@ == tally(values_at(f, d, cv)));
        g.bucket.add(&e.value, Ghost(n));
        proof {
            assert(values_at(f, d, cv).push(e@.value).drop_last() =~= values_at(f, d, cv));
        }
        cats.insert(j, g);
        proof {
            let o = old(cats)@;
            assert forall|k: int| 0 <= k < cats@.len() implies (#[trigger] cats@[k]).category@ == o[k].category@ by {}
            assert forall|x: Seq<char>| #[trigger] cats_at(f2, d).contains(x) implies exists|k: int|
                0 <= k < cats@.len() && cats@[k].category@ == x by {
                if x != cv {
                    assert(cats_at(f, d).contains(x));
                    let k = choose|k: int| 0 <= k < o.len() && o[k].category@ == x;
                    assert(cats@[k].category@ == x);
                } else {
                    assert(cats@[j as int].category@ == x);
                }
            }
            assert forall|k: int| 0 <= k < cats@.len() implies (#[trigger] cats@[k]).bucket.wf() && cats@[k].bucket@
                == tally(values_at(f2, d, cats@[k].category@)) by {
                if k != j {
                    assert(cats@[k] == o[k]);
                    if o[k].category@ == cv {
                        assert(lex_lt(o[k].category@, o[j as int].category@) || lex_lt(o[j as int].category@, o[k].category@));
                        lemma_lex_irreflexive(cv);
                    }
                }
            }
        }
    } else {
        let mut b = Bucket::new();
        proof {
            lemma_tally_bounded(Seq::<ValueView>::empty());
        }
        b.add(&e.value, Ghost(0));
        let ghost old_cats = cats@;
        proof {
            assert(!cats_at(f, d).contains(cv)) by {
                if cats_at(f, d).contains(cv) {
                    let k = choose|k: int| 0 <= k < old_cats.len() && old_cats[k].category@ == cv;
                    lemma_lex_irreflexive(cv);
                    if k > j {
                        lemma_lex_total(old_cats[j as int].category@, cv);
                        lemma_lex_transitive(cv, old_cats[j as int].category@, old_cats[k].category@);
                    }
                }
            }
            lemma_values_at_absent(f, d, cv);
            assert(Seq::<ValueView>::empty().push(e@.value).drop_last() =~= Seq::<ValueView>::empty());
        }
        cats.insert(j, CategoryGroup { category: e.category.clone(), bucket: b });
        proof {
            let o = old_cats;
            assert(cats@[j as int].category@ == cv);
            assert forall|k: int| 0 <= k < j implies #[trigger] cats@[k] == o[k] by {}
            assert forall|k: int| j < k < cats@.len() implies #[trigger] cats@[k] == o[k - 1] by {}
            assert forall|k: int| j < k < cats@.len() implies lex_lt(cv, (#[trigger] cats@[k]).category@) by {
                lemma_lex_total(o[j as int].category@, cv);
                if k - 1 > j {
                    lemma_lex_transitive(cv, o[j as int].category@, o[k - 1].category@);
                }
            }
            assert forall|a: int, b2: int| 0 <= a < b2 < cats@.len() implies lex_lt(
                #[trigger] cats@[a].category@,
                #[trigger] cats@[b2].category@,
            ) by {
                if b2 == j {
                } else if a == j {
                } else if a < j && b2 > j {
                    lemma_lex_transitive(cats@[a].category@, cv, cats@[b2].category@);
                } else if b2 < j {
                } else {
                    assert(cats@[a] == o[a - 1] && cats@[b2] == o[b2 - 1]);
                }
            }
            assert forall|x: Seq<char>| #[trigger] cats_at(f2, d).contains(x) implies exists|k: int|
                0 <= k < cats@.len() && cats@[k].category@ == x by {
                if x != cv {
                    assert(cats_at(f, d).contains(x));
                    let k = choose|k: int| 0 <= k < o.len() && o[k].category@ == x;
                    if k < j {
                        assert(cats@[k].category@ == x);
                    } else {
                        assert(cats@[k + 1].category@ == x);
                    }
                } else {
                    assert(cats@[j as int].category@ == x);
                }
            }
            assert forall|k: int| 0 <= k < cats@.len() implies cats_at(f2, d).contains(#[trigger] cats@[k].category@) by {
                if k < j {
                    assert(cats@[k] == o[k]);
                } else if k > j {
                    assert(cats@[k] == o[k - 1]);
                }
            }
            assert forall|k: int| 0 <= k < cats@.len() implies (#[trigger] cats@[k]).bucket.wf() && cats@[k].bucket@
                == tally(values_at(f2, d, cats@[k].category@)) by {
                if k < j {
                    assert(cats@[k] == o[k]);
                    lemma_lex_irreflexive(cv);
                } else if k > j {
                    assert(cats@[k] == o[k - 1]);
                    lemma_lex_irreflexive(cv);
                }
            }
        }
    }
}

proof fn lemma_day_matches_other(cats: Seq<CategoryGroup>, f: Seq<EntryView>, e: EntryView, d: int)
    requires
        day_matches(cats, f, d),
        e.stamp.day != d,
    ensures
        day_matches(cats, f.push(e), d),
{
    lemma_push_other_day(f, e, d);
}

proof fn lemma_days_seen_distinct(f: Seq<EntryView>)
    ensures
        forall|a: int, b: int| 0 <= a < b < days_seen(f).len() ==> days_seen(f)[a] != days_seen(f)[b],
    decreases f.len(),
{
    if f.len() > 0 {
        let t = f.drop_last();
        lemma_days_seen_distinct(t);
        let x = f.last().stamp.day;
        if !days_seen(t).contains(x) {
            let ds = days_seen(f);
            assert forall|a: int, b: int| 0 <= a < b < ds.len() implies ds[a] != ds[b] by {
                if b == ds.len() - 1 {
                    assert(ds[b] == x);
                    assert(ds[a] == days_seen(t)[a]);
                } else {
                    assert(ds[a] == days_seen(t)[a] && ds[b] == days_seen(t)[b]);
                }
            }
        }
    }
}

proof fn lemma_days_seen_push(f: Seq<EntryView>, e: EntryView)
    ensures
        days_seen(f.push(e)) == (if days_seen(f).contains(e.stamp.day) {
            days_seen(f)
        } else {
            days_seen(f).push(e.stamp.day)
        }),
{
    assert(f.push(e).drop_last() =~= f);
}

/// The window of a query is strict: an entry of the filtered category dated
/// exactly `range` days before `today` is left out, one dated a day later is kept.
pub proof fn lemma_range_boundary(e: EntryView, filter: Seq<char>, today: int, range: int)
    requires
        is_substring(filter, e.category),
    ensures
        e.stamp.day == today - range ==> picked(seq![e], filter, today - range) == Seq::<EntryView>::empty(),
        e.stamp.day == today - range + 1 ==> picked(seq![e], filter, today - range) == seq![e],
{
    let one = seq![e];
    assert(one.drop_last() =~= Seq::<EntryView>::empty());
    assert(one.last() == e);
    assert(Seq::<EntryView>::empty().push(e) =~= one);
    assert(picked(Seq::<EntryView>::empty(), filter, today - range) == Seq::<EntryView>::empty());
    assert(picked(one, filter, today - range) == (if selected(e, filter, today - range) {
        Seq::<EntryView>::empty().push(e)
    } else {
        Seq::<EntryView>::empty()
    }));
}

/// Bucket `b` counts value `v`: a log text at least once, or a quantity's unit.
pub open spec fn counts(b: BucketView, v: ValueView) -> bool {
    match v {
        ValueView::Log(t) => b.logs.contains_key(t) && b.logs[t] >= 1,
        ValueView::Quantity(_, u) => b.quantities.contains_key(u),
    }
}

/// `groups` lists entry `e`: it has `e`'s day, under it `e`'s category, and
/// that category's bucket counts `e`'s value.
pub open spec fn lists(groups: Seq<DayGroup>, e: EntryView) -> bool {
    exists|i: int, j: int|
        0 <= i < groups.len() && 0 <= j < groups[i].categories@.len() && groups[i].day as int == e.stamp.day
            && (#[trigger] groups[i].categories@[j]).category@ == e.category && counts(
            groups[i].categories@[j].bucket@,
            e.value,
        )
}

proof fn lemma_picked_has(es: Seq<EntryView>, filter: Seq<char>, min_day: int, k: int)
    requires
        0 <= k < es.len(),
        selected(es[k], filter, min_day),
    ensures
        exists|m: int| 0 <= m < picked(es, filter, min_day).len() && #[trigger] picked(es, filter, min_day)[m] == es[k],
    decreases es.len(),
{
    let t = es.drop_last();
    if k == es.len() - 1 {
        let f = picked(t, filter, min_day);
        assert(picked(es, filter, min_day)[f.len() as int] == es[k]);
    } else {
        assert(t[k] == es[k]);
        lemma_picked_has(t, filter, min_day, k);
        let m = choose|m: int| 0 <= m < picked(t, filter, min_day).len() && #[trigger] picked(t, filter, min_day)[m] == t[k];
        assert(picked(es, filter, min_day)[m] == es[k]);
    }
}

proof fn lemma_seen_at(f: Seq<EntryView>, m: int)
    requires
        0 <= m < f.len(),
    ensures
        days_seen(f).contains(f[m].stamp.day),
        cats_at(f, f[m].stamp.day).contains(f[m].category),
        exists|x: int| 0 <= x < values_at(f, f[m].stamp.day, f[m].category).len() && #[trigger] values_at(
            f,
            f[m].stamp.day,
            f[m].category,
        )[x] == f[m].value,
    decreases f.len(),
{
    let t = f.drop_last();
    let d = f[m].stamp.day;
    let c = f[m].category;
    if m == f.len() - 1 {
        if !days_seen(t).contains(d) {
            assert(days_seen(f)[days_seen(t).len() as int] == d);
        }
        let vs = values_at(t, d, c);
        assert(values_at(f, d, c)[vs.len() as int] == f[m].value);
    } else {
        assert(t[m] == f[m]);
        lemma_seen_at(t, m);
        if days_seen(t).contains(f.last().stamp.day) {
        } else {
            let i = choose|i: int| 0 <= i < days_seen(t).len() && days_seen(t)[i] == d;
            assert(days_seen(f)[i] == d);
        }
        let x = choose|x: int| 0 <= x < values_at(t, d, c).len() && #[trigger] values_at(t, d, c)[x] == t[m].value;
        assert(values_at(f, d, c)[x] == f[m].value);
    }
}

proof fn lemma_tally_counts(vals: Seq<ValueView>, x: int)
    requires
        0 <= x < vals.len(),
    ensures
        counts(tally(vals), vals[x]),
    decreases vals.len(),
{
    let b = tally(vals.drop_last());
    lemma_tally_logs_positive(vals.drop_last());
    assert(tally(vals) == add_value(b, vals.last()));
    if x < vals.len() - 1 {
        assert(vals.drop_last()[x] == vals[x]);
        lemma_tally_counts(vals.drop_last(), x);
        match vals[x] {
            ValueView::Log(t) => {
                assert(tally(vals).logs.contains_key(t));
            },
            ValueView::Quantity(_, u) => {
                assert(tally(vals).quantities.contains_key(u));
            },
        }
    } else {
        match vals[x] {
            ValueView::Log(t) => {
                assert(tally(vals).logs.contains_key(t));
            },
            ValueView::Quantity(_, u) => {},
        }
    }
}

proof fn lemma_tally_logs_positive(vals: Seq<ValueView>)
    ensures
        forall|t: Seq<char>| #[trigger] tally(vals).logs.contains_key(t) ==> tally(vals).logs[t] >= 1,
    decreases vals.len(),
{
    if vals.len() > 0 {
        let b = tally(vals.drop_last());
        lemma_tally_logs_positive(vals.drop_last());
        assert(tally(vals) == add_value(b, vals.last()));
        assert forall|t: Seq<char>| #[trigger] tally(vals).logs.contains_key(t) implies tally(vals).logs[t] >= 1 by {
            if b.logs.contains_key(t) {
                assert(b.logs[t] >= 1);
            }
        }
    }
}

/// Every entry that a query keeps is listed in its result: under the entry's
/// day stands the entry's category, whose bucket counts the entry's value.
pub proof fn lemma_selected_listed(groups: Seq<DayGroup>, es: Seq<EntryView>, filter: Seq<char>, min_day: int, k: int)
    requires
        groups_match(groups, picked(es, filter, min_day)),
        0 <= k < es.len(),
        selected(es[k], filter, min_day),
    ensures
        lists(groups, es[k]),
{
    let f = picked(es, filter, min_day);
    lemma_picked_has(es, filter, min_day, k);
    let m = choose|m: int| 0 <= m < f.len() && #[trigger] f[m] == es[k];
    lemma_seen_at(f, m);
    let e = es[k];
    let i = choose|i: int| 0 <= i < days_seen(f).len() && days_seen(f)[i] == e.stamp.day;
    let g = groups[i];
    assert(day_matches(g.categories@, f, g.day as int));
    assert(cats_at(f, g.day as int).contains(e.category));
    let j = choose|j: int| 0 <= j < g.categories@.len() && g.categories@[j].category@ == e.category;
    let x = choose|x: int| 0 <= x < values_at(f, e.stamp.day, e.category).len() && #[trigger] values_at(
        f,
        e.stamp.day,
        e.category,
    )[x] == e.value;
    lemma_tally_counts(values_at(f, e.stamp.day, e.category), x);
    assert(g.categories@[j].bucket@ == tally(values_at(f, g.day as int, g.categories@[j].category@)));
    assert(groups[i].categories@[j] == g.categories@[j]);
}

/// An entry whose category holds the filter, dated `range - 1` days before
/// `today`, is listed in the result of the query over `range` days.
pub proof fn lemma_recent_entry_listed(
    groups: Seq<DayGroup>,
    es: Seq<EntryView>,
    filter: Seq<char>,
    today: int,
    range: int,
    k: int,
)
    requires
        groups_match(groups, picked(es, filter, today - range)),
        0 <= k < es.len(),
        is_substring(filter, es[k].category),
        es[k].stamp.day == today - (range - 1),
    ensures
        lists(groups, es[k]),
{
    lemma_selected_listed(groups, es, filter, today - range, k);
}

/// A filter matches every category that starts with it, as `work` matches
/// `work:coding`: such an entry within the window is listed.
pub proof fn lemma_prefix_filter_listed(
    groups: Seq<DayGroup>,
    es: Seq<EntryView>,
    filter: Seq<char>,
    rest: Seq<char>,
    min_day: int,
    k: int,
)
    requires
        groups_match(groups, picked(es, filter, min_day)),
        0 <= k < es.len(),
        es[k].category == filter + rest,
        es[k].stamp.day > min_day,
    ensures
        lists(groups, es[k]),
{
    let c = es[k].category;
    assert(c.subrange(0, 0 + filter.len() as int) =~= filter);
    assert(is_substring(filter, c));
    lemma_selected_listed(groups, es, filter, min_day, k);
}

/// Groups and sums the entries whose category holds `filter` and whose day
/// comes after `today - range`.
pub fn query(entries: &Vec<Entry>, filter: &str, range: i64, today: i32) -> (r: Result<Vec<DayGroup>, TrackError>)
    ensures
        r is Err <==> range < 0,
        r matches Err(x) ==> x == TrackError::InvalidRange,
        r matches Ok(groups) ==> groups_match(groups@, picked(entry_views(entries@), filter@, today - range)),
{
    if range < 0 {
        return Err(TrackError::InvalidRange);
    }
    let ghost views = entry_views(entries@);
    let ghost min_day = today - range;
    let fc = chars_of(filter);
    let mut groups: Vec<DayGroup> = Vec::new();
    let mut i: usize = 0;
    let ghost mut f: Seq<EntryView> = Seq::empty();
    assert(views.take(0) =~= Seq::<EntryView>::empty());
    while i < entries.len()
        invariant
            i <= entries@.len(),
            views == entry_views(entries@),
            min_day == today - range,
            range >= 0,
            fc@ == filter@,
            f == picked(views.take(i as int), filter@, min_day),
            f.len() <= i,
            all_fit(f),
            groups_match(groups@, f),
        decreases entries@.len() - i,
    {
        let e = &entries[i];
        proof {
            assert(views.take(i + 1).drop_last() =~= views.take(i as int));
            assert(views.take(i + 1).last() == e@);
        }
        let cat = chars_of(e.category.as_str());
        let d = e.timestamp.day();
        if contains_chars(&cat, &fc) && (today as i64) - (d as i64) < range {
            let mut g: usize = 0;
            while g < groups.len() && groups[g].day != d
                invariant
                    g <= groups@.len(),
                    forall|k: int| 0 <= k < g ==> (#[trigger] groups@[k]).day != d,
                decreases groups@.len() - g,
            {
                g = g + 1;
            }
            let ghost seen = days_seen(f).contains(d as int);
            proof {
                if g < groups@.len() {
                    assert(days_seen(f)[g as int] == d);
                } else if seen {
                    let k = choose|k: int| 0 <= k < days_seen(f).len() && days_seen(f)[k] == d;
                    assert(groups@[k].day == d);
                }
            }
            if g == groups.len() {
                proof {
                    lemma_cats_at_seen(f, d as int);
                }
                groups.push(DayGroup { day: d, categories: Vec::new() });
            }
            let ghost before = groups@;
            let mut dg = groups.remove(g);
            proof {
                assert(day_matches(dg.categories@, f, d as int)) by {
                    if g < before.len() - 1 || seen {
                    } else {
                        assert(cats_at(f, d as int) == Set::<Seq<char>>::empty());
                    }
                }
            }
            add_to_day(&mut dg.categories, e, Ghost(f));
            groups.insert(g, dg);
            proof {
                let f2 = f.push(e@);
                lemma_days_seen_push(f, e@);
                lemma_days_seen_distinct(f2);
                assert(forall|k: int| 0 <= k < before.len() ==> before[k].day as int == days_seen(f2)[k]);
                assert forall|k: int| 0 <= k < groups@.len() && k != g implies #[trigger] groups@[k] == before[k] by {}
                assert forall|k: int| 0 <= k < groups@.len() implies day_matches(
                    (#[trigger] groups@[k]).categories@,
                    f2,
                    groups@[k].day as int,
                ) by {
                    if k != g {
                        lemma_day_matches_other(before[k].categories@, f, e@, before[k].day as int);
                    }
                }
                assert forall|k: int| 0 <= k < f2.len() implies value_fits(#[trigger] f2[k].value) by {
                    if k < f.len() {
                        assert(f2[k] == f[k]);
                    }
                }
                f = f2;
            }
        }
        i = i + 1;
    }
    assert(views.take(entries@.len() as int) =~= views);
    Ok(groups)
}

} // verus!
