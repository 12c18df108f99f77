//! The summary of a query as lines of text: one line per log text and per
//! unit, the day shown on the first line of each day and the category on the
//! first line of each category.
use vstd::prelude::*;
use crate::bucket::{LogCount, UnitTotal};
use crate::magnitude::{digits_chars, digits_of, magnitude_chars, magnitude_text};
use crate::query::{CategoryGroup, DayGroup};
use crate::stamp::{day_label, day_label_of};
use crate::text::{chars_of, push_all, string_of};

verus! {

pub open spec fn spaces(n: nat) -> Seq<char> {
    Seq::new(n, |i: int| ' ')
}

/// `s` padded with spaces on the right to at least `w` characters.
pub open spec fn pad(s: Seq<char>, w: nat) -> Seq<char> {
    if s.len() >= w { s } else { s + spaces((w - s.len()) as nat) }
}

/// A log text, with `x<count>` after it when its count is not one.
pub open spec fn log_item(l: LogCount) -> Seq<char> {
    if l.count == 1 { l.text@ } else { l.text@ + seq!['x'] + digits_of(l.count as nat) }
}

/// A unit's sum followed by the unit.
pub open spec fn unit_item(u: UnitTotal) -> Seq<char> {
    magnitude_text(u.total as int) + u.unit@
}

pub open spec fn log_line(date: Seq<char>, cat: Seq<char>, l: LogCount) -> Seq<char> {
    pad(date, 12) + seq![' '] + pad(cat, 15) + seq![' '] + pad(log_item(l), 15)
}

pub open spec fn unit_line(date: Seq<char>, cat: Seq<char>, u: UnitTotal) -> Seq<char> {
    pad(date, 12) + seq![' '] + pad(cat, 15) + seq![' '] + pad(unit_item(u), 15)
}

/// The lines of one category, `date` shown on its first line.
pub open spec fn category_lines(date: Seq<char>, g: CategoryGroup) -> Seq<Seq<char>> {
    let logs = g.bucket.logs@;
    let units = g.bucket.quantities@;
    Seq::new(
        logs.len() + units.len(),
        |k: int|
            {
                let d = if k == 0 { date } else { Seq::empty() };
                let c = if k == 0 { g.category@ } else { Seq::empty() };
                if k < logs.len() {
                    log_line(d, c, logs[k])
                } else {
                    unit_line(d, c, units[k - logs.len()])
                }
            },
    )
}

/// The lines of one day labelled `label`: the label stands on the day's first line.
pub open spec fn day_lines(label: Seq<char>, cats: Seq<CategoryGroup>) -> Seq<Seq<char>>
    decreases cats.len(),
{
    if cats.len() == 0 {
        Seq::empty()
    } else {
        let prev = day_lines(label, cats.drop_last());
        prev + category_lines(if prev.len() == 0 { label } else { Seq::empty() }, cats.last())
    }
}

/// The label a day is shown with; empty for a day out of the calendar's range.
pub open spec fn label_text(day: int) -> Seq<char> {
    match day_label_of(day) {
        Some(s) => s,
        None => Seq::empty(),
    }
}

/// The lines of a query's result.
pub open spec fn render_spec(groups: Seq<DayGroup>) -> Seq<Seq<char>>
    decreases groups.len(),
{
    if groups.len() == 0 {
        Seq::empty()
    } else {
        render_spec(groups.drop_last()) + day_lines(label_text(groups.last().day as int), groups.last().categories@)
    }
}

pub open spec fn texts(v: Seq<String>) -> Seq<Seq<char>> {
    v.map_values(|s: String| s@)
}

fn pad_to(v: &mut Vec<char>, w: usize)
    ensures
        final(v)@ == pad(old(v)@, w as nat),
{
    if v.len() >= w {
        return;
    }
    let ghost start = v@;
    while v.len() < w
        invariant
            start.len() < w,
            start.len() <= v@.len() <= w,
            v@ == start + spaces((v@.len() - start.len()) as nat),
        decreases w - v@.len(),
    {
        v.push(' ');
        assert(v@ =~= start + spaces((v@.len() - start.len()) as nat));
    }
}

fn line_of(date: &Vec<char>, dw: usize, cat: &Vec<char>, cw: usize, item: &Vec<char>, iw: usize) -> (r: String)
    ensures
        r@ == pad(date@, dw as nat) + seq![' '] + pad(cat@, cw as nat) + seq![' '] + pad(item@, iw as nat),
{
    let mut out: Vec<char> = Vec::new();
    push_all(&mut out, date);
    pad_to(&mut out, dw);
    out.push(' ');
    let mut c: Vec<char> = Vec::new();
    push_all(&mut c, cat);
    pad_to(&mut c, cw);
    push_all(&mut out, &c);
    out.push(' ');
    let mut it: Vec<char> = Vec::new();
    push_all(&mut it, item);
    pad_to(&mut it, iw);
    push_all(&mut out, &it);
    assert(c@ =~= pad(cat@, cw as nat));
    string_of(&out)
}

fn log_item_chars(l: &LogCount) -> (r: Vec<char>)
    ensures
        r@ == log_item(*l),
{
    let mut out = chars_of(l.text.as_str());
    if l.count != 1 {
        out.push('x');
        push_all(&mut out, &digits_chars(l.count as u128));
    }
    out
}

fn unit_item_chars(u: &UnitTotal) -> (r: Vec<char>)
    ensures
        r@ == unit_item(*u),
{
    let mut out = magnitude_chars(u.total);
    push_all(&mut out, &chars_of(u.unit.as_str()));
    out
}

/// Appends the lines of one category to `lines`.
fn push_category_lines(lines: &mut Vec<String>, date: &Vec<char>, g: &CategoryGroup)
    ensures
        texts(final(lines)@) == texts(old(lines)@) + category_lines(date@, *g),
{
    let ghost start = texts(lines@);
    let ghost want = category_lines(date@, *g);
    let empty: Vec<char> = Vec::new();
    let cat = chars_of(g.category.as_str());
    let nl = g.bucket.logs.len();
    let nu = g.bucket.quantities.len();
    let mut k: usize = 0;
    while k < nl
        invariant
            nl == g.bucket.logs@.len(),
            nu == g.bucket.quantities@.len(),
            want == category_lines(date@, *g),
            k <= nl,
            cat@ == g.category@,
            empty@ == Seq::<char>::empty(),
            texts(lines@) == start + want.take(k as int),
        decreases nl - k,
    {
        let d = if k == 0 { date } else { &empty };
        let c = if k == 0 { &cat } else { &empty };
        let line = log_line_exec(d, c, &g.bucket.logs[k]);
        assert(want[k as int] == log_line(d@, c@, g.bucket.logs@[k as int]));
        let ghost prev = lines@;
        lines.push(line);
        assert(texts(lines@) =~= texts(prev).push(line@));
        assert(texts(lines@) =~= start + want.take(k + 1));
        k = k + 1;
    }
    let mut u: usize = 0;
    while u < nu
        invariant
            nl == g.bucket.logs@.len(),
            nu == g.bucket.quantities@.len(),
            want == category_lines(date@, *g),
            u <= nu,
            cat@ == g.category@,
            empty@ == Seq::<char>::empty(),
            texts(lines@) == start + want.take(nl + u),
        decreases nu - u,
    {
        let d = if nl == 0 && u == 0 { date } else { &empty };
        let c = if nl == 0 && u == 0 { &cat } else { &empty };
        let line = unit_line_exec(d, c, &g.bucket.quantities[u]);
        assert(want[nl + u] == unit_line(d@, c@, g.bucket.quantities@[u as int]));
        let ghost prev = lines@;
        lines.push(line);
        assert(texts(lines@) =~= texts(prev).push(line@));
        assert(texts(lines@) =~= start + want.take(nl + u + 1));
        u = u + 1;
    }
    assert(want.take(nl + nu) =~= want);
}

fn log_line_exec(date: &Vec<char>, cat: &Vec<char>, l: &LogCount) -> (r: String)
    ensures
        r@ == log_line(date@, cat@, *l),
{
    line_of(date, 12, cat, 15, &log_item_chars(l), 15)
}

fn unit_line_exec(date: &Vec<char>, cat: &Vec<char>, u: &UnitTotal) -> (r: String)
    ensures
        r@ == unit_line(date@, cat@, *u),
{
    line_of(date, 12, cat, 15, &unit_item_chars(u), 15)
}

/// The lines of a query's result, in order.
pub fn render(groups: &Vec<DayGroup>) -> (r: Vec<String>)
    ensures
        texts(r@) == render_spec(groups@),
{
    let mut lines: Vec<String> = Vec::new();
    let mut i: usize = 0;
    assert(texts(lines@) =~= Seq::<Seq<char>>::empty());
    assert(groups@.take(0) =~= Seq::<DayGroup>::empty());
    while i < groups.len()
        invariant
            i <= groups@.len(),
            texts(lines@) == render_spec(groups@.take(i as int)),
        decreases groups@.len() - i,
    {
        let g = &groups[i];
        let label = match day_label(g.day) {
            Some(s) => chars_of(s.as_str()),
            None => Vec::new(),
        };
        assert(label@ == label_text(g.day as int));
        let ghost before = texts(lines@);
        let start_len = lines.len();
        let empty: Vec<char> = Vec::new();
        let cats = &g.categories;
        let mut j: usize = 0;
        assert(cats@.take(0) =~= Seq::<CategoryGroup>::empty());
        while j < cats.len()
            invariant
                j <= cats@.len(),
                label@ == label_text(g.day as int),
                texts(lines@) == before + day_lines(label@, cats@.take(j as int)),
                start_len == before.len(),
                empty@ == Seq::<char>::empty(),
            decreases cats@.len() - j,
        {
            assert(cats@.take(j + 1).drop_last() =~= cats@.take(j as int));
            assert(texts(lines@).len() == lines@.len());
            let ghost prev_day = day_lines(label@, cats@.take(j as int));
            let first = lines.len() == start_len;
            assert(first == (prev_day.len() == 0));
            let ghost mid = texts(lines@);
            let date = if first { &label } else { &empty };
            push_category_lines(&mut lines, date, &cats[j]);
            assert(cats@.take(j + 1).last() == cats@[j as int]);
            assert(date@ == (if prev_day.len() == 0 { label@ } else { Seq::<char>::empty() }));
            assert(day_lines(label@, cats@.take(j + 1)) == prev_day + category_lines(date@, cats@[j as int]));
            assert(texts(lines@) =~= before + day_lines(label@, cats@.take(j + 1)));
            j = j + 1;
        }
        assert(cats@.take(cats@.len() as int) =~= cats@);
        assert(groups@.take(i + 1).drop_last() =~= groups@.take(i as int));
        i = i + 1;
    }
    assert(groups@.take(groups@.len() as int) =~= groups@);
    lines
}

} // verus!
