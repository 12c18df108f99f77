//! Entry values: a free-text log, or a quantity made of a magnitude and a unit.
use vstd::prelude::*;
use crate::error::TrackError;
use crate::magnitude::{
    has_digit, is_digit, is_digit_char, is_numeric_char, is_numeric_char_exec, lemma_magnitude_round_trip,
    lemma_run_len, magnitude_chars, magnitude_text, parse_magnitude, read_magnitude, run_len,
};
use crate::text::{
    chars_of, is_space, is_trimmed, lemma_trim_is_trimmed, lemma_trim_of_trimmed, push_all, slice_chars,
    string_of, trim, trim_chars,
};

verus! {

#[derive(Debug)]
pub struct Quantity {
    /// The magnitude, in millionths.
    pub magnitude: i64,
    /// What follows the number; may be empty.
    pub unit: String,
}

#[derive(Debug)]
pub enum EntryValue {
    Quantity(Quantity),
    Log(String),
}

pub ghost enum ValueView {
    Quantity(int, Seq<char>),
    Log(Seq<char>),
}

impl View for EntryValue {
    type V = ValueView;

    open spec fn view(&self) -> ValueView {
        match self {
            EntryValue::Quantity(q) => ValueView::Quantity(q.magnitude as int, q.unit@),
            EntryValue::Log(s) => ValueView::Log(s@),
        }
    }
}

/// The length of the numeric front of `t`: its longest prefix of digits, signs and points.
pub open spec fn numeric_len(t: Seq<char>) -> nat {
    run_len(t, |c: char| is_numeric_char(c))
}

/// How a raw value is classified: trimmed, it is a quantity when its numeric
/// front holds a digit (and an error when that front is no decimal number),
/// else a log of the trimmed text.
pub open spec fn classify_spec(raw: Seq<char>) -> Result<ValueView, TrackError> {
    let t = trim(raw);
    let k = numeric_len(t) as int;
    let p = t.take(k);
    if !has_digit(p) {
        Ok(ValueView::Log(t))
    } else {
        match parse_magnitude(p) {
            Some(m) => Ok(ValueView::Quantity(m, t.skip(k))),
            None => Err(TrackError::MalformedQuantity),
        }
    }
}

/// The text that a value is written as.
pub open spec fn value_text(v: ValueView) -> Seq<char> {
    match v {
        ValueView::Quantity(m, u) => magnitude_text(m) + u,
        ValueView::Log(t) => t,
    }
}

/// A value that classification gives back from its own text.
pub open spec fn value_readable(v: ValueView) -> bool {
    match v {
        ValueView::Quantity(m, u) => {
            &&& i64::MIN <= m <= i64::MAX
            &&& u.len() == 0 || (!is_numeric_char(u[0]) && !is_space(u.last()))
        },
        ValueView::Log(t) => is_trimmed(t) && !has_digit(t.take(numeric_len(t) as int)),
    }
}

/// Every value that classification produces is readable.
pub proof fn lemma_classified_readable(raw: Seq<char>)
    ensures
        classify_spec(raw) matches Ok(v) ==> value_readable(v),
{
    let t = trim(raw);
    lemma_trim_is_trimmed(raw);
    let k = numeric_len(t) as int;
    lemma_run_len_stops(t, |c: char| is_numeric_char(c));
    if k < t.len() {
        assert(t.skip(k)[0] == t[k]);
        assert(t.skip(k).last() == t.last());
    }
}

pub proof fn lemma_run_len_stops(s: Seq<char>, p: spec_fn(char) -> bool)
    ensures
        run_len(s, p) <= s.len(),
        run_len(s, p) < s.len() ==> !p(s[run_len(s, p) as int]),
        forall|i: int| 0 <= i < run_len(s, p) ==> p(#[trigger] s[i]),
    decreases s.len(),
{
    if s.len() > 0 && p(s[0]) {
        lemma_run_len_stops(s.drop_first(), p);
        assert forall|i: int| 0 <= i < run_len(s, p) implies p(#[trigger] s[i]) by {
            if i > 0 {
                assert(s[i] == s.drop_first()[i - 1]);
            }
        }
    }
}

/// Classifying a readable value's text gives the value back.
pub proof fn lemma_value_round_trip(v: ValueView)
    requires
        value_readable(v),
    ensures
        classify_spec(value_text(v)) == Ok::<ValueView, TrackError>(v),
{
    match v {
        ValueView::Quantity(m, u) => {
            let mt = magnitude_text(m);
            let t = mt + u;
            lemma_magnitude_round_trip(m);
            assert(is_trimmed(t)) by {
                assert(t[0] == mt[0]);
                if u.len() == 0 {
                    assert(t.last() == mt.last());
                } else {
                    assert(t.last() == u.last());
                }
            }
            lemma_trim_of_trimmed(t);
            assert forall|i: int| 0 <= i < mt.len() implies is_numeric_char(#[trigger] t[i]) by {
                assert(t[i] == mt[i]);
            }
            if u.len() > 0 {
                assert(t[mt.len() as int] == u[0]);
            }
            lemma_run_len(t, |c: char| is_numeric_char(c), mt.len() as int);
            assert(t.take(mt.len() as int) =~= mt);
            assert(t.skip(mt.len() as int) =~= u);
        },
        ValueView::Log(t) => {
            lemma_trim_of_trimmed(t);
        },
    }
}

/// Classification is total: unless the numeric front of the trimmed text
/// holds a digit and still is no decimal that fits, the text is a log or a
/// quantity, and a quantity exactly when that front holds a digit.
pub proof fn lemma_classify_total(raw: Seq<char>)
    requires
        has_digit(trim(raw).take(numeric_len(trim(raw)) as int)) ==> parse_magnitude(
            trim(raw).take(numeric_len(trim(raw)) as int),
        ) is Some,
    ensures
        classify_spec(raw) is Ok,
        classify_spec(raw) matches Ok(v) && (v is Quantity <==> has_digit(
            trim(raw).take(numeric_len(trim(raw)) as int),
        )),
{
}

/// Classifies a raw value as a quantity or a log.
pub fn classify(raw: &str) -> (r: Result<EntryValue, TrackError>)
    ensures
        r matches Ok(v) ==> classify_spec(raw@) == Ok::<ValueView, TrackError>(v@),
        r matches Err(e) ==> classify_spec(raw@) == Err::<ValueView, TrackError>(e),
{
    let v = chars_of(raw);
    let t = trim_chars(&v);
    let mut k: usize = 0;
    while k < t.len() && is_numeric_char_exec(t[k])
        invariant
            k <= t@.len(),
            forall|i: int| 0 <= i < k ==> is_numeric_char(#[trigger] t@[i]),
        decreases t@.len() - k,
    {
        k = k + 1;
    }
    proof {
        lemma_run_len(t@, |c: char| is_numeric_char(c), k as int);
    }
    let p = slice_chars(&t, 0, k);
    assert(p@ =~= t@.take(k as int));
    let mut any = false;
    let mut i: usize = 0;
    while i < p.len()
        invariant
            i <= p@.len(),
            any == exists|j: int| 0 <= j < i && is_digit(#[trigger] p@[j]),
        decreases p@.len() - i,
    {
        if is_digit_char(p[i]) {
            any = true;
        }
        i = i + 1;
    }
    if !any {
        return Ok(EntryValue::Log(string_of(&t)));
    }
    match read_magnitude(&p) {
        Some(m) => {
            let u = slice_chars(&t, k, t.len());
            assert(u@ =~= t@.skip(k as int));
            Ok(EntryValue::Quantity(Quantity { magnitude: m, unit: string_of(&u) }))
        },
        None => Err(TrackError::MalformedQuantity),
    }
}

impl EntryValue {
    /// The text that this value is written as.
    pub fn text(&self) -> (r: String)
        ensures
            r@ == value_text(self@),
    {
        match self {
            EntryValue::Quantity(q) => {
                let mut out = magnitude_chars(q.magnitude as i128);
                let u = chars_of(q.unit.as_str());
                push_all(&mut out, &u);
                string_of(&out)
            },
            EntryValue::Log(s) => s.clone(),
        }
    }
}

} // verus!
