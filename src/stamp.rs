//! Timestamps of entries: RFC 3339 text together with the calendar day it falls on.
use vstd::prelude::*;
use crate::error::TrackError;
use crate::text::chars_of;

verus! {

/// The calendar day (days from the start of the common era, day 1 being
/// 1 January of year 1) of the date that RFC 3339 text `s` gives, read in the
/// text's own offset; `None` when `s` is not RFC 3339 text.
pub uninterp spec fn rfc3339_day(s: Seq<char>) -> Option<int>;

/// Relies on chrono's `DateTime::parse_from_rfc3339` to read the text, and on
/// `Datelike::num_days_from_ce` of its local date for the day number.
#[verifier::external_body]
fn parse_rfc3339_day(s: &str) -> (r: Option<i32>)
    ensures
        r matches Some(d) ==> rfc3339_day(s@) == Some(d as int),
        r is None ==> rfc3339_day(s@) is None,
{
    match chrono::DateTime::parse_from_rfc3339(s) {
        Ok(t) => Some(chrono::Datelike::num_days_from_ce(&t.date_naive())),
        Err(_) => None,
    }
}

/// The label of a calendar day, as `05 Mar 2024`; `None` for a day out of
/// the calendar's range.
pub uninterp spec fn day_label_of(day: int) -> Option<Seq<char>>;

/// Relies on chrono's `NaiveDate::format` with `%d %b %Y`, on the date that
/// `NaiveDate::from_num_days_from_ce_opt` gives for the day number.
#[verifier::external_body]
pub(crate) fn day_label(day: i32) -> (r: Option<String>)
    ensures
        r matches Some(s) ==> day_label_of(day as int) == Some(s@),
        r is None ==> day_label_of(day as int) is None,
{
    match chrono::NaiveDate::from_num_days_from_ce_opt(day) {
        Some(d) => Some(d.format("%d %b %Y").to_string()),
        None => None,
    }
}

pub open spec fn has_char(s: Seq<char>, c: char) -> bool {
    exists|i: int| 0 <= i < s.len() && s[i] == c
}

/// Text that can stand between the brackets of a line as a timestamp.
pub open spec fn stamp_ok(s: Seq<char>) -> bool {
    rfc3339_day(s) is Some && !has_char(s, ']') && !has_char(s, '\n')
}

/// Whether `c` occurs in `v`.
pub fn holds_char(v: &Vec<char>, c: char) -> (r: bool)
    ensures
        r == has_char(v@, c),
{
    let mut i: usize = 0;
    while i < v.len()
        invariant
            i <= v@.len(),
            forall|j: int| 0 <= j < i ==> v@[j] != c,
        decreases v@.len() - i,
    {
        if v[i] == c {
            return true;
        }
        i = i + 1;
    }
    false
}

#[derive(Debug)]
pub struct Timestamp {
    text: String,
    day: i32,
}

pub ghost struct StampView {
    pub text: Seq<char>,
    pub day: int,
}

impl View for Timestamp {
    type V = StampView;

    closed spec fn view(&self) -> StampView {
        StampView { text: self.text@, day: self.day as int }
    }
}

impl Timestamp {
    /// A timestamp that can be written in a line and read back.
    pub open spec fn wf(&self) -> bool {
        stamp_ok(self@.text) && rfc3339_day(self@.text) == Some(self@.day)
    }

    /// Reads RFC 3339 text as a timestamp.
    pub fn parse(text: &str) -> (r: Result<Timestamp, TrackError>)
        ensures
            r matches Ok(t) ==> t@.text == text@ && t.wf(),
            r is Err ==> r == Err::<Timestamp, TrackError>(TrackError::MalformedTimestamp),
            r is Ok <==> stamp_ok(text@),
    {
        let v = chars_of(text);
        if holds_char(&v, ']') || holds_char(&v, '\n') {
            return Err(TrackError::MalformedTimestamp);
        }
        match parse_rfc3339_day(text) {
            Some(day) => Ok(Timestamp { text: text.to_string(), day }),
            None => Err(TrackError::MalformedTimestamp),
        }
    }

    /// The RFC 3339 text of this timestamp.
    pub fn text(&self) -> (r: String)
        ensures
            r@ == self@.text,
    {
        self.text.clone()
    }

    /// The calendar day of this timestamp, counted from the start of the common era.
    pub fn day(&self) -> (r: i32)
        ensures
            r as int == self@.day,
    {
        self.day
    }
}

} // verus!
