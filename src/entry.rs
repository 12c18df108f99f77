//! Entries and their line format: `[<RFC 3339 timestamp>] <category>:<value>`.
//!
//! The timestamp runs from the opening bracket to the last `] ` that a `:`
//! follows, and the category from there to the first `:`; so a category
//! holds no `:` and no `] `, while a value may hold a `:`.
use vstd::prelude::*;
use crate::error::TrackError;
use crate::stamp::{has_char, holds_char, rfc3339_day, stamp_ok, StampView, Timestamp};
use crate::magnitude::lemma_magnitude_round_trip;
use crate::text::{chars_of, push_all, slice_chars, string_of, trim, trim_chars};
use crate::value::{classify, classify_spec, lemma_classified_readable, lemma_run_len_stops, lemma_value_round_trip, numeric_len, value_readable, value_text, EntryValue, ValueView};

verus! {

#[derive(Debug)]
pub struct Entry {
    pub timestamp: Timestamp,
    pub category: String,
    pub value: EntryValue,
}

pub ghost struct EntryView {
    pub stamp: StampView,
    pub category: Seq<char>,
    pub value: ValueView,
}

impl View for Entry {
    type V = EntryView;

    open spec fn view(&self) -> EntryView {
        EntryView { stamp: self.timestamp@, category: self.category@, value: self.value@ }
    }
}

/// The line that an entry is written as.
pub open spec fn line_text(e: EntryView) -> Seq<char> {
    seq!['['] + e.stamp.text + seq![']', ' '] + e.category + seq![':'] + value_text(e.value)
}

/// An entry that can be written as a line and read back from it.
pub open spec fn encodable(e: EntryView) -> bool {
    &&& stamp_ok(e.stamp.text)
    &&& rfc3339_day(e.stamp.text) == Some(e.stamp.day)
    &&& !has_char(e.category, ':')
    &&& !has_char(e.category, '\n')
    &&& !has_close(e.category)
    &&& value_readable(e.value)
    &&& !has_char(value_text(e.value), '\n')
    &&& !close_then_colon(value_text(e.value))
}

/// `c` occurs in `s` at or after `k`.
pub open spec fn has_char_from(s: Seq<char>, k: int, c: char) -> bool {
    exists|j: int| k <= j < s.len() && s[j] == c
}

/// `s` holds `] `.
pub open spec fn has_close(s: Seq<char>) -> bool {
    exists|i: int| 0 <= i && i + 1 < s.len() && s[i] == ']' && #[trigger] s[i + 1] == ' '
}

/// `s` holds `] ` with a `:` somewhere after it.
pub open spec fn close_then_colon(s: Seq<char>) -> bool {
    exists|i: int| 0 <= i && i + 1 < s.len() && s[i] == ']' && s[i + 1] == ' ' && #[trigger] has_char_from(s, i + 2, ':')
}

/// A `] ` at `i`, past the opening bracket.
pub open spec fn close_at(s: Seq<char>, i: int) -> bool {
    1 <= i && i + 1 < s.len() && s[i] == ']' && s[i + 1] == ' '
}

/// A `] ` at `i` that a `:` follows: where the timestamp of a line may end.
pub open spec fn stamp_end_at(s: Seq<char>, i: int) -> bool {
    close_at(s, i) && has_char_from(s, i + 2, ':')
}

/// The last place at or before `i` where the timestamp of a line may end.
pub open spec fn find_stamp_end(s: Seq<char>, i: int) -> Option<int>
    decreases i,
{
    if i < 1 {
        None
    } else if stamp_end_at(s, i) {
        Some(i)
    } else {
        find_stamp_end(s, i - 1)
    }
}

/// The first `c` at or after `i`.
pub open spec fn find_char(s: Seq<char>, i: int, c: char) -> Option<int>
    decreases s.len() - i,
{
    if i < 0 || i >= s.len() {
        None
    } else if s[i] == c {
        Some(i)
    } else {
        find_char(s, i + 1, c)
    }
}

/// What reading a line gives: the entry, or why the line cannot be read.
pub open spec fn parse_spec(line: Seq<char>) -> Result<EntryView, TrackError> {
    if has_char(line, '\n') || line.len() == 0 || line[0] != '[' {
        Err(TrackError::MalformedLine)
    } else {
        match find_stamp_end(line, line.len() - 2) {
            None => Err(TrackError::MalformedLine),
            Some(b) => match find_char(line, b + 2, ':') {
                None => Err(TrackError::MalformedLine),
                Some(c) => {
                    let ts = line.subrange(1, b);
                    if !stamp_ok(ts) {
                        Err(TrackError::MalformedTimestamp)
                    } else {
                        match classify_spec(line.skip(c + 1)) {
                            Err(e) => Err(e),
                            Ok(v) => Ok(
                                EntryView {
                                    stamp: StampView { text: ts, day: rfc3339_day(ts).unwrap() },
                                    category: line.subrange(b + 2, c),
                                    value: v,
                                },
                            ),
                        }
                    }
                },
            },
        }
    }
}

proof fn lemma_find_stamp_end_at(s: Seq<char>, i: int, j: int)
    requires
        1 <= j <= i,
        stamp_end_at(s, j),
        forall|k: int| j < k <= i ==> !stamp_end_at(s, k),
    ensures
        find_stamp_end(s, i) == Some(j),
    decreases i - j,
{
    if j < i {
        lemma_find_stamp_end_at(s, i - 1, j);
    }
}

proof fn lemma_find_char_at(s: Seq<char>, i: int, j: int, c: char)
    requires
        0 <= i <= j < s.len(),
        s[j] == c,
        forall|k: int| i <= k < j ==> s[k] != c,
    ensures
        find_char(s, i, c) == Some(j),
    decreases j - i,
{
    if i < j {
        lemma_find_char_at(s, i + 1, j, c);
    }
}

/// Reading the line that an encodable entry is written as gives the entry back.
pub proof fn lemma_line_round_trip(e: EntryView)
    requires
        encodable(e),
    ensures
        parse_spec(line_text(e)) == Ok::<EntryView, TrackError>(e),
{
    let ts = e.stamp.text;
    let cat = e.category;
    let vt = value_text(e.value);
    let line = line_text(e);
    let b: int = 1 + ts.len() as int;
    let c: int = b + 2 + cat.len() as int;
    assert(line.len() == c + 1 + vt.len());
    assert forall|k: int| 0 <= k < ts.len() implies line[1 + k] == #[trigger] ts[k] by {}
    assert forall|k: int| 0 <= k < cat.len() implies line[b + 2 + k] == #[trigger] cat[k] by {}
    assert forall|k: int| 0 <= k < vt.len() implies line[c + 1 + k] == #[trigger] vt[k] by {}
    assert(line[b] == ']' && line[b + 1] == ' ' && line[c] == ':');
    assert(!has_char(line, '\n')) by {
        assert forall|k: int| 0 <= k < line.len() implies line[k] != '\n' by {
            if 1 <= k < b {
                assert(line[k] == ts[k - 1]);
            } else if b + 2 <= k < c {
                assert(line[k] == cat[k - b - 2]);
            } else if c < k {
                assert(line[k] == vt[k - c - 1]);
            }
        }
    }
    assert(has_char_from(line, b + 2, ':'));
    assert forall|k: int| b < k <= line.len() - 2 implies !stamp_end_at(line, k) by {
        if k == b + 1 || k == c {
        } else if k < c {
            if k + 1 < c {
                assert(line[k] == cat[k - b - 2] && line[k + 1] == cat[k - b - 1]);
                if close_at(line, k) {
                    let i = k - b - 2;
                    assert(cat[i] == ']' && cat[i + 1] == ' ');
                    assert(has_close(cat));
                }
            } else {
                assert(line[k + 1] == ':');
            }
        } else if stamp_end_at(line, k) {
            let j = choose|j: int| k + 2 <= j < line.len() && line[j] == ':';
            let i = k - c - 1;
            assert(line[k] == vt[i] && line[k + 1] == vt[i + 1]);
            assert(vt[j - c - 1] == ':');
            assert(has_char_from(vt, i + 2, ':'));
            assert(close_then_colon(vt));
        }
    }
    lemma_find_stamp_end_at(line, line.len() - 2, b);
    assert forall|k: int| b + 2 <= k < c implies line[k] != ':' by {
        assert(line[k] == cat[k - b - 2]);
    }
    lemma_find_char_at(line, b + 2, c, ':');
    assert(line.subrange(1, b) =~= ts);
    assert(line.subrange(b + 2, c) =~= cat);
    assert(line.skip(c + 1) =~= vt);
    lemma_value_round_trip(e.value);
}

proof fn lemma_no_stamp_end(s: Seq<char>, i: int)
    requires
        forall|k: int| 0 <= k < s.len() ==> s[k] != ':',
    ensures
        find_stamp_end(s, i) is None,
    decreases i,
{
    if i >= 1 {
        lemma_no_stamp_end(s, i - 1);
    }
}

proof fn lemma_find_char_reaches(s: Seq<char>, i: int, k: int)
    requires
        0 <= i <= k < s.len(),
        s[k] == ':',
    ensures
        find_char(s, i, ':') is Some,
    decreases k - i,
{
    if s[i] != ':' {
        lemma_find_char_reaches(s, i + 1, k);
    }
}

/// Whether `v` holds `] ` at `i`.
fn close_at_exec(v: &Vec<char>, i: usize) -> (r: bool)
    ensures
        r == close_at(v@, i as int),
{
    1 <= i && i < v.len() && v.len() - i > 1 && v[i] == ']' && v[i + 1] == ' '
}

impl Entry {
    /// The line that this entry is written as, without a line break.
    pub fn serialize(&self) -> (r: String)
        ensures
            r@ == line_text(self@),
    {
        let mut out: Vec<char> = Vec::new();
        out.push('[');
        push_all(&mut out, &chars_of(self.timestamp.text().as_str()));
        out.push(']');
        out.push(' ');
        push_all(&mut out, &chars_of(self.category.as_str()));
        out.push(':');
        push_all(&mut out, &chars_of(self.value.text().as_str()));
        assert(out@ =~= line_text(self@));
        string_of(&out)
    }

    /// Reads an entry from a line.
    pub fn parse(line: &str) -> (r: Result<Entry, TrackError>)
        ensures
            r matches Ok(e) ==> parse_spec(line@) == Ok::<EntryView, TrackError>(e@) && e.timestamp.wf(),
            r matches Err(x) ==> parse_spec(line@) == Err::<EntryView, TrackError>(x),
    {
        let v = chars_of(line);
        let n = v.len();
        if holds_char(&v, '\n') || n == 0 || v[0] != '[' {
            return Err(TrackError::MalformedLine);
        }
        if n < 3 {
            return Err(TrackError::MalformedLine);
        }
        let mut j: usize = n;
        while j > 0 && v[j - 1] != ':'
            invariant
                j <= n == v@.len(),
                forall|k: int| j <= k < n ==> v@[k] != ':',
            decreases j,
        {
            j = j - 1;
        }
        if j == 0 {
            assert(find_stamp_end(v@, n - 2) is None) by {
                lemma_no_stamp_end(v@, n - 2);
            }
            return Err(TrackError::MalformedLine);
        }
        let last_colon = j - 1;
        let mut b: usize = n - 2;
        while b >= 1 && !(close_at_exec(&v, b) && last_colon >= b + 2)
            invariant
                b <= n - 2,
                n == v@.len(),
                last_colon < n,
                v@[last_colon as int] == ':',
                forall|k: int| last_colon < k < n ==> v@[k] != ':',
                find_stamp_end(v@, n - 2) == find_stamp_end(v@, b as int),
            decreases b,
        {
            assert(!stamp_end_at(v@, b as int)) by {
                if stamp_end_at(v@, b as int) {
                    let k = choose|k: int| b + 2 <= k < v@.len() && v@[k] == ':';
                }
            }
            b = b - 1;
        }
        if b == 0 {
            return Err(TrackError::MalformedLine);
        }
        assert(stamp_end_at(v@, b as int));
        let mut c: usize = b + 2;
        while c < n && v[c] != ':'
            invariant
                b + 2 <= c <= n == v@.len(),
                find_char(v@, b + 2, ':') == find_char(v@, c as int, ':'),
            decreases n - c,
        {
            c = c + 1;
        }
        if c >= n {
            proof {
                let k = choose|k: int| b + 2 <= k < v@.len() && v@[k] == ':';
                lemma_find_char_reaches(v@, b + 2, k);
            }
            return Err(TrackError::MalformedLine);
        }
        let ts = string_of(&slice_chars(&v, 1, b));
        let timestamp = match Timestamp::parse(ts.as_str()) {
            Ok(t) => t,
            Err(x) => {
                return Err(x);
            },
        };
        let category = string_of(&slice_chars(&v, b + 2, c));
        let raw = string_of(&slice_chars(&v, c + 1, n));
        assert(raw@ =~= v@.skip(c + 1));
        match classify(raw.as_str()) {
            Ok(value) => Ok(Entry { timestamp, category, value }),
            Err(x) => Err(x),
        }
    }
}

/// The lower-case form of `s`, character by character as Unicode gives it.
pub uninterp spec fn lower_of(s: Seq<char>) -> Seq<char>;

/// Relies on `str::to_lowercase`: the result depends on the characters of `s` alone.
#[verifier::external_body]
fn lowercase(s: &str) -> (r: String)
    ensures
        r@ == lower_of(s@),
{
    s.to_lowercase()
}

/// What making an entry from a category and a raw value gives: the category
/// is lower-cased and the value classified.
pub open spec fn new_entry_spec(stamp: StampView, category: Seq<char>, raw: Seq<char>) -> Result<
    EntryView,
    TrackError,
> {
    let cat = lower_of(category);
    if trim(category).len() == 0 {
        Err(TrackError::EmptyCategory)
    } else if trim(raw).len() == 0 {
        Err(TrackError::EmptyValue)
    } else if has_char(cat, ':') || has_char(cat, '\n') || has_close(cat) {
        Err(TrackError::InvalidCategory)
    } else if has_char(trim(raw), '\n') {
        Err(TrackError::InvalidValue)
    } else {
        match classify_spec(raw) {
            Err(e) => Err(e),
            Ok(v) => if close_then_colon(value_text(v)) {
                Err(TrackError::InvalidValue)
            } else {
                Ok(EntryView { stamp, category: cat, value: v })
            },
        }
    }
}

/// Makes an entry at `timestamp` from a category and a raw value.
pub fn new_entry(timestamp: Timestamp, category: &str, value: &str) -> (r: Result<Entry, TrackError>)
    requires
        timestamp.wf(),
    ensures
        r matches Ok(e) ==> new_entry_spec(timestamp@, category@, value@) == Ok::<EntryView, TrackError>(e@)
            && encodable(e@) && e.timestamp.wf(),
        r matches Err(x) ==> new_entry_spec(timestamp@, category@, value@) == Err::<EntryView, TrackError>(x),
{
    let cat_trimmed = trim_chars(&chars_of(category));
    if cat_trimmed.len() == 0 {
        return Err(TrackError::EmptyCategory);
    }
    let trimmed = trim_chars(&chars_of(value));
    if trimmed.len() == 0 {
        return Err(TrackError::EmptyValue);
    }
    let cat = lowercase(category);
    let lowered = chars_of(cat.as_str());
    if holds_char(&lowered, ':') || holds_char(&lowered, '\n') || holds_close(&lowered) {
        return Err(TrackError::InvalidCategory);
    }
    if holds_char(&trimmed, '\n') {
        return Err(TrackError::InvalidValue);
    }
    let v = match classify(value) {
        Ok(v) => v,
        Err(x) => {
            return Err(x);
        },
    };
    proof {
        lemma_classified_readable(value@);
        let t = trim(value@);
        match v@ {
            ValueView::Quantity(m, u) => {
                let k = numeric_len(t) as int;
                lemma_run_len_stops(t, |c: char| crate::magnitude::is_numeric_char(c));
                assert(u == t.skip(k));
                assert(!has_char(t, '\n'));
                lemma_magnitude_round_trip(m);
                let vt = value_text(v@);
                assert forall|i: int| 0 <= i < vt.len() implies vt[i] != '\n' by {
                    if i >= crate::magnitude::magnitude_text(m).len() {
                        let j = i - crate::magnitude::magnitude_text(m).len();
                        assert(vt[i] == u[j]);
                        assert(u[j] == t[k + j]);
                    } else {
                        assert(vt[i] == crate::magnitude::magnitude_text(m)[i]);
                    }
                }
            },
            ValueView::Log(_) => {},
        }
    }
    if close_before_colon(&chars_of(v.text().as_str())) {
        return Err(TrackError::InvalidValue);
    }
    Ok(Entry { timestamp, category: cat, value: v })
}

/// Whether `v` holds `] `.
fn holds_close(v: &Vec<char>) -> (r: bool)
    ensures
        r == has_close(v@),
{
    let mut i: usize = 0;
    while v.len() > 0 && i < v.len() - 1
        invariant
            forall|k: int| 0 <= k < i && k + 1 < v@.len() ==> !(v@[k] == ']' && #[trigger] v@[k + 1] == ' '),
        decreases v@.len() - i,
    {
        if v[i] == ']' && v[i + 1] == ' ' {
            return true;
        }
        i = i + 1;
    }
    false
}

/// Whether `v` holds `] ` with a `:` after it.
fn close_before_colon(v: &Vec<char>) -> (r: bool)
    ensures
        r == close_then_colon(v@),
{
    let n = v.len();
    let mut j: usize = n;
    while j > 0 && v[j - 1] != ':'
        invariant
            j <= n == v@.len(),
            forall|k: int| j <= k < n ==> v@[k] != ':',
        decreases j,
    {
        j = j - 1;
    }
    if j == 0 {
        assert forall|k: int| 0 <= k < n implies v@[k] != ':' by {}
        return false;
    }
    let last_colon = j - 1;
    let mut i: usize = 0;
    while n > 0 && i < n - 1
        invariant
            n == v@.len(),
            last_colon < n,
            v@[last_colon as int] == ':',
            forall|k: int| last_colon < k < n ==> v@[k] != ':',
            forall|k: int| 0 <= k < i && k + 1 < n && v@[k] == ']' && v@[k + 1] == ' ' ==> !#[trigger] has_char_from(v@, k + 2, ':'),
        decreases n - i,
    {
        if v[i] == ']' && v[i + 1] == ' ' && last_colon >= i + 2 {
            assert(has_char_from(v@, i + 2, ':'));
            return true;
        }
        i = i + 1;
    }
    false
}

/// A line that could not be read, and why.
#[derive(Debug)]
pub struct LineError {
    pub line: String,
    pub error: TrackError,
}

/// What reading the lines of a file gives: the entries of its non-empty
/// lines in order, or the first line that cannot be read and why.
pub open spec fn load_spec(lines: Seq<Seq<char>>) -> Result<Seq<EntryView>, (Seq<char>, TrackError)>
    decreases lines.len(),
{
    if lines.len() == 0 {
        Ok(Seq::empty())
    } else {
        match load_spec(lines.drop_last()) {
            Err(x) => Err(x),
            Ok(es) => {
                let l = lines.last();
                if l.len() == 0 {
                    Ok(es)
                } else {
                    match parse_spec(l) {
                        Ok(e) => Ok(es.push(e)),
                        Err(k) => Err((l, k)),
                    }
                }
            },
        }
    }
}

pub open spec fn line_views(lines: Seq<String>) -> Seq<Seq<char>> {
    lines.map_values(|l: String| l@)
}

pub open spec fn entry_views(es: Seq<Entry>) -> Seq<EntryView> {
    es.map_values(|e: Entry| e@)
}

proof fn lemma_load_error_stays(lines: Seq<Seq<char>>, i: int)
    requires
        0 <= i <= lines.len(),
        load_spec(lines.take(i)) is Err,
    ensures
        load_spec(lines) == load_spec(lines.take(i)),
    decreases lines.len(),
{
    if i == lines.len() {
        assert(lines.take(i) =~= lines);
    } else {
        assert(lines.drop_last().take(i) =~= lines.take(i));
        lemma_load_error_stays(lines.drop_last(), i);
    }
}

/// Reads the entries of the lines of a file, skipping empty lines; the first
/// line that cannot be read fails the whole load.
pub fn load_entries(lines: &Vec<String>) -> (r: Result<Vec<Entry>, LineError>)
    ensures
        r matches Ok(es) ==> load_spec(line_views(lines@)) == Ok::<Seq<EntryView>, (Seq<char>, TrackError)>(
            entry_views(es@),
        ) && forall|i: int| 0 <= i < es@.len() ==> (#[trigger] es@[i]).timestamp.wf(),
        r matches Err(x) ==> load_spec(line_views(lines@)) == Err::<Seq<EntryView>, (Seq<char>, TrackError)>(
            (x.line@, x.error),
        ),
{
    let ghost ls = line_views(lines@);
    let mut out: Vec<Entry> = Vec::new();
    let mut i: usize = 0;
    assert(ls.take(0) =~= Seq::<Seq<char>>::empty());
    assert(entry_views(out@) =~= Seq::<EntryView>::empty());
    while i < lines.len()
        invariant
            i <= lines@.len(),
            ls == line_views(lines@),
            load_spec(ls.take(i as int)) == Ok::<Seq<EntryView>, (Seq<char>, TrackError)>(entry_views(out@)),
            forall|k: int| 0 <= k < out@.len() ==> (#[trigger] out@[k]).timestamp.wf(),
        decreases lines@.len() - i,
    {
        let line = &lines[i];
        assert(ls.take(i + 1).drop_last() =~= ls.take(i as int));
        assert(ls.take(i + 1).last() == line@);
        if line.as_str().unicode_len() != 0 {
            match Entry::parse(line.as_str()) {
                Ok(e) => {
                    let ghost before = out@;
                    let ghost ev = e@;
                    out.push(e);
                    assert(entry_views(out@) =~= entry_views(before).push(ev));
                },
                Err(x) => {
                    proof {
                        lemma_load_error_stays(ls, i + 1);
                    }
                    return Err(LineError { line: line.clone(), error: x });
                },
            }
        }
        i = i + 1;
    }
    assert(ls.take(lines@.len() as int) =~= ls);
    Ok(out)
}

} // verus!
