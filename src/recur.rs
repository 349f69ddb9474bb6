//! The recurrence engine: the next date of a repeating todo, and the todo
//! line that carries it into the daily note.
use vstd::prelude::*;

use chrono::Datelike;

use vstd::string::StringExecFns;

use crate::extract::TodoFacts;
use crate::carry::{recurring_line, recurring_todo_line};
use crate::index::Todo;
use crate::text::{chars_of, lower_of, string_of, to_lower};

verus! {

/// A calendar date.
pub struct Date {
    pub year: i32,
    pub month: u32,
    pub day: u32,
}

impl View for Date {
    type V = (int, int, int);

    open spec fn view(&self) -> (int, int, int) {
        (self.year as int, self.month as int, self.day as int)
    }
}

/// What chrono makes of a date moved by a number of days: `None` when the
/// date or the result lies outside its calendar.
pub uninterp spec fn days_later(d: (int, int, int), n: int) -> Option<(int, int, int)>;

/// Relies on chrono's `NaiveDate::from_ymd_opt`, `TimeDelta::try_days` and
/// `NaiveDate::checked_add_signed`: calendar arithmetic on the proleptic
/// Gregorian calendar, a function of the date and the count alone, whose
/// results have a month from 1 to 12 and a day from 1 to 31.
#[verifier::external_body]
fn add_days(d: &Date, n: i64) -> (r: Option<Date>)
    ensures
        match r {
            Some(x) => days_later(d@, n as int) == Some(x@) && 1 <= x.month <= 12 && 1 <= x.day
                <= 31,
            None => days_later(d@, n as int) is None,
        },
{
    let date = chrono::NaiveDate::from_ymd_opt(d.year, d.month, d.day)?;
    let next = date.checked_add_signed(chrono::TimeDelta::try_days(n)?)?;
    Some(Date { year: next.year(), month: next.month(), day: next.day() })
}

/// The weekday of a date as chrono counts it, Monday being 0; `None` when
/// the date is not in its calendar.
pub uninterp spec fn weekday_of(d: (int, int, int)) -> Option<int>;

/// Relies on chrono's `NaiveDate::from_ymd_opt` and
/// `Weekday::num_days_from_monday`, which counts from Monday as 0 to Sunday
/// as 6.
#[verifier::external_body]
fn weekday_index(d: &Date) -> (r: Option<u32>)
    ensures
        match r {
            Some(w) => weekday_of(d@) == Some(w as int) && w < 7,
            None => weekday_of(d@) is None,
        },
{
    chrono::NaiveDate::from_ymd_opt(d.year, d.month, d.day).map(|x| x.weekday().num_days_from_monday())
}

/// The weekday names, Monday first.
pub open spec fn weekday_name(k: int) -> Seq<char> {
    if k == 0 {
        "monday"@
    } else if k == 1 {
        "tuesday"@
    } else if k == 2 {
        "wednesday"@
    } else if k == 3 {
        "thursday"@
    } else if k == 4 {
        "friday"@
    } else if k == 5 {
        "saturday"@
    } else {
        "sunday"@
    }
}

/// Days from weekday `w` to the next weekday `k`: a full week when they are
/// the same day.
pub open spec fn days_ahead(k: int, w: int) -> int {
    if (k - w + 7) % 7 == 0 {
        7
    } else {
        (k - w + 7) % 7
    }
}

/// The next date of a recurrence pattern, read without regard to case:
/// `daily` the next day, `weekly` seven days on, `monthly` the same day of
/// the next month (thirty days on past the 28th), a weekday name its next
/// occurrence after today.
pub open spec fn next_date(pattern: Seq<char>, today: (int, int, int)) -> Option<(int, int, int)> {
    let p = lower_of(pattern);
    if p == "daily"@ {
        days_later(today, 1)
    } else if p == "weekly"@ {
        days_later(today, 7)
    } else if p == "monthly"@ {
        if today.2 <= 28 {
            if today.1 == 12 {
                Some((today.0 + 1, 1, today.2))
            } else {
                Some((today.0, today.1 + 1, today.2))
            }
        } else {
            days_later(today, 30)
        }
    } else if exists|k: int| 0 <= k < 7 && p == weekday_name(k) {
        let k = choose|k: int| 0 <= k < 7 && p == weekday_name(k);
        match weekday_of(today) {
            Some(w) => days_later(today, days_ahead(k, w)),
            None => None,
        }
    } else {
        None
    }
}

proof fn lemma_weekday_names_differ()
    ensures
        forall|a: int, b: int|
            0 <= a < 7 && 0 <= b < 7 && a != b ==> #[trigger] weekday_name(a) != #[trigger] weekday_name(b),
{
    reveal_strlit("monday");
    reveal_strlit("tuesday");
    reveal_strlit("wednesday");
    reveal_strlit("thursday");
    reveal_strlit("friday");
    reveal_strlit("saturday");
    reveal_strlit("sunday");
    assert forall|a: int, b: int|
        0 <= a < 7 && 0 <= b < 7 && a != b implies #[trigger] weekday_name(a) != #[trigger] weekday_name(b) by {
        let x = weekday_name(a);
        let y = weekday_name(b);
        if x.len() == y.len() {
            if x[0] == y[0] {
                assert(x[1] != y[1]);
            }
        }
    }
}

pub open spec fn digit_char(n: int) -> char {
    ((n % 10) + 48) as char
}

/// A date written `YYYY-MM-DD`, zero-padded.
pub open spec fn date_text(d: (int, int, int)) -> Seq<char> {
    seq![
        digit_char(d.0 / 1000),
        digit_char(d.0 / 100),
        digit_char(d.0 / 10),
        digit_char(d.0),
        '-',
        digit_char(d.1 / 10),
        digit_char(d.1),
        '-',
        digit_char(d.2 / 10),
        digit_char(d.2),
    ]
}

/// A date that `date_text` writes as chrono does: a year of four digits.
pub open spec fn writable(d: (int, int, int)) -> bool {
    0 <= d.0 <= 9999 && 1 <= d.1 <= 12 && 1 <= d.2 <= 31
}

fn digit_of(n: u32) -> (r: char)
    ensures
        r == digit_char(n as int),
{
    let d = n % 10;
    let c = (d + 48) as u8 as char;
    c
}

/// Writes a date as `YYYY-MM-DD`.
pub fn format_date(d: &Date) -> (r: String)
    requires
        writable(d@),
    ensures
        r@ == date_text(d@),
{
    let y = d.year as u32;
    let v: Vec<char> = vec![
        digit_of(y / 1000),
        digit_of(y / 100),
        digit_of(y / 10),
        digit_of(y),
        '-',
        digit_of(d.month / 10),
        digit_of(d.month),
        '-',
        digit_of(d.day / 10),
        digit_of(d.day),
    ];
    assert(v@ =~= date_text(d@));
    string_of(v.as_slice())
}

fn same_text(a: &Vec<char>, lit: &str) -> (r: bool)
    ensures
        r == (a@ == lit@),
{
    let b = chars_of(lit);
    if a.len() != b.len() {
        return false;
    }
    let mut i: usize = 0;
    while i < a.len()
        invariant
            a@.len() == b@.len(),
            b@ == lit@,
            i <= a@.len(),
            forall|k: int| 0 <= k < i ==> a@[k] == b@[k],
        decreases a@.len() - i,
    {
        if a[i] != b[i] {
            return false;
        }
        i = i + 1;
    }
    assert(a@ =~= b@);
    true
}

fn weekday_number(p: &Vec<char>) -> (r: Option<u32>)
    ensures
        match r {
            Some(k) => k < 7 && p@ == weekday_name(k as int),
            None => forall|k: int| 0 <= k < 7 ==> p@ != weekday_name(k),
        },
{
    if same_text(p, "monday") {
        return Some(0);
    }
    if same_text(p, "tuesday") {
        return Some(1);
    }
    if same_text(p, "wednesday") {
        return Some(2);
    }
    if same_text(p, "thursday") {
        return Some(3);
    }
    if same_text(p, "friday") {
        return Some(4);
    }
    if same_text(p, "saturday") {
        return Some(5);
    }
    if same_text(p, "sunday") {
        return Some(6);
    }
    None
}

/// The next date of a recurrence pattern from `today`.
pub fn next_occurrence(pattern: &str, today: &Date) -> (r: Option<Date>)
    requires
        writable(today@),
    ensures
        match r {
            Some(x) => next_date(pattern@, today@) == Some(x@) && 1 <= x.month <= 12 && 1 <= x.day
                <= 31,
            None => next_date(pattern@, today@) is None,
        },
{
    let lowered = to_lower(pattern);
    let p = chars_of(lowered.as_str());
    if same_text(&p, "daily") {
        add_days(today, 1)
    } else if same_text(&p, "weekly") {
        add_days(today, 7)
    } else if same_text(&p, "monthly") {
        if today.day <= 28 {
            if today.month == 12 {
                Some(Date { year: today.year + 1, month: 1, day: today.day })
            } else {
                Some(Date { year: today.year, month: today.month + 1, day: today.day })
            }
        } else {
            add_days(today, 30)
        }
    } else {
        match weekday_number(&p) {
            Some(k) => {
                proof {
                    lemma_weekday_names_differ();
                    let c = choose|c: int| 0 <= c < 7 && p@ == weekday_name(c);
                    assert(c == k as int);
                }
                match weekday_index(today) {
                    Some(w) => {
                        let until = (k + 7 - w) % 7;
                        let ahead = if until == 0 {
                            7
                        } else {
                            until
                        };
                        assert(ahead as int == days_ahead(k as int, w as int));
                        add_days(today, ahead as i64)
                    },
                    None => None,
                }
            },
            None => None,
        }
    }
}

/// The next due date of a recurrence pattern, written `YYYY-MM-DD`;
/// `None` when the pattern is not one of the known ones, or the date falls
/// outside the years that four digits write.
pub fn calculate_next_occurrence(pattern: &str, today: &Date) -> (r: Option<String>)
    requires
        writable(today@),
    ensures
        match next_date(pattern@, today@) {
            Some(d) => if writable(d) {
                r is Some && r.unwrap()@ == date_text(d)
            } else {
                r is None
            },
            None => r is None,
        },
{
    match next_occurrence(pattern, today) {
        Some(d) => {
            if d.year >= 0 && d.year <= 9999 {
                Some(format_date(&d))
            } else {
                None
            }
        },
        None => None,
    }
}

// ---------------------------------------------------------------- todo lines

/// A note with a line appended: a newline first unless it ends with one.
pub open spec fn appended(note: Seq<char>, line: Seq<char>) -> Seq<char> {
    let head = if note.len() > 0 && note.last() == '\n' {
        note
    } else {
        note + "\n"@
    };
    head + line + "\n"@
}

/// The daily note that a date starts with.
pub open spec fn daily_template(date: Seq<char>) -> Seq<char> {
    "# "@ + date + "\n\n## Tasks\n\n"@
}

fn text_of(s: &str) -> (r: String)
    ensures
        r@ == s@,
{
    String::from_str(s)
}

/// Appends a line to the text of a note.
pub fn append_line(note: &str, line: &str) -> (r: String)
    ensures
        r@ == appended(note@, line@),
{
    let mut out = text_of(note);
    let n = note.unicode_len();
    if !(n > 0 && note.get_char(n - 1) == '\n') {
        out.append("\n");
    }
    out.append(line);
    out.append("\n");
    out
}

/// The text a new daily note starts with.
pub fn daily_note_template(date: &str) -> (r: String)
    ensures
        r@ == daily_template(date@),
{
    let mut out = text_of("# ");
    out.append(date);
    out.append("\n\n## Tasks\n\n");
    out
}

/// The due date that a recurring todo's next instance carries.
pub open spec fn next_due_text(pattern: Seq<char>, today: (int, int, int)) -> Option<Seq<char>> {
    match next_date(pattern, today) {
        Some(d) => if writable(d) {
            Some(date_text(d))
        } else {
            None
        },
        None => None,
    }
}

/// The daily note of `today` after a completed recurring todo hands its
/// next instance on: the note as it is, or a fresh one, with the new open
/// todo line appended. A pattern that gives no next date (one that is not
/// known, or a date past year 9999) still gets its line, without a due
/// date. `None` only for a todo that has no recurrence pattern.
pub open spec fn next_instance_note(
    todo: TodoFacts,
    today: (int, int, int),
    existing: Option<Seq<char>>,
) -> Option<Seq<char>> {
    match todo.recurrence {
        Some(p) => {
            let note = match existing {
                Some(e) => e,
                None => daily_template(date_text(today)),
            };
            Some(appended(note, recurring_line(todo.content, todo.priority, next_due_text(p, today))))
        },
        None => None,
    }
}

fn opt_str(o: &Option<String>) -> (r: Option<&str>)
    ensures
        match r {
            Some(x) => o is Some && x@ == o.unwrap()@,
            None => o is None,
        },
{
    match o {
        Some(s) => Some(s.as_str()),
        None => None,
    }
}

/// The text of today's daily note once the next instance of a completed
/// recurring todo is appended to it; `existing` is the note as it is on
/// disk, if it exists.
pub fn recurring_instance(todo: &Todo, today: &Date, existing: Option<&str>) -> (r: Option<String>)
    requires
        writable(today@),
    ensures
        r matches Some(t) ==> next_instance_note(todo@.1, today@, match existing {
            Some(e) => Some(e@),
            None => None,
        }) == Some(t@),
        r is None ==> next_instance_note(todo@.1, today@, match existing {
            Some(e) => Some(e@),
            None => None,
        }) is None,
{
    let pattern = match &todo.recurrence_pattern {
        Some(p) => p,
        None => return None,
    };
    let due = calculate_next_occurrence(pattern.as_str(), today);
    let today_text = format_date(today);
    let note = match existing {
        Some(e) => text_of(e),
        None => daily_note_template(today_text.as_str()),
    };
    let line = recurring_todo_line(todo.content.as_str(), opt_str(&todo.priority), opt_str(&due));
    Some(append_line(note.as_str(), line.as_str()))
}

/// A written date has the shape that the extractor reads as a due date.
pub proof fn lemma_date_text_shape(d: (int, int, int))
    requires
        writable(d),
    ensures
        crate::carry::is_date_text(date_text(d)),
{
    let t = date_text(d);
    assert forall|n: int| 0 <= n implies '0' <= #[trigger] digit_char(n) <= '9' by {
        assert(0 <= n % 10 < 10);
    }
    assert(crate::extract::digit(t, 0) && crate::extract::digit(t, 1) && crate::extract::digit(t, 2)
        && crate::extract::digit(t, 3));
    assert(crate::extract::digit(t, 5) && crate::extract::digit(t, 6) && crate::extract::digit(t, 8)
        && crate::extract::digit(t, 9));
}

} // verus!
