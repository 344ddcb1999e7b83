//! Calendar dates, and the positional heuristic that reads a date out of text.

use vstd::prelude::*;
use vstd::string::StrSliceExecFns;

verus! {

/// Smallest year that a calendar date may carry.
pub const MIN_YEAR: i32 = -262143;

/// Largest year that a calendar date may carry.
pub const MAX_YEAR: i32 = 262142;

/// Gregorian leap year.
pub open spec fn is_leap_year(year: int) -> bool {
    (year % 4 == 0 && year % 100 != 0) || year % 400 == 0
}

/// Number of days of a month (1 to 12) in the given year.
pub open spec fn days_in_month(year: int, month: int) -> int {
    if month == 2 {
        if is_leap_year(year) { 29 } else { 28 }
    } else if month == 4 || month == 6 || month == 9 || month == 11 {
        30
    } else {
        31
    }
}

/// The triple names an existing day of the proleptic Gregorian calendar in the
/// supported year range.
pub open spec fn is_valid_ymd(year: int, month: int, day: int) -> bool {
    &&& MIN_YEAR <= year <= MAX_YEAR
    &&& 1 <= month <= 12
    &&& 1 <= day <= days_in_month(year, month)
}

/// Relies on chrono's `NaiveDate::from_ymd_opt`, which gives a date exactly when
/// the year is in range and the month and day exist in that year.
#[verifier::external_body]
fn ymd_is_valid(year: i32, month: u32, day: u32) -> (r: bool)
    ensures
        r == is_valid_ymd(year as int, month as int, day as int),
{
    chrono::NaiveDate::from_ymd_opt(year, month, day).is_some()
}

/// A calendar date.
#[derive(Clone, Copy, Debug, PartialEq, Eq, Structural)]
pub struct CalendarDate {
    pub year: i32,
    pub month: u32,
    pub day: u32,
}

impl CalendarDate {
    pub open spec fn wf(self) -> bool {
        is_valid_ymd(self.year as int, self.month as int, self.day as int)
    }

    /// Chronological order: `self` is strictly before `other`.
    pub open spec fn spec_before(self, other: CalendarDate) -> bool {
        self.year < other.year || (self.year == other.year && (self.month < other.month || (
        self.month == other.month && self.day < other.day)))
    }

    /// Builds the date when the triple names an existing day.
    pub fn from_ymd(year: i32, month: u32, day: u32) -> (r: Option<CalendarDate>)
        ensures
            r == (if is_valid_ymd(year as int, month as int, day as int) {
                Some(CalendarDate { year, month, day })
            } else {
                None::<CalendarDate>
            }),
    {
        if ymd_is_valid(year, month, day) {
            Some(CalendarDate { year, month, day })
        } else {
            None
        }
    }

    /// Whether `self` comes strictly before `other`.
    pub fn is_before(&self, other: &CalendarDate) -> (r: bool)
        ensures
            r == self.spec_before(*other),
    {
        self.year < other.year || (self.year == other.year && (self.month < other.month || (
        self.month == other.month && self.day < other.day)))
    }
}

/// A date being assembled from digit runs: each part is set once it is read.
pub struct PossibleDate {
    pub year: Option<i32>,
    pub month: Option<u32>,
    pub day: Option<u32>,
}

impl PossibleDate {
    /// A date with no part read yet.
    pub open spec fn blank() -> PossibleDate {
        PossibleDate { year: None, month: None, day: None }
    }

    /// Returns a date with year, month and day all unset.
    pub fn new() -> (r: PossibleDate)
        ensures
            r == PossibleDate::blank(),
    {
        PossibleDate { year: None, month: None, day: None }
    }

    /// The year, if read.
    pub fn get_year(&self) -> (r: Option<i32>)
        ensures
            r == self.year,
    {
        self.year
    }

    /// The month, if read.
    pub fn get_month(&self) -> (r: Option<u32>)
        ensures
            r == self.month,
    {
        self.month
    }

    /// The day, if read.
    pub fn get_day(&self) -> (r: Option<u32>)
        ensures
            r == self.day,
    {
        self.day
    }

    /// Sets the year.
    pub fn set_year(&mut self, year: i32)
        ensures
            *final(self) == (PossibleDate { year: Some(year), ..*old(self) }),
    {
        self.year = Some(year);
    }

    /// Sets the month.
    pub fn set_month(&mut self, month: u32)
        ensures
            *final(self) == (PossibleDate { month: Some(month), ..*old(self) }),
    {
        self.month = Some(month);
    }

    /// Sets the day.
    pub fn set_day(&mut self, day: u32)
        ensures
            *final(self) == (PossibleDate { day: Some(day), ..*old(self) }),
    {
        self.day = Some(day);
    }
}

/// An ASCII decimal digit.
pub open spec fn is_digit_char(c: char) -> bool {
    '0' <= c && c <= '9'
}

/// The pieces of `s` between its non-digit characters, in order; `n`
/// separators give `n + 1` pieces, some of them possibly empty.
pub open spec fn digit_tokens(s: Seq<char>) -> Seq<Seq<char>>
    decreases s.len(),
{
    if s.len() == 0 {
        seq![Seq::<char>::empty()]
    } else {
        let prev = digit_tokens(s.drop_last());
        if is_digit_char(s.last()) {
            prev.update(prev.len() - 1, prev.last().push(s.last()))
        } else {
            prev.push(Seq::<char>::empty())
        }
    }
}

/// The number that a run of decimal digits writes.
pub open spec fn digits_value(t: Seq<char>) -> int
    decreases t.len(),
{
    if t.len() == 0 {
        0
    } else {
        10 * digits_value(t.drop_last()) + (t.last() as u32 - '0' as u32)
    }
}

/// Reads one digit run into a partial date: a run of four digits is the year
/// unless a year is set; any other run is day then month while no year is set,
/// month then day once a year is set. `None` when the run is not a `u32`.
pub open spec fn place_token(acc: PossibleDate, tok: Seq<char>) -> Option<PossibleDate> {
    if tok.len() == 4 {
        if acc.year is None {
            Some(PossibleDate { year: Some(digits_value(tok) as i32), ..acc })
        } else {
            Some(acc)
        }
    } else if tok.len() == 0 || digits_value(tok) > u32::MAX {
        None
    } else {
        let v = digits_value(tok) as u32;
        if acc.year is None {
            if acc.day is None {
                Some(PossibleDate { day: Some(v), ..acc })
            } else {
                Some(PossibleDate { month: Some(v), ..acc })
            }
        } else if acc.month is None {
            Some(PossibleDate { month: Some(v), ..acc })
        } else {
            Some(PossibleDate { day: Some(v), ..acc })
        }
    }
}

/// Reads the runs in order into a blank partial date.
pub open spec fn assemble_date(tokens: Seq<Seq<char>>) -> Option<PossibleDate>
    decreases tokens.len(),
{
    if tokens.len() == 0 {
        Some(PossibleDate::blank())
    } else {
        match assemble_date(tokens.drop_last()) {
            Some(acc) => place_token(acc, tokens.last()),
            None => None,
        }
    }
}

/// The date that the heuristic reads from `s`: the first three digit runs,
/// placed by position, must set year, month and day to an existing date.
pub open spec fn date_of_text(s: Seq<char>) -> Option<CalendarDate> {
    let toks = digit_tokens(s);
    let first = if toks.len() <= 3 { toks } else { toks.take(3) };
    match assemble_date(first) {
        Some(p) => if p.year is Some && p.month is Some && p.day is Some && is_valid_ymd(
            p.year->0 as int,
            p.month->0 as int,
            p.day->0 as int,
        ) {
            Some(CalendarDate { year: p.year->0, month: p.month->0, day: p.day->0 })
        } else {
            None
        },
        None => None,
    }
}

/// Ten to the power `n`.
pub open spec fn pow10(n: nat) -> int
    decreases n,
{
    if n == 0 { 1 } else { 10 * pow10((n - 1) as nat) }
}

/// The value of a digit run as tracked while it is read: exact up to
/// `u32::MAX`, and one above that for any larger run, which is no `u32`.
spec fn capped(v: int) -> int {
    if v > u32::MAX { u32::MAX + 1 } else { v }
}

proof fn lemma_tokens_step(s: Seq<char>, i: int)
    requires
        0 <= i < s.len(),
    ensures
        s.subrange(0, i + 1).drop_last() == s.subrange(0, i),
        s.subrange(0, i + 1).last() == s[i],
{
    assert(s.subrange(0, i + 1).drop_last() =~= s.subrange(0, i));
}

proof fn lemma_tokens_nonempty(s: Seq<char>)
    ensures
        digit_tokens(s).len() >= 1,
    decreases s.len(),
{
    if s.len() > 0 {
        lemma_tokens_nonempty(s.drop_last());
    }
}

/// The completed runs of a prefix stay, unchanged, at the front of the runs of
/// any longer prefix.
proof fn lemma_tokens_prefix(s: Seq<char>, i: int, j: int)
    requires
        0 <= i <= j <= s.len(),
    ensures
        digit_tokens(s.subrange(0, i)).len() <= digit_tokens(s.subrange(0, j)).len(),
        forall|k: int|
            0 <= k < digit_tokens(s.subrange(0, i)).len() - 1 ==> digit_tokens(s.subrange(0, j))[k]
                == digit_tokens(s.subrange(0, i))[k],
    decreases j - i,
{
    if i < j {
        lemma_tokens_prefix(s, i, j - 1);
        lemma_tokens_step(s, j - 1);
        lemma_tokens_nonempty(s.subrange(0, j - 1));
    }
}

/// Reads a digit run, of `len` characters and capped value `val`, into `acc`;
/// false when the run is not a `u32`.
fn place_run(acc: &mut PossibleDate, len: usize, val: u64, Ghost(tok): Ghost<Seq<char>>) -> (r: bool)
    requires
        len == tok.len(),
        val == capped(digits_value(tok)),
        0 <= digits_value(tok),
        tok.len() <= 4 ==> digits_value(tok) < pow10(tok.len()),
    ensures
        r == place_token(*old(acc), tok) is Some,
        r ==> *final(acc) == place_token(*old(acc), tok)->0,
{
    if len == 4 {
        assert(pow10(4) == 10000) by {
            reveal_with_fuel(pow10, 5);
        }
        if acc.year.is_none() {
            acc.set_year(val as i32);
        }
        true
    } else if len == 0 || val > u32::MAX as u64 {
        false
    } else {
        if acc.year.is_none() {
            if acc.day.is_none() {
                acc.set_day(val as u32);
            } else {
                acc.set_month(val as u32);
            }
        } else if acc.month.is_none() {
            acc.set_month(val as u32);
        } else {
            acc.set_day(val as u32);
        }
        true
    }
}

/// Reads a calendar date out of `text` by the positions and lengths of its
/// first three digit runs (`2021-05-01`, `1-5-2021`, `01/05/2021`).
pub fn parse_date_from_text(text: &str) -> (r: Option<CalendarDate>)
    ensures
        r == date_of_text(text@),
{
    let ghost s = text@;
    let n = text.unicode_len();
    let mut acc = PossibleDate::new();
    let mut ok = true;
    let mut done: usize = 0;
    let mut cur_len: usize = 0;
    let mut cur_val: u64 = 0;
    let mut i: usize = 0;
    while i < n && done < 3
        invariant
            n == s.len(),
            s == text@,
            0 <= i <= n,
            done <= 3,
            digit_tokens(s.subrange(0, i as int)).len() == done + 1,
            cur_len == digit_tokens(s.subrange(0, i as int)).last().len(),
            0 <= digits_value(digit_tokens(s.subrange(0, i as int)).last()),
            cur_len <= i,
            cur_len <= 4 ==> digits_value(digit_tokens(s.subrange(0, i as int)).last()) < pow10(
                cur_len as nat,
            ),
            cur_val == capped(digits_value(digit_tokens(s.subrange(0, i as int)).last())),
            ok ==> assemble_date(digit_tokens(s.subrange(0, i as int)).drop_last()) == Some(acc),
            !ok ==> assemble_date(digit_tokens(s.subrange(0, i as int)).drop_last()) is None,
        decreases n - i,
    {
        let c = text.get_char(i);
        proof {
            lemma_tokens_step(s, i as int);
        }
        let ghost prev = digit_tokens(s.subrange(0, i as int));
        let ghost next = digit_tokens(s.subrange(0, i + 1));
        if '0' <= c && c <= '9' {
            let d = (c as u32 - '0' as u32) as u64;
            let ghost tok = prev.last();
            assert(next.last() == tok.push(c));
            assert(next.drop_last() =~= prev.drop_last());
            assert(tok.push(c).drop_last() =~= tok);
            if cur_val <= u32::MAX as u64 {
                cur_val = cur_val * 10 + d;
                if cur_val > u32::MAX as u64 {
                    cur_val = u32::MAX as u64 + 1;
                }
            }
            cur_len = cur_len + 1;
        } else {
            let ghost tok = prev.last();
            assert(next.drop_last() =~= prev);
            assert(prev.drop_last().push(tok) =~= prev);
            if ok {
                ok = place_run(&mut acc, cur_len, cur_val, Ghost(tok));
            }
            done = done + 1;
            cur_len = 0;
            cur_val = 0;
        }
        i = i + 1;
    }
    let ghost prefix = s.subrange(0, i as int);
    let ghost toks = digit_tokens(s);
    proof {
        lemma_tokens_prefix(s, i as int, n as int);
        assert(s.subrange(0, n as int) =~= s);
    }
    if done < 3 {
        assert(prefix =~= s);
        let ghost tok = toks.last();
        assert(toks.drop_last().push(tok) =~= toks);
        if ok {
            ok = place_run(&mut acc, cur_len, cur_val, Ghost(tok));
        }
    } else {
        assert(toks.take(3) =~= digit_tokens(prefix).drop_last());
    }
    if ok {
        match (acc.year, acc.month, acc.day) {
            (Some(y), Some(m), Some(d)) => CalendarDate::from_ymd(y, m, d),
            _ => None,
        }
    } else {
        None
    }
}

/// Every character of `t` is a decimal digit.
pub open spec fn all_digits(t: Seq<char>) -> bool {
    forall|k: int| 0 <= k < t.len() ==> is_digit_char(#[trigger] t[k])
}

/// `t` is a run of decimal digits that writes `n`.
pub open spec fn writes_number(t: Seq<char>, n: int) -> bool {
    all_digits(t) && digits_value(t) == n
}

/// Appending digits extends the last run.
proof fn lemma_tokens_append_digits(p: Seq<char>, t: Seq<char>)
    requires
        all_digits(t),
    ensures
        digit_tokens(p + t) == digit_tokens(p).drop_last().push(digit_tokens(p).last() + t),
    decreases t.len(),
{
    lemma_tokens_nonempty(p);
    if t.len() == 0 {
        assert(p + t =~= p);
        assert(digit_tokens(p).last() + t =~= digit_tokens(p).last());
        assert(digit_tokens(p).drop_last().push(digit_tokens(p).last()) =~= digit_tokens(p));
    } else {
        let u = t.drop_last();
        assert(all_digits(u));
        lemma_tokens_append_digits(p, u);
        assert((p + t).drop_last() =~= p + u);
        assert((p + t).last() == t.last());
        assert(is_digit_char(t[t.len() - 1]));
        assert((digit_tokens(p).last() + u).push(t.last()) =~= digit_tokens(p).last() + t);
        assert(digit_tokens(p).drop_last().push(digit_tokens(p).last() + u).update(
            digit_tokens(p).drop_last().len() as int,
            digit_tokens(p).last() + t,
        ) =~= digit_tokens(p).drop_last().push(digit_tokens(p).last() + t));
    }
}

/// A separator closes the last run and opens an empty one.
proof fn lemma_tokens_append_sep(p: Seq<char>, c: char)
    requires
        !is_digit_char(c),
    ensures
        digit_tokens(p + seq![c]) == digit_tokens(p).push(Seq::<char>::empty()),
{
    assert((p + seq![c]).drop_last() =~= p);
    assert((p + seq![c]).last() == c);
}

/// Three digit runs joined by two separators split back into those runs.
proof fn lemma_three_runs(a: Seq<char>, s1: char, b: Seq<char>, s2: char, c: Seq<char>)
    requires
        all_digits(a),
        all_digits(b),
        all_digits(c),
        !is_digit_char(s1),
        !is_digit_char(s2),
    ensures
        digit_tokens(a + seq![s1] + b + seq![s2] + c) == seq![a, b, c],
{
    let e = Seq::<char>::empty();
    lemma_tokens_append_digits(e, a);
    assert(e + a =~= a);
    assert(digit_tokens(e) == seq![e]);
    assert(seq![e].drop_last().push(e + a) =~= seq![a]);
    lemma_tokens_append_sep(a, s1);
    let p1 = a + seq![s1];
    lemma_tokens_append_digits(p1, b);
    assert(seq![a].push(e).drop_last().push(e + b) =~= seq![a, b]);
    let p2 = p1 + b;
    lemma_tokens_append_sep(p2, s2);
    let p3 = p2 + seq![s2];
    lemma_tokens_append_digits(p3, c);
    assert(seq![a, b].push(e).drop_last().push(e + c) =~= seq![a, b, c]);
}

/// Reads three runs in order.
proof fn lemma_assemble_three(a: Seq<char>, b: Seq<char>, c: Seq<char>)
    ensures
        assemble_date(seq![a, b, c]) == match place_token(PossibleDate::blank(), a) {
            Some(p1) => match place_token(p1, b) {
                Some(p2) => place_token(p2, c),
                None => None,
            },
            None => None,
        },
{
    assert(seq![a, b, c].drop_last() =~= seq![a, b]);
    assert(seq![a, b].drop_last() =~= seq![a]);
    assert(seq![a].drop_last() =~= Seq::<Seq<char>>::empty());
    assert(seq![a, b, c].last() == c);
    assert(seq![a, b].last() == b);
    assert(seq![a].last() == a);
    reveal_with_fuel(assemble_date, 4);
}

/// A date written year first, as `YYYY-MM-DD` (any non-digit separators, a
/// month and a day of one or two digits), reads back as that date.
pub proof fn lemma_year_first_round_trip(
    d: CalendarDate,
    y: Seq<char>,
    s1: char,
    m: Seq<char>,
    s2: char,
    dd: Seq<char>,
)
    requires
        d.wf(),
        y.len() == 4 && writes_number(y, d.year as int),
        1 <= m.len() <= 2 && writes_number(m, d.month as int),
        1 <= dd.len() <= 2 && writes_number(dd, d.day as int),
        !is_digit_char(s1),
        !is_digit_char(s2),
    ensures
        date_of_text(y + seq![s1] + m + seq![s2] + dd) == Some(d),
{
    lemma_three_runs(y, s1, m, s2, dd);
    lemma_assemble_three(y, m, dd);
}

/// A date written day first, as `D-M-YYYY` or `DD-MM-YYYY` (any non-digit
/// separators), reads back as that date.
pub proof fn lemma_day_first_round_trip(
    d: CalendarDate,
    dd: Seq<char>,
    s1: char,
    m: Seq<char>,
    s2: char,
    y: Seq<char>,
)
    requires
        d.wf(),
        y.len() == 4 && writes_number(y, d.year as int),
        1 <= m.len() <= 2 && writes_number(m, d.month as int),
        1 <= dd.len() <= 2 && writes_number(dd, d.day as int),
        !is_digit_char(s1),
        !is_digit_char(s2),
    ensures
        date_of_text(dd + seq![s1] + m + seq![s2] + y) == Some(d),
{
    lemma_three_runs(dd, s1, m, s2, y);
    lemma_assemble_three(dd, m, y);
}

/// Reading runs sets at most one part per run.
proof fn lemma_parts_set(tokens: Seq<Seq<char>>)
    ensures
        match assemble_date(tokens) {
            Some(p) => (if p.year is Some { 1int } else { 0 }) + (if p.month is Some {
                1int
            } else {
                0
            }) + (if p.day is Some { 1int } else { 0 }) <= tokens.len(),
            None => true,
        },
    decreases tokens.len(),
{
    if tokens.len() > 0 {
        lemma_parts_set(tokens.drop_last());
    }
}

/// Text with at most two digit runs, one date part missing, is no date.
pub proof fn lemma_two_runs_no_date(s: Seq<char>)
    requires
        digit_tokens(s).len() <= 2,
    ensures
        date_of_text(s) is None,
{
    lemma_parts_set(digit_tokens(s));
}

} // verus!
