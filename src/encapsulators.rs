//! The values that flow into a column, and the summaries built from them.

use vstd::prelude::*;
use crate::date::CalendarDate;

verus! {

/// One classified cell, or the end of a column's input.
pub enum ColumnType {
    /// Text that is neither a number nor a date.
    Text(String),
    /// A number, written in its canonical decimal form: equal numbers are
    /// written alike.
    Number(String),
    /// A calendar date.
    Date(CalendarDate),
    /// No more values follow.
    FileEnd,
}

/// The distinct texts of a column, and how many there are.
pub struct TextColumn {
    pub categories: Vec<String>,
    pub category_count: usize,
}

impl TextColumn {
    /// The texts held, in the order in which they were first seen.
    pub open spec fn texts(&self) -> Seq<Seq<char>> {
        self.categories@.map_values(|s: String| s@)
    }

    /// The set of distinct texts.
    pub open spec fn category_set(&self) -> Set<Seq<char>> {
        self.texts().to_set()
    }

    /// No text is held twice, and the count is the number of texts held.
    pub open spec fn wf(&self) -> bool {
        &&& self.texts().no_duplicates()
        &&& self.category_count == self.categories@.len()
    }

    /// Returns a column with no categories.
    pub fn new() -> (r: TextColumn)
        ensures
            r.wf(),
            r.texts() == Seq::<Seq<char>>::empty(),
            r.category_count == 0,
    {
        let r = TextColumn { categories: Vec::new(), category_count: 0 };
        assert(r.texts() =~= Seq::<Seq<char>>::empty());
        r
    }

    /// Whether `value` is among the categories.
    pub fn contains(&self, value: &String) -> (r: bool)
        ensures
            r == self.texts().contains(value@),
    {
        let mut i: usize = 0;
        while i < self.categories.len()
            invariant
                0 <= i <= self.categories@.len(),
                forall|j: int| 0 <= j < i ==> self.texts()[j] != value@,
            decreases self.categories@.len() - i,
        {
            if self.categories[i] == *value {
                assert(self.texts()[i as int] == value@);
                return true;
            }
            i = i + 1;
        }
        false
    }

    /// Adds `value` to the categories and counts it, unless it is there already.
    pub fn add_to_categories(&mut self, value: String)
        requires
            old(self).wf(),
        ensures
            final(self).wf(),
            final(self).category_set() == old(self).category_set().insert(value@),
            old(self).texts().contains(value@) ==> final(self).texts() == old(self).texts(),
            !old(self).texts().contains(value@) ==> final(self).texts() == old(self).texts().push(
                value@,
            ),
    {
        proof {
            self.texts().lemma_push_to_set_commute(value@);
        }
        if !self.contains(&value) {
            let ghost before = self.texts();
            self.categories.push(value);
            assert(self.texts() =~= before.push(value@));
            self.category_count = self.categories.len();
        } else {
            assert(self.category_set() =~= self.category_set().insert(value@));
        }
    }

    /// Returns a column with the same categories and count.
    pub fn build_summary(&self) -> (r: TextColumn)
        ensures
            r.texts() == self.texts(),
            r.category_count == self.category_count,
    {
        let mut r = TextColumn::new();
        r.set_categories(self.get_categories());
        r.set_category_count(self.category_count);
        r
    }

    /// Replaces the categories.
    pub fn set_categories(&mut self, categories: Vec<String>)
        ensures
            final(self).texts() == categories@.map_values(|s: String| s@),
            final(self).category_count == old(self).category_count,
    {
        self.categories = categories;
    }

    /// Replaces the count of categories.
    pub fn set_category_count(&mut self, category_count: usize)
        ensures
            final(self).category_count == category_count,
            final(self).texts() == old(self).texts(),
    {
        self.category_count = category_count;
    }

    /// Returns a copy of the categories.
    pub fn get_categories(&self) -> (r: Vec<String>)
        ensures
            r@.map_values(|s: String| s@) == self.texts(),
    {
        let mut r: Vec<String> = Vec::new();
        let mut i: usize = 0;
        while i < self.categories.len()
            invariant
                0 <= i <= self.categories@.len(),
                r@.len() == i,
                forall|j: int| 0 <= j < i ==> r@[j]@ == self.categories@[j]@,
            decreases self.categories@.len() - i,
        {
            r.push(self.categories[i].clone());
            i = i + 1;
        }
        assert(r@.map_values(|s: String| s@) =~= self.texts());
        r
    }

    /// Returns the count of categories.
    pub fn get_category_count(&self) -> (r: usize)
        ensures
            r == self.category_count,
    {
        self.category_count
    }
}

/// A well-formed text column holds no text twice, and its count is the number
/// of distinct texts in its set, whatever order they came in.
pub proof fn lemma_count_is_distinct(col: &TextColumn)
    requires
        col.wf(),
    ensures
        col.texts().no_duplicates(),
        col.category_count == col.category_set().len(),
{
    col.texts().unique_seq_to_set();
}

/// The earliest and the latest date of a column; both unset until a date is seen.
pub struct DateColumn {
    pub earliest: Option<CalendarDate>,
    pub latest: Option<CalendarDate>,
}

impl DateColumn {
    /// Both ends are set together, and the earliest is not after the latest.
    pub open spec fn wf(&self) -> bool {
        &&& self.earliest is Some <==> self.latest is Some
        &&& self.earliest is Some ==> !self.latest->0.spec_before(self.earliest->0)
    }

    /// Returns a column with no date seen.
    pub fn new() -> (r: DateColumn)
        ensures
            r.wf(),
            r.earliest is None,
            r.latest is None,
    {
        DateColumn { earliest: None, latest: None }
    }

    /// Widens the range to take in `date`.
    pub fn add_date(&mut self, date: CalendarDate)
        requires
            old(self).wf(),
        ensures
            final(self).wf(),
            final(self).earliest == Some(
                match old(self).earliest {
                    Some(e) => if date.spec_before(e) { date } else { e },
                    None => date,
                },
            ),
            final(self).latest == Some(
                match old(self).latest {
                    Some(l) => if l.spec_before(date) { date } else { l },
                    None => date,
                },
            ),
    {
        match self.earliest {
            Some(e) => {
                if date.is_before(&e) {
                    self.earliest = Some(date);
                }
            },
            None => self.earliest = Some(date),
        }
        match self.latest {
            Some(l) => {
                if l.is_before(&date) {
                    self.latest = Some(date);
                }
            },
            None => self.latest = Some(date),
        }
    }

    /// Returns a column with the same range.
    pub fn build_summary(&self) -> (r: DateColumn)
        ensures
            r.earliest == self.earliest,
            r.latest == self.latest,
    {
        DateColumn { earliest: self.earliest, latest: self.latest }
    }

    /// The earliest date, if any.
    pub fn get_earliest(&self) -> (r: Option<CalendarDate>)
        ensures
            r == self.earliest,
    {
        self.earliest
    }

    /// The latest date, if any.
    pub fn get_latest(&self) -> (r: Option<CalendarDate>)
        ensures
            r == self.latest,
    {
        self.latest
    }

    /// Sets the earliest date.
    pub fn set_earliest(&mut self, date: CalendarDate)
        ensures
            final(self).earliest == Some(date),
            final(self).latest == old(self).latest,
    {
        self.earliest = Some(date);
    }

    /// Sets the latest date.
    pub fn set_latest(&mut self, date: CalendarDate)
        ensures
            final(self).latest == Some(date),
            final(self).earliest == old(self).earliest,
    {
        self.latest = Some(date);
    }
}

} // verus!
