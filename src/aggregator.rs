//! One column's aggregator: the numeric tally, and the state machine that
//! folds classified cells into a column's state and ends in its summary.

use vstd::prelude::*;
use vstd::multiset::Multiset;
use crate::encapsulators::{ColumnType, DateColumn, TextColumn};
use crate::median::{expand, median_positions, total, total_count};

verus! {

broadcast use vstd::multiset::group_multiset_axioms;

/// How often each distinct number occurred, keyed by its canonical text.
pub struct NumberTally {
    pub keys: Vec<String>,
    pub counts: Vec<u64>,
    pub row_count: u64,
    /// Every number folded in so far.
    pub values: Ghost<Multiset<Seq<char>>>,
}

impl NumberTally {
    /// The keys, as character sequences.
    pub open spec fn key_views(&self) -> Seq<Seq<char>> {
        self.keys@.map_values(|s: String| s@)
    }

    /// Each key is held once, with the number of times it occurred; the row
    /// count is the number of values folded in.
    pub open spec fn wf(&self) -> bool {
        &&& self.keys@.len() == self.counts@.len()
        &&& self.key_views().no_duplicates()
        &&& forall|j: int|
            0 <= j < self.counts@.len() ==> #[trigger] self.counts@[j] > 0 && self.counts@[j]
                == self.values@.count(self.key_views()[j])
        &&& forall|k: Seq<char>| #[trigger]
            self.values@.count(k) > 0 ==> self.key_views().contains(k)
        &&& self.row_count == self.values@.len()
    }

    /// Returns a tally of no values.
    pub fn new() -> (r: NumberTally)
        ensures
            r.wf(),
            r.values@ == Multiset::<Seq<char>>::empty(),
            r.row_count == 0,
    {
        let r = NumberTally {
            keys: Vec::new(),
            counts: Vec::new(),
            row_count: 0,
            values: Ghost(Multiset::empty()),
        };
        assert(r.key_views() =~= Seq::<Seq<char>>::empty());
        r
    }

    /// Counts one more occurrence of the number written `key`.
    pub fn add(&mut self, key: String)
        requires
            old(self).wf(),
            old(self).row_count < u64::MAX,
        ensures
            final(self).wf(),
            final(self).values@ == old(self).values@.insert(key@),
            final(self).row_count == old(self).row_count + 1,
    {
        let ghost old_values = self.values@;
        let ghost old_keys = self.key_views();
        let ghost old_counts = self.counts@;
        let mut i: usize = 0;
        let mut found = false;
        while i < self.keys.len() && !found
            invariant
                0 <= i <= self.keys@.len(),
                found ==> i < self.keys@.len() && self.key_views()[i as int] == key@,
                !found ==> forall|j: int| 0 <= j < i ==> self.key_views()[j] != key@,
            decreases self.keys@.len() - i + (if found { 0int } else { 1int }),
        {
            if self.keys[i] == key {
                found = true;
            } else {
                i = i + 1;
            }
        }
        self.values = Ghost(self.values@.insert(key@));
        self.row_count = self.row_count + 1;
        if found {
            let c = self.counts[i];
            assert(c == old_values.count(old_keys[i as int]));
            assert(c <= old_values.len());
            self.counts.set(i, c + 1);
            assert forall|j: int| 0 <= j < self.counts@.len() implies #[trigger] self.counts@[j] > 0
                && self.counts@[j] == self.values@.count(self.key_views()[j]) by {
                if j != i {
                    assert(old_keys.no_duplicates());
                    assert(old_counts[j] == old_values.count(old_keys[j]));
                }
            }
            assert(self.key_views() == old_keys);
            assert forall|k: Seq<char>| #[trigger]
                self.values@.count(k) > 0 implies self.key_views().contains(k) by {
                if k != key@ {
                    assert(old_values.count(k) > 0);
                } else {
                    assert(self.key_views()[i as int] == k);
                }
            }
        } else {
            assert(!old_keys.contains(key@));
            self.keys.push(key);
            self.counts.push(1);
            assert(self.key_views() =~= old_keys.push(key@));
            assert(self.key_views().no_duplicates()) by {
                assert forall|a: int, b: int|
                    0 <= a < self.key_views().len() && 0 <= b < self.key_views().len() && a
                        != b implies self.key_views()[a] != self.key_views()[b] by {
                    if a < old_keys.len() && b < old_keys.len() {
                        assert(old_keys[a] != old_keys[b]);
                    } else if a < old_keys.len() {
                        assert(old_keys[a] != key@);
                    } else if b < old_keys.len() {
                        assert(old_keys[b] != key@);
                    }
                }
            }
            assert forall|k: Seq<char>| #[trigger]
                self.values@.count(k) > 0 implies self.key_views().contains(k) by {
                if k != key@ {
                    assert(old_values.count(k) > 0);
                    let j = choose|j: int| 0 <= j < old_keys.len() && old_keys[j] == k;
                    assert(self.key_views()[j] == k);
                } else {
                    assert(self.key_views()[self.key_views().len() - 1] == k);
                }
            }
            assert forall|j: int| 0 <= j < self.counts@.len() implies #[trigger] self.counts@[j] > 0
                && self.counts@[j] == self.values@.count(self.key_views()[j]) by {
                if j < old_keys.len() {
                    assert(old_keys[j] != key@);
                    assert(old_counts[j] == old_values.count(old_keys[j]));
                } else {
                    assert(old_values.count(key@) == 0);
                }
            }
        }
    }
}

/// `order` lists each index below `n` exactly once.
pub open spec fn is_permutation(order: Seq<usize>, n: int) -> bool {
    &&& order.len() == n
    &&& forall|i: int| 0 <= i < n ==> #[trigger] order[i] < n
    &&& order.no_duplicates()
}

/// The counts taken in the order `order`.
pub open spec fn reorder(counts: Seq<u64>, order: Seq<usize>) -> Seq<u64> {
    Seq::new(order.len(), |i: int| counts[order[i] as int])
}

/// Whether `order` lists each index below `n` exactly once.
pub fn check_permutation(order: &Vec<usize>, n: usize) -> (r: bool)
    ensures
        r == is_permutation(order@, n as int),
{
    if order.len() != n {
        return false;
    }
    let mut seen: Vec<bool> = Vec::new();
    let mut k: usize = 0;
    while k < n
        invariant
            0 <= k <= n,
            seen@.len() == k,
            forall|j: int| 0 <= j < k ==> !seen@[j],
        decreases n - k,
    {
        seen.push(false);
        k = k + 1;
    }
    let mut i: usize = 0;
    while i < n
        invariant
            order@.len() == n,
            seen@.len() == n,
            0 <= i <= n,
            forall|a: int| 0 <= a < i ==> #[trigger] order@[a] < n,
            forall|a: int, b: int| 0 <= a < b < i ==> order@[a] != order@[b],
            forall|v: int|
                0 <= v < n ==> (#[trigger] seen@[v] <==> exists|a: int|
                    0 <= a < i && order@[a] == v),
        decreases n - i,
    {
        let v = order[i];
        if v >= n {
            return false;
        }
        if seen[v] {
            let ghost a = choose|a: int| 0 <= a < i && order@[a] == v;
            assert(order@[a] == order@[i as int]);
            return false;
        }
        seen.set(v, true);
        assert forall|w: int| 0 <= w < n implies (#[trigger] seen@[w] <==> exists|a: int|
            0 <= a < i + 1 && order@[a] == w) by {
            if w == v {
                assert(order@[i as int] == w);
            }
        }
        i = i + 1;
    }
    true
}

impl NumberTally {
    /// The keys of the two middle occurrences, once the distinct numbers are
    /// put in ascending order by `order` (`order[0]` is the index of the
    /// smallest key); their mean is the median. `None` when `order` does not
    /// list each key index once, or when there is no value.
    pub fn median_keys(&self, order: &Vec<usize>) -> (r: Option<(usize, usize)>)
        requires
            self.wf(),
        ensures
            r is Some <==> is_permutation(order@, self.keys@.len() as int) && 1 <= total(
                reorder(self.counts@, order@),
            ) <= u64::MAX,
            r matches Some(m) ==> {
                let c = reorder(self.counts@, order@);
                &&& m.0 as int == order@[expand(c)[(total(c) - 1) / 2]] as int
                &&& m.1 as int == order@[expand(c)[total(c) / 2]] as int
            },
    {
        if !check_permutation(order, self.keys.len()) {
            return None;
        }
        let mut sorted: Vec<u64> = Vec::new();
        let mut i: usize = 0;
        while i < order.len()
            invariant
                is_permutation(order@, self.keys@.len() as int),
                self.keys@.len() == self.counts@.len(),
                0 <= i <= order@.len(),
                sorted@ == reorder(self.counts@, order@).take(i as int),
            decreases order@.len() - i,
        {
            sorted.push(self.counts[order[i]]);
            i = i + 1;
            assert(sorted@ =~= reorder(self.counts@, order@).take(i as int));
        }
        assert(sorted@ =~= reorder(self.counts@, order@));
        match total_count(&sorted) {
            Some(n) => {
                if n == 0 {
                    None
                } else {
                    let (lo, hi) = median_positions(&sorted);
                    Some((order[lo], order[hi]))
                }
            },
            None => None,
        }
    }
}

/// The kind that a column has committed to. A column is text until its first
/// number or date, and then keeps that kind.
#[derive(Clone, Copy, Debug, PartialEq, Eq, Structural)]
pub enum ColumnKind {
    Text,
    Number,
    Date,
}

/// Where an aggregator is in its life: taking values, or done.
#[derive(Clone, Copy, Debug, PartialEq, Eq, Structural)]
pub enum Phase {
    Running,
    Finalized,
}

/// What became of one value handed to an aggregator.
#[derive(Clone, Copy, Debug, PartialEq, Eq, Structural)]
pub enum Step {
    /// The value was folded into the column's state.
    Accepted,
    /// The value was left out: the aggregator is finalized, or its row
    /// counter is full.
    Dropped,
    /// The end of input was received; the aggregator is finalized.
    Finished,
}

/// The finished summary of a column, of the kind that it committed to.
pub enum ColumnSummary {
    Text(TextColumn),
    Number(NumberTally),
    Date(DateColumn),
}

/// Why a column has no summary.
#[derive(Clone, Copy, Debug, PartialEq, Eq, Structural)]
pub enum SummaryError {
    /// A numeric column with no value to compute statistics from.
    EmptyColumn,
}

/// The kind after a value of kind `seen` arrives: the first number or date
/// decides, and a decision is kept.
pub open spec fn commit_kind(kind: ColumnKind, seen: ColumnKind) -> ColumnKind {
    if kind == ColumnKind::Text { seen } else { kind }
}

/// Once a column is numeric or a date column, no later value changes its kind.
pub proof fn lemma_kind_commits_once(kind: ColumnKind, seen: ColumnKind)
    requires
        kind != ColumnKind::Text,
    ensures
        commit_kind(kind, seen) == kind,
{
}

/// The state of one column while its values stream in.
pub struct ColumnAggregator {
    pub kind: ColumnKind,
    pub phase: Phase,
    pub text: TextColumn,
    pub numbers: NumberTally,
    pub dates: DateColumn,
}

impl ColumnAggregator {
    pub open spec fn wf(&self) -> bool {
        &&& self.text.wf()
        &&& self.numbers.wf()
        &&& self.dates.wf()
    }

    /// Returns a running aggregator that has seen nothing.
    pub fn new() -> (r: ColumnAggregator)
        ensures
            r.wf(),
            r.kind == ColumnKind::Text,
            r.phase == Phase::Running,
            r.text.texts() == Seq::<Seq<char>>::empty(),
            r.numbers.values@ == Multiset::<Seq<char>>::empty(),
            r.numbers.row_count == 0,
            r.dates.earliest is None,
            r.dates.latest is None,
    {
        ColumnAggregator {
            kind: ColumnKind::Text,
            phase: Phase::Running,
            text: TextColumn::new(),
            numbers: NumberTally::new(),
            dates: DateColumn::new(),
        }
    }

    /// Folds one value into the column. A number counts one more row and one
    /// more occurrence of its text; a date widens the range; a text joins the
    /// categories; the end of input finalizes the aggregator.
    pub fn receive(&mut self, value: ColumnType) -> (r: Step)
        requires
            old(self).wf(),
        ensures
            final(self).wf(),
            old(self).phase == Phase::Finalized ==> r == Step::Dropped && *final(self) == *old(self),
            old(self).phase == Phase::Running ==> match value {
                ColumnType::Number(k) => if old(self).numbers.row_count == u64::MAX {
                    r == Step::Dropped && *final(self) == *old(self)
                } else {
                    &&& r == Step::Accepted
                    &&& final(self).kind == commit_kind(old(self).kind, ColumnKind::Number)
                    &&& final(self).numbers.values@ == old(self).numbers.values@.insert(k@)
                    &&& final(self).numbers.row_count == old(self).numbers.row_count + 1
                    &&& final(self).text == old(self).text
                    &&& final(self).dates == old(self).dates
                    &&& final(self).phase == Phase::Running
                },
                ColumnType::Date(d) => {
                    &&& r == Step::Accepted
                    &&& final(self).kind == commit_kind(old(self).kind, ColumnKind::Date)
                    &&& final(self).dates.earliest == Some(
                        match old(self).dates.earliest {
                            Some(e) => if d.spec_before(e) { d } else { e },
                            None => d,
                        },
                    )
                    &&& final(self).dates.latest == Some(
                        match old(self).dates.latest {
                            Some(l) => if l.spec_before(d) { d } else { l },
                            None => d,
                        },
                    )
                    &&& final(self).text == old(self).text
                    &&& final(self).numbers == old(self).numbers
                    &&& final(self).phase == Phase::Running
                },
                ColumnType::Text(t) => {
                    &&& r == Step::Accepted
                    &&& final(self).kind == old(self).kind
                    &&& final(self).text.category_set() == old(self).text.category_set().insert(t@)
                    &&& old(self).text.texts().contains(t@) ==> final(self).text.texts() == old(
                        self,
                    ).text.texts()
                    &&& !old(self).text.texts().contains(t@) ==> final(self).text.texts() == old(
                        self,
                    ).text.texts().push(t@)
                    &&& final(self).numbers == old(self).numbers
                    &&& final(self).dates == old(self).dates
                    &&& final(self).phase == Phase::Running
                },
                ColumnType::FileEnd => {
                    &&& r == Step::Finished
                    &&& final(self).phase == Phase::Finalized
                    &&& final(self).kind == old(self).kind
                    &&& final(self).text == old(self).text
                    &&& final(self).numbers == old(self).numbers
                    &&& final(self).dates == old(self).dates
                },
            },
    {
        if self.phase == Phase::Finalized {
            return Step::Dropped;
        }
        match value {
            ColumnType::Number(k) => {
                if self.numbers.row_count == u64::MAX {
                    return Step::Dropped;
                }
                if self.kind == ColumnKind::Text {
                    self.kind = ColumnKind::Number;
                }
                self.numbers.add(k);
                Step::Accepted
            },
            ColumnType::Date(d) => {
                if self.kind == ColumnKind::Text {
                    self.kind = ColumnKind::Date;
                }
                self.dates.add_date(d);
                Step::Accepted
            },
            ColumnType::Text(t) => {
                self.text.add_to_categories(t);
                Step::Accepted
            },
            ColumnType::FileEnd => {
                self.phase = Phase::Finalized;
                Step::Finished
            },
        }
    }

    /// The summary of the kind that the column committed to; a numeric column
    /// with no value has none.
    pub open spec fn summary_of(self) -> Result<ColumnSummary, SummaryError> {
        match self.kind {
            ColumnKind::Text => Ok(ColumnSummary::Text(self.text)),
            ColumnKind::Date => Ok(ColumnSummary::Date(self.dates)),
            ColumnKind::Number => if self.numbers.row_count == 0 {
                Err(SummaryError::EmptyColumn)
            } else {
                Ok(ColumnSummary::Number(self.numbers))
            },
        }
    }

    /// Consumes the aggregator into its summary.
    pub fn finish(self) -> (r: Result<ColumnSummary, SummaryError>)
        ensures
            r == self.summary_of(),
    {
        match self.kind {
            ColumnKind::Text => Ok(ColumnSummary::Text(self.text)),
            ColumnKind::Date => Ok(ColumnSummary::Date(self.dates)),
            ColumnKind::Number => {
                if self.numbers.row_count == 0 {
                    Err(SummaryError::EmptyColumn)
                } else {
                    Ok(ColumnSummary::Number(self.numbers))
                }
            },
        }
    }
}

/// Ending a numeric column that holds no value gives the empty-column error,
/// not statistics over zero rows; its summary is never numeric then.
pub proof fn lemma_empty_numeric_column(agg: ColumnAggregator)
    requires
        agg.kind == ColumnKind::Number,
        agg.numbers.row_count == 0,
    ensures
        agg.summary_of() == Err::<ColumnSummary, SummaryError>(SummaryError::EmptyColumn),
{
}

/// A numeric summary always comes with at least one value, so its mean and
/// median are defined.
pub proof fn lemma_numeric_summary_nonempty(agg: ColumnAggregator)
    requires
        agg.wf(),
    ensures
        agg.summary_of() matches Ok(ColumnSummary::Number(t)) ==> t.row_count >= 1 && t.wf(),
{
}

} // verus!
