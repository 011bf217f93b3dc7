//! An owned, date-sorted sequence of events: sorted insertion, binary range
//! search with half-open windows, and case-insensitive substring queries.

use crate::date::{parse_spec, Date, WlError};
use crate::event::{display_line, Event, EventView};
use crate::text::{contains_chars, lower_of, str_contains, to_lower};
use vstd::prelude::*;

verus! {

/// Events in non-decreasing date order.
pub open spec fn sorted(s: Seq<EventView>) -> bool {
    forall|i: int, j: int|
        0 <= i <= j < s.len() ==> (#[trigger] s[i]).date.le_spec((#[trigger] s[j]).date)
}

/// Every stored date satisfies the date type's validity invariant.
pub open spec fn dates_valid(s: Seq<EventView>) -> bool {
    forall|i: int| 0 <= i < s.len() ==> (#[trigger] s[i]).date.valid()
}

/// How many events are dated strictly before `d`.
pub open spec fn count_lt(s: Seq<EventView>, d: Date) -> int
    decreases s.len(),
{
    if s.len() == 0 {
        0
    } else {
        count_lt(s.drop_last(), d) + (if s.last().date.lt_spec(d) {
            1int
        } else {
            0int
        })
    }
}

pub proof fn lemma_count_lt_bounds(s: Seq<EventView>, d: Date)
    ensures
        0 <= count_lt(s, d) <= s.len(),
    decreases s.len(),
{
    if s.len() > 0 {
        lemma_count_lt_bounds(s.drop_last(), d);
    }
}

/// A partition point (everything before it earlier than `d`, nothing from it
/// on earlier than `d`) is the count of events dated before `d`.
pub proof fn lemma_count_lt_from_partition(s: Seq<EventView>, d: Date, k: int)
    requires
        0 <= k <= s.len(),
        forall|j: int| 0 <= j < k ==> (#[trigger] s[j]).date.lt_spec(d),
        forall|j: int| k <= j < s.len() ==> !(#[trigger] s[j]).date.lt_spec(d),
    ensures
        count_lt(s, d) == k,
    decreases s.len(),
{
    if s.len() > 0 {
        let t = s.drop_last();
        if s.last().date.lt_spec(d) {
            assert(k == s.len());
            lemma_count_lt_from_partition(t, d, k - 1);
        } else {
            assert(k <= s.len() - 1);
            lemma_count_lt_from_partition(t, d, k);
        }
    }
}

/// In a sorted store the count of events dated before `d` is a partition
/// point: exactly the events in front of it are dated before `d`.
pub proof fn lemma_count_lt_partition(s: Seq<EventView>, d: Date)
    requires
        sorted(s),
    ensures
        forall|j: int| 0 <= j < count_lt(s, d) ==> (#[trigger] s[j]).date.lt_spec(d),
        forall|j: int| count_lt(s, d) <= j < s.len() ==> !(#[trigger] s[j]).date.lt_spec(d),
    decreases s.len(),
{
    lemma_count_lt_bounds(s, d);
    if s.len() > 0 {
        let t = s.drop_last();
        assert(sorted(t));
        lemma_count_lt_partition(t, d);
        let c = count_lt(t, d);
        lemma_count_lt_bounds(t, d);
        if s.last().date.lt_spec(d) {
            assert forall|j: int| 0 <= j < s.len() - 1 implies (#[trigger] s[j]).date.lt_spec(
                d,
            ) by {
                assert(s[j].date.le_spec(s[s.len() - 1].date));
            }
            if c < s.len() - 1 {
                assert(t[c] == s[c]);
                assert(!t[c].date.lt_spec(d));
            }
            assert(c == s.len() - 1);
            assert(count_lt(s, d) == s.len());
        } else {
            assert(count_lt(s, d) == c);
            assert forall|j: int| 0 <= j < count_lt(s, d) implies (#[trigger] s[j]).date.lt_spec(
                d,
            ) by {
                assert(t[j] == s[j]);
                assert(t[j].date.lt_spec(d));
            }
            assert forall|j: int| count_lt(s, d) <= j < s.len() implies !(
            #[trigger] s[j]).date.lt_spec(d) by {
                if j < s.len() - 1 {
                    assert(t[j] == s[j]);
                    assert(!t[j].date.lt_spec(d));
                }
            }
        }
    }
}

/// Inserting at a partition point for the new event's date keeps the store sorted.
pub proof fn lemma_insert_sorted(s: Seq<EventView>, e: EventView, k: int)
    requires
        sorted(s),
        0 <= k <= s.len(),
        forall|j: int| 0 <= j < k ==> (#[trigger] s[j]).date.lt_spec(e.date),
        forall|j: int| k <= j < s.len() ==> !(#[trigger] s[j]).date.lt_spec(e.date),
    ensures
        sorted(s.insert(k, e)),
{
    let t = s.insert(k, e);
    assert forall|i: int, j: int| 0 <= i <= j < t.len() implies (#[trigger] t[i]).date.le_spec(
        (#[trigger] t[j]).date,
    ) by {
        if i < k {
            assert(t[i] == s[i]);
        } else if i == k {
            assert(t[i] == e);
        } else {
            assert(t[i] == s[i - 1]);
        }
        if j < k {
            assert(t[j] == s[j]);
        } else if j == k {
            assert(t[j] == e);
        } else {
            assert(t[j] == s[j - 1]);
        }
    }
}

/// Inserting an event dated strictly after every stored event appends it at
/// the end of the store, and the store stays sorted.
pub proof fn lemma_insert_increasing(s: Seq<EventView>, e: EventView)
    requires
        sorted(s),
        forall|j: int| 0 <= j < s.len() ==> (#[trigger] s[j]).date.lt_spec(e.date),
    ensures
        count_lt(s, e.date) == s.len(),
        sorted(s.insert(s.len() as int, e)),
{
    lemma_count_lt_from_partition(s, e.date, s.len() as int);
    lemma_insert_sorted(s, e, s.len() as int);
}

/// For a sorted store, the partition point of `b` lies past every event dated
/// `a` when a < b: a window starting there excludes them all.
pub proof fn lemma_first_geq_excludes(s: Seq<EventView>, a: Date, b: Date)
    requires
        sorted(s),
        a.lt_spec(b),
    ensures
        forall|i: int| count_lt(s, b) <= i < s.len() ==> (#[trigger] s[i]).date != a,
{
    lemma_count_lt_partition(s, b);
    assert forall|i: int| count_lt(s, b) <= i < s.len() implies (#[trigger] s[i]).date != a by {
        assert(!s[i].date.lt_spec(b));
    }
}

/// For a sorted store whose event dates are well-formed and share the
/// precision of `b`, the half-open window between the partition points of `a`
/// and of the successor of `b` holds exactly the events dated within [a, b].
pub proof fn lemma_date_range_window(s: Seq<EventView>, a: Date, b: Date)
    requires
        sorted(s),
        b.well_formed(),
        b.year < i32::MAX,
        forall|i: int|
            0 <= i < s.len() ==> (#[trigger] s[i]).date.well_formed() && s[i].date.precision()
                == b.precision(),
    ensures
        forall|i: int|
            0 <= i < s.len() ==> (count_lt(s, a) <= i < count_lt(s, b.next_spec()) <==> a.le_spec(
                (#[trigger] s[i]).date,
            ) && s[i].date.le_spec(b)),
{
    lemma_count_lt_partition(s, a);
    lemma_count_lt_partition(s, b.next_spec());
    lemma_count_lt_bounds(s, a);
    lemma_count_lt_bounds(s, b.next_spec());
    assert forall|i: int| 0 <= i < s.len() implies (count_lt(s, a) <= i < count_lt(
        s,
        b.next_spec(),
    ) <==> a.le_spec((#[trigger] s[i]).date) && s[i].date.le_spec(b)) by {
        crate::date::lemma_next_tight(s[i].date, b);
    }
}

/// Era display for a printed batch: shown when the batch runs from a BCE date
/// to a CE one, judged by its first and last events alone.
pub open spec fn batch_era(s: Seq<EventView>, lo: int, hi: int) -> bool {
    lo < hi && s[lo].date.year < 0 && s[hi - 1].date.year > 0
}

/// The display lines for the events with indices in [lo, hi).
pub open spec fn render_lines(s: Seq<EventView>, lo: int, hi: int, era: bool) -> Seq<Seq<char>>
    decreases hi - lo,
{
    if lo >= hi {
        Seq::empty()
    } else {
        seq![display_line(s[lo], era)] + render_lines(s, lo + 1, hi, era)
    }
}

proof fn lemma_render_snoc(s: Seq<EventView>, lo: int, hi: int, era: bool)
    requires
        lo <= hi,
    ensures
        render_lines(s, lo, hi + 1, era) == render_lines(s, lo, hi, era).push(
            display_line(s[hi], era),
        ),
    decreases hi - lo,
{
    if lo == hi {
        assert(render_lines(s, lo, hi + 1, era) =~= render_lines(s, lo, hi, era).push(
            display_line(s[hi], era),
        ));
    } else {
        lemma_render_snoc(s, lo + 1, hi, era);
        let x = display_line(s[hi], era);
        let h = seq![display_line(s[lo], era)];
        assert(render_lines(s, lo, hi + 1, era) == h + render_lines(s, lo + 1, hi + 1, era));
        assert(render_lines(s, lo + 1, hi + 1, era) == render_lines(s, lo + 1, hi, era).push(x));
        assert(h + render_lines(s, lo + 1, hi, era).push(x) =~= (h + render_lines(
            s,
            lo + 1,
            hi,
            era,
        )).push(x));
        assert(render_lines(s, lo, hi, era) == h + render_lines(s, lo + 1, hi, era));
    }
}

/// What a date-range query prints: the window between the partition points of
/// `start` and of the successor of `end`.
pub open spec fn date_range_lines(s: Seq<EventView>, start: Date, end: Date) -> Seq<Seq<char>> {
    let lo = count_lt(s, start);
    let hi = count_lt(s, end.next_spec());
    if lo <= hi {
        render_lines(s, lo, hi, batch_era(s, lo, hi))
    } else {
        Seq::empty()
    }
}

/// The display lines for the events whose description contains `q`
/// case-insensitively, scanning from index `i`; once a BCE event matches, the
/// era is shown on that and every later matching line.
pub open spec fn query_lines(s: Seq<EventView>, q: Seq<char>, i: int, era: bool) -> Seq<Seq<char>>
    decreases s.len() - i,
{
    if i < 0 || i >= s.len() {
        Seq::empty()
    } else if contains_chars(lower_of(s[i].description), q) {
        let e2 = era || s[i].date.year < 0;
        seq![display_line(s[i], e2)] + query_lines(s, q, i + 1, e2)
    } else {
        query_lines(s, q, i + 1, era)
    }
}

/// One serialized line: the date block, then `sep` in place of the single
/// separating space — or that space itself when `sep` is empty (the store
/// file's form) — then the description.
pub open spec fn sep_line(e: EventView, sep: Seq<char>) -> Seq<char> {
    let divider = if sep.len() == 0 {
        seq![' ']
    } else {
        sep
    };
    e.date.format_spec(true) + divider + e.description + seq!['\n']
}

/// The serialized store from index `i` on: one line per event.
pub open spec fn build_spec(s: Seq<EventView>, sep: Seq<char>, i: int) -> Seq<char>
    decreases s.len() - i,
{
    if i < 0 || i >= s.len() {
        Seq::empty()
    } else {
        sep_line(s[i], sep) + build_spec(s, sep, i + 1)
    }
}

/// An owned sequence of events, kept in non-decreasing date order by every
/// mutating operation.
pub struct WorldLine {
    events: Vec<Event>,
}

impl View for WorldLine {
    type V = Seq<EventView>;

    closed spec fn view(&self) -> Seq<EventView> {
        self.events.deep_view()
    }
}

impl WorldLine {
    /// The store's invariant: events are sorted by date.
    pub open spec fn wf(self) -> bool {
        sorted(self@)
    }

    /// An empty worldline.
    pub fn new() -> (r: WorldLine)
        ensures
            r@ == Seq::<EventView>::empty(),
            r.wf(),
    {
        let w = WorldLine { events: Vec::new() };
        proof {
            assert(w@ =~= Seq::<EventView>::empty());
        }
        w
    }

    /// Build a worldline from the lines of a file, skipping empty lines. The
    /// events keep the order of the lines; the file is trusted to store them
    /// sorted, and nothing here re-sorts them.
    pub fn from_lines(lines: &Vec<String>) -> (r: Result<WorldLine, WlError>)
        ensures
            (match parse_lines_from(lines@, 0) {
                Ok(evs) => r matches Ok(w) && w@ == evs,
                Err(e) => r matches Err(e2) && e2 == e,
            }),
    {
        let n = lines.len();
        let mut events: Vec<Event> = Vec::new();
        let mut i: usize = 0;
        proof {
            assert(events.deep_view() =~= Seq::<EventView>::empty());
        }
        while i < n
            invariant
                0 <= i <= n,
                n == lines@.len(),
                (match parse_lines_from(lines@, i as int) {
                    Ok(tail) => parse_lines_from(lines@, 0) matches Ok(all) && all
                        == events.deep_view() + tail,
                    Err(e) => parse_lines_from(lines@, 0) == Err::<Seq<EventView>, WlError>(e),
                }),
            decreases n - i,
        {
            let line = &lines[i];
            let ghost pre = events.deep_view();
            if line.as_str().unicode_len() > 0 {
                match Event::parse(line.as_str()) {
                    Ok(ev) => {
                        let ghost evv = ev@;
                        events.push(ev);
                        proof {
                            assert(events.deep_view() =~= pre.push(evv));
                            match parse_lines_from(lines@, i + 1) {
                                Ok(tail) => {
                                    assert(pre.push(evv) + tail =~= pre + (seq![evv] + tail));
                                },
                                Err(_) => {},
                            }
                        }
                    },
                    Err(e) => {
                        return Err(e);
                    },
                }
            }
            i += 1;
        }
        let w = WorldLine { events };
        proof {
            match parse_lines_from(lines@, i as int) {
                Ok(tail) => {
                    assert(w@ + tail =~= w@);
                },
                Err(_) => {},
            }
        }
        Ok(w)
    }

    /// The number of events in the worldline.
    pub fn len(&self) -> (r: usize)
        ensures
            r == self@.len(),
    {
        self.events.len()
    }

    /// The event at index `i`.
    pub fn get(&self, i: usize) -> (r: &Event)
        requires
            i < self@.len(),
        ensures
            r@ == self@[i as int],
    {
        &self.events[i]
    }

    /// The index of the first event whose date is not before `date`: in a
    /// sorted store, the count of events dated strictly before it.
    pub fn first_geq(&self, date: &Date) -> (r: usize)
        ensures
            r <= self@.len(),
            self.wf() ==> r as int == count_lt(self@, *date),
    {
        let mut lo: usize = 0;
        let mut hi: usize = self.events.len();
        while lo < hi
            invariant
                lo <= hi <= self@.len(),
                self@.len() == self.events@.len(),
                self.wf() ==> forall|j: int|
                    0 <= j < lo ==> (#[trigger] self@[j]).date.lt_spec(*date),
                self.wf() ==> forall|j: int|
                    hi <= j < self@.len() ==> !(#[trigger] self@[j]).date.lt_spec(*date),
            decreases hi - lo,
        {
            let mid = lo + (hi - lo) / 2;
            if self.events[mid].date.before(date) {
                proof {
                    if self.wf() {
                        assert forall|j: int| 0 <= j < mid + 1 implies (
                        #[trigger] self@[j]).date.lt_spec(*date) by {
                            assert(self@[j].date.le_spec(self@[mid as int].date));
                        }
                    }
                }
                lo = mid + 1;
            } else {
                proof {
                    if self.wf() {
                        assert forall|j: int| mid <= j < self@.len() implies !(
                        #[trigger] self@[j]).date.lt_spec(*date) by {
                            assert(self@[mid as int].date.le_spec(self@[j].date));
                        }
                    }
                }
                hi = mid;
            }
        }
        proof {
            if self.wf() {
                lemma_count_lt_from_partition(self@, *date, lo as int);
            }
        }
        lo
    }

    /// The index one past the last event dated strictly before `date`. This
    /// is the same partition point as `first_geq`, and the two agree on every
    /// store; range queries rely on exactly that.
    pub fn last_before(&self, date: &Date) -> (r: usize)
        ensures
            r <= self@.len(),
            self.wf() ==> r as int == count_lt(self@, *date),
    {
        self.first_geq(date)
    }

    /// Insert an event at its sorted position, before any events of equal
    /// date, and return its index.
    pub fn add_event(&mut self, event: Event) -> (idx: usize)
        ensures
            idx <= old(self)@.len(),
            final(self)@ == old(self)@.insert(idx as int, event@),
            old(self).wf() ==> idx as int == count_lt(old(self)@, event.date)
                && final(self).wf(),
    {
        let idx = self.first_geq(&event.date);
        let ghost pre = self@;
        let ghost evv = event@;
        self.events.insert(idx, event);
        proof {
            assert(self@ =~= pre.insert(idx as int, evv));
            if sorted(pre) {
                lemma_count_lt_partition(pre, evv.date);
                lemma_insert_sorted(pre, evv, idx as int);
            }
        }
        idx
    }

    /// The display lines for the events with indices in [start_idx, end_idx);
    /// the era is shown for the whole batch exactly when it runs from a BCE
    /// date to a CE one.
    pub fn print_range(&self, start_idx: usize, end_idx: usize) -> (r: Vec<String>)
        requires
            start_idx <= end_idx <= self@.len(),
            dates_valid(self@),
        ensures
            r.deep_view() == render_lines(
                self@,
                start_idx as int,
                end_idx as int,
                batch_era(self@, start_idx as int, end_idx as int),
            ),
    {
        let mut r: Vec<String> = Vec::new();
        proof {
            assert(r.deep_view() =~= Seq::<Seq<char>>::empty());
        }
        if start_idx == end_idx {
            return r;
        }
        let show_era = self.events[start_idx].date.year < 0 && self.events[end_idx - 1].date.year
            > 0;
        let mut i = start_idx;
        while i < end_idx
            invariant
                start_idx <= i <= end_idx <= self@.len(),
                self@.len() == self.events@.len(),
                dates_valid(self@),
                show_era == batch_era(self@, start_idx as int, end_idx as int),
                r.deep_view() == render_lines(self@, start_idx as int, i as int, show_era),
            decreases end_idx - i,
        {
            let ghost pre = r.deep_view();
            proof {
                assert(self@[i as int] == self.events@[i as int]@);
                assert(self@[i as int].date.valid());
            }
            let line = self.events[i].format_for_display(show_era);
            let ghost lv = line@;
            r.push(line);
            proof {
                assert(r.deep_view() =~= pre.push(lv));
                lemma_render_snoc(self@, start_idx as int, i as int, show_era);
            }
            i += 1;
        }
        r
    }

    /// The display lines for the whole store.
    pub fn print_all(&self) -> (r: Vec<String>)
        requires
            dates_valid(self@),
        ensures
            r.deep_view() == render_lines(
                self@,
                0,
                self@.len() as int,
                batch_era(self@, 0, self@.len() as int),
            ),
    {
        let n = self.events.len();
        self.print_range(0, n)
    }

    /// The display lines for the events dated in the range from `start`
    /// through the whole period of `end`: the upper bound is the successor of
    /// `end`, exclusive, so a partial-precision `end` covers all dates it
    /// begins.
    pub fn print_date_range(&self, start: Date, end: Date) -> (r: Vec<String>)
        requires
            end.well_formed(),
            end.year < i32::MAX,
            dates_valid(self@),
        ensures
            self.wf() ==> r.deep_view() == date_range_lines(self@, start, end),
    {
        let lo = self.first_geq(&start);
        let e_next = end.next();
        let hi = self.last_before(&e_next);
        if lo <= hi {
            self.print_range(lo, hi)
        } else {
            let r: Vec<String> = Vec::new();
            proof {
                assert(r.deep_view() =~= Seq::<Seq<char>>::empty());
            }
            r
        }
    }

    /// The display lines for a whole implicit period: a year-only date covers
    /// its year, a year-month date its month, a full date the single day.
    pub fn print_implicit_date_range(&self, date: Date) -> (r: Vec<String>)
        requires
            date.well_formed(),
            date.year < i32::MAX,
            dates_valid(self@),
        ensures
            self.wf() ==> r.deep_view() == date_range_lines(self@, date, date),
    {
        self.print_date_range(date, date)
    }

    /// The display lines for the events whose description contains the query,
    /// case-insensitively; once a BCE event has matched, the era is shown on
    /// every later matching line of the same call.
    pub fn query_and_print(&self, query: &str) -> (r: Vec<String>)
        requires
            dates_valid(self@),
        ensures
            r.deep_view() == query_lines(self@, lower_of(query@), 0, false),
    {
        let lq = to_lower(query);
        let mut show_era = false;
        let mut r: Vec<String> = Vec::new();
        let n = self.events.len();
        let mut i: usize = 0;
        proof {
            assert(r.deep_view() =~= Seq::<Seq<char>>::empty());
            assert(r.deep_view() + query_lines(self@, lower_of(query@), 0, false) =~= query_lines(
                self@,
                lower_of(query@),
                0,
                false,
            ));
        }
        while i < n
            invariant
                0 <= i <= n,
                n == self@.len(),
                self@.len() == self.events@.len(),
                dates_valid(self@),
                lq@ == lower_of(query@),
                query_lines(self@, lower_of(query@), 0, false) == r.deep_view() + query_lines(
                    self@,
                    lower_of(query@),
                    i as int,
                    show_era,
                ),
            decreases n - i,
        {
            let ghost q = lower_of(query@);
            let ghost pre = r.deep_view();
            let ghost era0 = show_era;
            proof {
                assert(self@[i as int] == self.events@[i as int]@);
                assert(self@[i as int].date.valid());
            }
            let ld = to_lower(self.events[i].description.as_str());
            if str_contains(ld.as_str(), lq.as_str()) {
                if self.events[i].date.year < 0 {
                    show_era = true;
                }
                let line = self.events[i].format_for_display(show_era);
                let ghost lv = line@;
                r.push(line);
                proof {
                    assert(contains_chars(lower_of(self@[i as int].description), q));
                    assert(query_lines(self@, q, i as int, era0) == seq![lv] + query_lines(
                        self@,
                        q,
                        i + 1,
                        show_era,
                    ));
                    assert(r.deep_view() =~= pre.push(lv));
                    assert(pre + (seq![lv] + query_lines(self@, q, i + 1, show_era))
                        =~= pre.push(lv) + query_lines(self@, q, i + 1, show_era));
                }
            } else {
                proof {
                    assert(!contains_chars(lower_of(self@[i as int].description), q));
                    assert(query_lines(self@, q, i as int, era0) == query_lines(
                        self@,
                        q,
                        i + 1,
                        era0,
                    ));
                }
            }
            i += 1;
        }
        proof {
            assert(r.deep_view() + query_lines(self@, lower_of(query@), i as int, show_era)
                =~= r.deep_view());
        }
        r
    }

    /// Serialize every event, one per line and newline-terminated. A
    /// non-empty `separator` stands in place of the single space between the
    /// date block and the description; an empty one keeps that space.
    pub fn build_file(&self, separator: &str) -> (r: String)
        requires
            dates_valid(self@),
        ensures
            r@ == build_spec(self@, separator@, 0),
    {
        proof {
            reveal_strlit(" ");
            reveal_strlit("\n");
        }
        let mut out = String::new();
        let n = self.events.len();
        let mut i: usize = 0;
        proof {
            assert(out@ + build_spec(self@, separator@, 0) =~= build_spec(self@, separator@, 0));
        }
        while i < n
            invariant
                0 <= i <= n,
                n == self@.len(),
                self@.len() == self.events@.len(),
                dates_valid(self@),
                build_spec(self@, separator@, 0) == out@ + build_spec(self@, separator@, i as int),
            decreases n - i,
        {
            let ghost pre = out@;
            proof {
                reveal_strlit(" ");
                reveal_strlit("\n");
                assert(self@[i as int] == self.events@[i as int]@);
                assert(self@[i as int].date.valid());
            }
            let df = self.events[i].date.format(true);
            out.append(df.as_str());
            if separator.is_empty() {
                out.append(" ");
            } else {
                out.append(separator);
            }
            out.append(self.events[i].description.as_str());
            out.append("\n");
            proof {
                assert(out@ =~= pre + sep_line(self@[i as int], separator@));
                assert(pre + (sep_line(self@[i as int], separator@) + build_spec(
                    self@,
                    separator@,
                    i + 1,
                )) =~= (pre + sep_line(self@[i as int], separator@)) + build_spec(
                    self@,
                    separator@,
                    i + 1,
                ));
            }
            i += 1;
        }
        proof {
            assert(out@ + build_spec(self@, separator@, i as int) =~= out@);
        }
        out
    }

    /// The tab-separated export: the format header, then one line per event
    /// with a tab in place of the separating space.
    pub fn build_anki_file(&self) -> (r: String)
        requires
            dates_valid(self@),
        ensures
            r@ == anki_header() + build_spec(self@, seq!['\t'], 0),
    {
        proof {
            reveal_strlit("#separator:Tab\n");
            reveal_strlit("\t");
        }
        let mut out = String::from_str("#separator:Tab\n");
        let body = self.build_file("\t");
        out.append(body.as_str());
        proof {
            assert("\t"@ =~= seq!['\t']);
            assert(out@ =~= anki_header() + build_spec(self@, seq!['\t'], 0));
        }
        out
    }
}

/// The one-line header of the tab-separated export.
pub open spec fn anki_header() -> Seq<char> {
    seq!['#', 's', 'e', 'p', 'a', 'r', 'a', 't', 'o', 'r', ':', 'T', 'a', 'b', '\n']
}

/// Parse a sequence of lines from index `i` on, skipping empty lines; the
/// first failure, in line order, is the result.
pub open spec fn parse_lines_from(lines: Seq<String>, i: int) -> Result<Seq<EventView>, WlError>
    decreases lines.len() - i,
{
    if i < 0 || i >= lines.len() {
        Ok(Seq::empty())
    } else {
        let rest = parse_lines_from(lines, i + 1);
        if lines[i]@.len() == 0 {
            rest
        } else {
            match parse_spec(lines[i]@) {
                Err(e) => Err(e),
                Ok(p) => match rest {
                    Err(e2) => Err(e2),
                    Ok(tail) => Ok(
                        seq![
                            EventView {
                                date: p.0,
                                description: lines[i]@.subrange(p.1, lines[i]@.len() as int),
                            },
                        ] + tail,
                    ),
                },
            }
        }
    }
}

} // verus!
