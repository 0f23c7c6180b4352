use vstd::prelude::*;
use crate::date::{Date, lemma_key_injective, lemma_pred_wf};
use crate::day::{Day, merged_weight, merged_sport, centi_ok, opt_centi_ok};

verus! {

/// The full record store: a mapping from calendar date to that date's
/// record, held as a vector of entries sorted by ascending date.
#[derive(Debug, PartialEq, Eq)]
pub struct History {
    entries: Vec<(Date, Day)>,
}

/// Entries strictly ascending by date key, every date and record well-formed.
/// Strict ascent makes each date's record unique.
pub open spec fn entries_wf(s: Seq<(Date, Day)>) -> bool {
    (forall|i: int, j: int| 0 <= i < j < s.len() ==> s[i].0.key() < s[j].0.key()) && (forall|i: int|
        0 <= i < s.len() ==> (#[trigger] s[i]).0.wf() && s[i].1.wf())
}

/// The record stored for a date, if any.
pub open spec fn spec_get(s: Seq<(Date, Day)>, d: Date) -> Option<Day>
    decreases s.len(),
{
    if s.len() == 0 {
        None
    } else if s[0].0 == d {
        Some(s[0].1)
    } else {
        spec_get(s.skip(1), d)
    }
}

pub proof fn lemma_get_at(s: Seq<(Date, Day)>, d: Date, i: int)
    requires
        0 <= i < s.len(),
        s[i].0 == d,
        forall|j: int| 0 <= j < i ==> s[j].0 != d,
    ensures
        spec_get(s, d) == Some(s[i].1),
    decreases i,
{
    if i > 0 {
        assert(s.skip(1)[i - 1] == s[i]);
        assert(forall|j: int| 0 <= j < i - 1 ==> s.skip(1)[j] == s[j + 1]);
        lemma_get_at(s.skip(1), d, i - 1);
    }
}

pub proof fn lemma_get_none(s: Seq<(Date, Day)>, d: Date)
    requires
        forall|j: int| 0 <= j < s.len() ==> s[j].0 != d,
    ensures
        spec_get(s, d) is None,
    decreases s.len(),
{
    if s.len() > 0 {
        assert(forall|j: int| 0 <= j < s.len() - 1 ==> s.skip(1)[j] == s[j + 1]);
        lemma_get_none(s.skip(1), d);
    }
}

/// Inserting an entry for one date leaves every other date's record as it was.
pub proof fn lemma_get_insert_other(s: Seq<(Date, Day)>, i: int, e: (Date, Day), d2: Date)
    requires
        0 <= i <= s.len(),
        d2 != e.0,
    ensures
        spec_get(s.insert(i, e), d2) == spec_get(s, d2),
    decreases s.len(),
{
    let t = s.insert(i, e);
    if i == 0 {
        assert(t[0] == e);
        assert(t.skip(1) =~= s);
    } else {
        assert(t[0] == s[0]);
        assert(t.skip(1) =~= s.skip(1).insert(i - 1, e));
        if s[0].0 != d2 {
            lemma_get_insert_other(s.skip(1), i - 1, e, d2);
        }
    }
}

/// Replacing the entry at a date's position leaves every other date's record
/// as it was.
pub proof fn lemma_get_update_other(s: Seq<(Date, Day)>, i: int, e: (Date, Day), d2: Date)
    requires
        0 <= i < s.len(),
        s[i].0 == e.0,
        d2 != e.0,
    ensures
        spec_get(s.update(i, e), d2) == spec_get(s, d2),
    decreases s.len(),
{
    let t = s.update(i, e);
    if i == 0 {
        assert(t.skip(1) =~= s.skip(1));
    } else {
        assert(t[0] == s[0]);
        assert(t.skip(1) =~= s.skip(1).update(i - 1, e));
        if s[0].0 != d2 {
            lemma_get_update_other(s.skip(1), i - 1, e, d2);
        }
    }
}

/// Consecutive active days ending at a date: zero when the date has no
/// record or an inactive one, else one more than the streak ending at the
/// previous calendar day. The earliest representable date has no
/// predecessor, so an active day there counts as a streak of one.
pub open spec fn spec_streak(s: Seq<(Date, Day)>, d: Date) -> nat
    decreases d.key(),
{
    if !d.wf() {
        0
    } else {
        match spec_get(s, d) {
            None => 0,
            Some(day) => if !day.spec_active() {
                0
            } else if d.is_min() {
                1
            } else {
                1 + spec_streak(s, d.pred_spec())
            },
        }
    }
}

impl View for History {
    type V = Seq<(Date, Day)>;

    closed spec fn view(&self) -> Seq<(Date, Day)> {
        self.entries@
    }
}

impl History {
    pub open spec fn wf(self) -> bool {
        entries_wf(self@)
    }

    /// The empty store.
    pub fn new() -> (h: History)
        ensures
            h@ == Seq::<(Date, Day)>::empty(),
            h.wf(),
    {
        History { entries: Vec::new() }
    }

    pub(crate) fn from_entries(entries: Vec<(Date, Day)>) -> (h: History)
        requires
            entries_wf(entries@),
        ensures
            h@ == entries@,
            h.wf(),
    {
        History { entries }
    }

    pub(crate) fn entries_ref(&self) -> (r: &Vec<(Date, Day)>)
        ensures
            r@ == self@,
    {
        &self.entries
    }

    pub fn len(&self) -> (n: usize)
        ensures
            n == self@.len(),
    {
        self.entries.len()
    }

    /// The record stored for a date, or `None` when the date has none.
    pub fn get(&self, date: &Date) -> (r: Option<Day>)
        requires
            self.wf(),
        ensures
            r == spec_get(self@, *date),
            r matches Some(day) ==> day.wf(),
    {
        let mut i: usize = 0;
        while i < self.entries.len()
            invariant
                self.wf(),
                0 <= i <= self@.len(),
                forall|j: int| 0 <= j < i ==> self@[j].0 != *date,
            decreases self@.len() - i,
        {
            let e = self.entries[i];
            if e.0 == *date {
                proof {
                    lemma_get_at(self@, *date, i as int);
                }
                return Some(e.1);
            }
            i = i + 1;
        }
        proof {
            lemma_get_none(self@, *date);
        }
        None
    }

    /// First position whose entry's key is at least `key`; entries before it
    /// have strictly smaller keys.
    fn find_pos(&self, key: u64) -> (i: usize)
        requires
            self.wf(),
        ensures
            0 <= i <= self@.len(),
            forall|j: int| 0 <= j < i ==> self@[j].0.key() < key as int,
            i < self@.len() ==> self@[i as int].0.key() >= key as int,
    {
        let mut i: usize = 0;
        while i < self.entries.len()
            invariant
                self.wf(),
                0 <= i <= self@.len(),
                forall|j: int| 0 <= j < i ==> self@[j].0.key() < key as int,
            decreases self@.len() - i,
        {
            let e = self.entries[i];
            if e.0.key_val() >= key {
                return i;
            }
            i = i + 1;
        }
        i
    }

    /// Stores `day` as the one record of `date`, leaving every other date's
    /// record untouched.
    fn put(&mut self, date: Date, day: Day)
        requires
            old(self).wf(),
            date.wf(),
            day.wf(),
        ensures
            final(self).wf(),
            spec_get(final(self)@, date) == Some(day),
            forall|d2: Date| d2 != date ==> spec_get(final(self)@, d2) == spec_get(old(self)@, d2),
    {
        let ghost s0 = self@;
        let k = date.key_val();
        let i = self.find_pos(k);
        proof {
            // Entries at or past the found position carry other, larger keys
            // unless the position holds `date` itself.
            assert forall|j: int| i < j < s0.len() implies s0[j].0.key() > date.key() by {
                assert(s0[i as int].0.key() >= date.key());
                if s0[i as int].0.key() == date.key() {
                    lemma_key_injective(s0[i as int].0, date);
                } else {
                    assert(s0[j].0.key() > s0[i as int].0.key());
                }
                assert(s0[j].0.key() > s0[i as int].0.key());
            }
        }
        if i < self.entries.len() {
            let e = self.entries[i];
            if e.0 == date {
                self.entries.remove(i);
                self.entries.insert(i, (date, day));
                proof {
                    assert(self@ =~= s0.update(i as int, (date, day)));
                    assert forall|j: int| 0 <= j < i implies s0[j].0 != date by {
                        assert(s0[j].0.key() < date.key());
                    }
                    lemma_get_at(self@, date, i as int);
                    assert forall|d2: Date| d2 != date implies spec_get(self@, d2) == spec_get(
                        s0,
                        d2,
                    ) by {
                        lemma_get_update_other(s0, i as int, (date, day), d2);
                    }
                }
                return ;
            }
            proof {
                if s0[i as int].0.key() == date.key() {
                    lemma_key_injective(s0[i as int].0, date);
                }
                assert(s0[i as int].0.key() > date.key());
            }
        }
        self.entries.insert(i, (date, day));
        proof {
            let t = self@;
            assert(t == s0.insert(i as int, (date, day)));
            assert forall|j: int| 0 <= j < s0.len() implies s0[j].0 != date by {
                if j < i {
                    assert(s0[j].0.key() < date.key());
                } else if j == i {
                    assert(s0[i as int].0.key() > date.key());
                } else {
                    assert(s0[j].0.key() > date.key());
                }
            }
            s0.insert_ensures(i as int, (date, day));
            assert forall|a: int, b: int| 0 <= a < b < t.len() implies t[a].0.key()
                < t[b].0.key() by {
                if a < i && b > i {
                    assert(t[a] == s0[a]);
                    assert(t[b] == s0[b - 1]);
                }
            }
            assert(entries_wf(t));
            lemma_get_none(s0, date);
            lemma_get_at(t, date, i as int);
            assert forall|d2: Date| d2 != date implies spec_get(self@, d2) == spec_get(s0, d2) by {
                lemma_get_insert_other(s0, i as int, (date, day), d2);
            }
        }
    }

    /// Logs a body weight for a date. An existing record keeps all its other
    /// fields; a date without one gets a fresh record whose other fields are
    /// unset.
    pub fn log_weight(&mut self, date: Date, weight: i64)
        requires
            old(self).wf(),
            date.wf(),
            centi_ok(weight as int),
        ensures
            final(self).wf(),
            spec_get(final(self)@, date) == Some(
                merged_weight(spec_get(old(self)@, date), weight),
            ),
            forall|d2: Date| d2 != date ==> spec_get(final(self)@, d2) == spec_get(old(self)@, d2),
    {
        let prev = self.get(&date);
        let day = match prev {
            Some(p) => Day::new(Some(weight), p.workout, p.training, p.biking, p.cheatday),
            None => Day::new(Some(weight), false, false, None, false),
        };
        self.put(date, day);
    }

    /// Logs activity for a date. Boolean fields merge by logical or, a
    /// supplied biking distance overwrites the stored one while an absent one
    /// retains it, and the weight is untouched. A date without a record gets
    /// a fresh one holding exactly the supplied values.
    pub fn log_sport(
        &mut self,
        date: Date,
        workout: bool,
        training: bool,
        biking: Option<i64>,
        cheatday: bool,
    )
        requires
            old(self).wf(),
            date.wf(),
            opt_centi_ok(biking),
        ensures
            final(self).wf(),
            spec_get(final(self)@, date) == Some(
                merged_sport(spec_get(old(self)@, date), workout, training, biking, cheatday),
            ),
            forall|d2: Date| d2 != date ==> spec_get(final(self)@, d2) == spec_get(old(self)@, d2),
    {
        let prev = self.get(&date);
        let day = match prev {
            Some(p) => Day::new(
                p.weight,
                p.workout || workout,
                p.training || training,
                match biking {
                    Some(b) => Some(b),
                    None => p.biking,
                },
                p.cheatday || cheatday,
            ),
            None => Day::new(None, workout, training, biking, cheatday),
        };
        self.put(date, day);
    }

    /// The current activity streak ending at `date`, walked backward one
    /// calendar day at a time.
    pub fn get_sport_streak(&self, date: Date) -> (n: u32)
        requires
            self.wf(),
            date.wf(),
        ensures
            n as nat == spec_streak(self@, date),
    {
        let mut count: u32 = 0;
        let mut cur: Date = date;
        loop
            invariant
                self.wf(),
                date.wf(),
                cur.wf(),
                count as nat + spec_streak(self@, cur) == spec_streak(self@, date),
                count as int + cur.key() <= date.key(),
            decreases cur.key(),
        {
            let active = match self.get(&cur) {
                Some(day) => day.is_active(),
                None => false,
            };
            if !active {
                return count;
            }
            count = count + 1;
            if cur.year == 0 && cur.month == 1 && cur.day == 1 {
                return count;
            }
            proof {
                lemma_pred_wf(cur);
            }
            cur = cur.pred();
        }
    }

    /// Every record, as plain rows sorted by ascending date.
    pub fn get_days_table(&self) -> (rows: Vec<(Date, Day)>)
        requires
            self.wf(),
        ensures
            rows@ == self@,
    {
        let mut rows: Vec<(Date, Day)> = Vec::new();
        let mut i: usize = 0;
        while i < self.entries.len()
            invariant
                0 <= i <= self@.len(),
                self@ == self.entries@,
                rows@ =~= self@.take(i as int),
            decreases self@.len() - i,
        {
            rows.push(self.entries[i]);
            i = i + 1;
        }
        proof {
            assert(rows@ =~= self@);
        }
        rows
    }
}

} // verus!
