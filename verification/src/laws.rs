use vstd::prelude::*;
use crate::date::{Date, lemma_pred_wf};
use crate::day::{BIKING_DISTANCE, Day, merged_sport, merged_weight};
use crate::history::{spec_get, spec_streak};

verus! {

/// Logging a weight for a date with no prior record yields a record with
/// that weight, both activity flags false, no biking and no cheat-day mark.
pub proof fn lemma_weight_into_empty(weight: i64)
    ensures
        merged_weight(None, weight) == (Day {
            weight: Some(weight),
            workout: false,
            training: false,
            biking: None,
            cheatday: false,
        }),
{
}

/// Two activity logs for one date accumulate their flags by logical or:
/// neither call erases a flag the other set, and a flag of the prior record
/// survives both.
pub proof fn lemma_or_merge(
    prev: Option<Day>,
    w1: bool,
    t1: bool,
    b1: Option<i64>,
    c1: bool,
    w2: bool,
    t2: bool,
    b2: Option<i64>,
    c2: bool,
)
    ensures
        ({
            let second = merged_sport(Some(merged_sport(prev, w1, t1, b1, c1)), w2, t2, b2, c2);
            ((w1 || w2) ==> second.workout) && ((t1 || t2) ==> second.training) && ((c1 || c2)
                ==> second.cheatday) && (match prev {
                Some(p) => (p.workout ==> second.workout) && (p.training ==> second.training) && (
                p.cheatday ==> second.cheatday),
                None => true,
            })
        }),
{
}

/// Of two activity logs for one date, the later biking value wins only when
/// it is supplied: an absent value keeps the earlier one, which in turn
/// keeps the prior record's.
pub proof fn lemma_biking_merge(
    prev: Option<Day>,
    w1: bool,
    t1: bool,
    b1: Option<i64>,
    c1: bool,
    w2: bool,
    t2: bool,
    b2: Option<i64>,
    c2: bool,
)
    ensures
        ({
            let second = merged_sport(Some(merged_sport(prev, w1, t1, b1, c1)), w2, t2, b2, c2);
            second.biking == (if b2 is Some {
                b2
            } else if b1 is Some {
                b1
            } else {
                match prev {
                    Some(p) => p.biking,
                    None => None,
                }
            })
        }),
{
}

/// A date with no record has a streak of zero.
pub proof fn lemma_streak_absent(s: Seq<(Date, Day)>, d: Date)
    requires
        spec_get(s, d) is None,
    ensures
        spec_streak(s, d) == 0,
{
}

/// Three consecutive days with active records, preceded by a day whose
/// record is absent or inactive, give a streak of exactly three.
pub proof fn lemma_streak_three(s: Seq<(Date, Day)>, d: Date)
    requires
        d.wf(),
        !d.is_min(),
        !d.pred_spec().is_min(),
        !d.pred_spec().pred_spec().is_min(),
        match spec_get(s, d) {
            Some(x) => x.spec_active(),
            None => false,
        },
        match spec_get(s, d.pred_spec()) {
            Some(x) => x.spec_active(),
            None => false,
        },
        match spec_get(s, d.pred_spec().pred_spec()) {
            Some(x) => x.spec_active(),
            None => false,
        },
        match spec_get(s, d.pred_spec().pred_spec().pred_spec()) {
            Some(x) => !x.spec_active(),
            None => true,
        },
    ensures
        spec_streak(s, d) == 3,
{
    let d1 = d.pred_spec();
    let d2 = d1.pred_spec();
    let d3 = d2.pred_spec();
    lemma_pred_wf(d);
    lemma_pred_wf(d1);
    lemma_pred_wf(d2);
    assert(spec_streak(s, d3) == 0);
    assert(spec_streak(s, d2) == 1);
    assert(spec_streak(s, d1) == 2);
}

/// With neither workout nor training set, a day is active exactly when its
/// biking distance reaches the threshold: the threshold itself counts,
/// anything below it does not.
pub proof fn lemma_biking_threshold(day: Day)
    requires
        !day.workout,
        !day.training,
    ensures
        day.spec_active() <==> (day.biking is Some && day.biking->Some_0 >= BIKING_DISTANCE),
{
}

} // verus!
