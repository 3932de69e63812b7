//! The best of several template matches.
use crate::score::Score;
use vstd::prelude::*;

verus! {

/// The score zero, which a match has to beat.
pub open spec fn zero_score() -> Score {
    Score { bits: 0 }
}

/// Place of the first of the highest scores above zero among the usable matches.
pub open spec fn best_index(usable: Seq<bool>, scores: Seq<Score>) -> Option<int>
    decreases scores.len(),
{
    if scores.len() == 0 {
        None
    } else {
        let best = best_index(usable.drop_last(), scores.drop_last());
        let known = match best {
            Some(i) => scores[i],
            None => zero_score(),
        };
        if usable.last() && known.below(scores.last()) {
            Some(scores.len() - 1)
        } else {
            best
        }
    }
}

proof fn lemma_best_index_in_range(usable: Seq<bool>, scores: Seq<Score>)
    ensures
        best_index(usable, scores) matches Some(i) ==> 0 <= i < scores.len(),
    decreases scores.len(),
{
    if scores.len() > 0 {
        lemma_best_index_in_range(usable.drop_last(), scores.drop_last());
    }
}

/// The best of the usable matches.
pub fn find_best(usable: &[bool], scores: &[Score]) -> (r: Option<usize>)
    requires
        usable@.len() == scores@.len(),
    ensures
        match r {
            Some(i) => best_index(usable@, scores@) == Some(i as int) && i < scores@.len(),
            None => best_index(usable@, scores@) is None,
        },
{
    let mut best: Option<usize> = None;
    let mut i: usize = 0;
    while i < scores.len()
        invariant
            i <= scores@.len(),
            usable@.len() == scores@.len(),
            match best {
                Some(k) => best_index(usable@.take(i as int), scores@.take(i as int)) == Some(
                    k as int,
                ) && k < i,
                None => best_index(usable@.take(i as int), scores@.take(i as int)) is None,
            },
        decreases scores.len() - i,
    {
        assert(usable@.take(i + 1).drop_last() =~= usable@.take(i as int));
        assert(scores@.take(i + 1).drop_last() =~= scores@.take(i as int));
        let known: Score = match best {
            Some(k) => scores[k],
            None => Score::zero(),
        };
        if usable[i] && known.is_below(&scores[i]) {
            best = Some(i);
        }
        i = i + 1;
    }
    assert(usable@.take(scores@.len() as int) =~= usable@);
    assert(scores@.take(scores@.len() as int) =~= scores@);
    best
}

/// The best match is usable and above zero, no usable match is above it, those of them
/// before it that are above zero are all below it, and it is only missing when no usable
/// match is above zero.
pub proof fn law_best_match_is_the_highest(usable: Seq<bool>, scores: Seq<Score>)
    requires
        usable.len() == scores.len(),
    ensures
        match best_index(usable, scores) {
            Some(i) => {
                &&& 0 <= i < scores.len()
                &&& usable[i] && zero_score().below(scores[i])
                &&& forall|j: int|
                    0 <= j < scores.len() && usable[j] ==> !scores[i].below(#[trigger] scores[j])
                &&& forall|j: int|
                    0 <= j < i && usable[j] && zero_score().below(#[trigger] scores[j])
                        ==> scores[j].below(scores[i])
            },
            None => forall|j: int|
                0 <= j < scores.len() && usable[j] ==> !zero_score().below(#[trigger] scores[j]),
        },
    decreases scores.len(),
{
    if scores.len() > 0 {
        let fewer = scores.drop_last();
        let fewer_usable = usable.drop_last();
        law_best_match_is_the_highest(fewer_usable, fewer);
        let last = scores.len() - 1;
        assert forall|j: int| 0 <= j < last implies #[trigger] scores[j] == fewer[j] && usable[j]
            == fewer_usable[j] by {}
    }
}

/// Place of the first of the highest scores among the usable matches, however low.
pub open spec fn top_index(usable: Seq<bool>, scores: Seq<Score>) -> Option<int>
    decreases scores.len(),
{
    if scores.len() == 0 {
        None
    } else {
        let best = top_index(usable.drop_last(), scores.drop_last());
        if usable.last() && (best matches Some(i) ==> scores[i].ranks_below(scores.last())) {
            Some(scores.len() - 1)
        } else {
            best
        }
    }
}

/// The highest of the usable matches, however low.
pub fn find_top(usable: &[bool], scores: &[Score]) -> (r: Option<usize>)
    requires
        usable@.len() == scores@.len(),
    ensures
        match r {
            Some(i) => top_index(usable@, scores@) == Some(i as int) && i < scores@.len(),
            None => top_index(usable@, scores@) is None,
        },
{
    let mut best: Option<usize> = None;
    let mut i: usize = 0;
    while i < scores.len()
        invariant
            i <= scores@.len(),
            usable@.len() == scores@.len(),
            match best {
                Some(k) => top_index(usable@.take(i as int), scores@.take(i as int)) == Some(
                    k as int,
                ) && k < i,
                None => top_index(usable@.take(i as int), scores@.take(i as int)) is None,
            },
        decreases scores.len() - i,
    {
        assert(usable@.take(i + 1).drop_last() =~= usable@.take(i as int));
        assert(scores@.take(i + 1).drop_last() =~= scores@.take(i as int));
        let higher: bool = match best {
            Some(k) => scores[k].is_ranked_below(&scores[i]),
            None => true,
        };
        if usable[i] && higher {
            best = Some(i);
        }
        i = i + 1;
    }
    assert(usable@.take(scores@.len() as int) =~= usable@);
    assert(scores@.take(scores@.len() as int) =~= scores@);
    best
}

/// There is a highest match exactly when some match is usable; it is usable, no usable
/// match ranks above it, and the usable ones before it all rank below it.
pub proof fn law_top_match_is_the_highest(usable: Seq<bool>, scores: Seq<Score>)
    requires
        usable.len() == scores.len(),
    ensures
        match top_index(usable, scores) {
            Some(i) => {
                &&& 0 <= i < scores.len()
                &&& usable[i]
                &&& forall|j: int|
                    0 <= j < scores.len() && usable[j] ==> !scores[i].ranks_below(
                        #[trigger] scores[j],
                    )
                &&& forall|j: int|
                    0 <= j < i && usable[j] ==> (#[trigger] scores[j]).ranks_below(scores[i])
            },
            None => forall|j: int| 0 <= j < usable.len() ==> !#[trigger] usable[j],
        },
    decreases scores.len(),
{
    if scores.len() > 0 {
        let fewer = scores.drop_last();
        let fewer_usable = usable.drop_last();
        law_top_match_is_the_highest(fewer_usable, fewer);
        let last = scores.len() - 1;
        assert forall|j: int| 0 <= j < last implies #[trigger] scores[j] == fewer[j] && usable[j]
            == fewer_usable[j] by {}
        assert forall|j: int| 0 <= j < last implies #[trigger] usable[j]
            == fewer_usable[j] by {}
    }
}

/// Every score above zero counts, however small: there is a best match exactly when some
/// usable score is a number above zero, and the best one is such a number.
pub proof fn law_any_score_above_zero_counts(usable: Seq<bool>, scores: Seq<Score>, j: int)
    requires
        usable.len() == scores.len(),
    ensures
        0 <= j < scores.len() && usable[j] && 0 < scores[j].bits <= 2139095040 ==> best_index(
            usable,
            scores,
        ) is Some,
        match best_index(usable, scores) {
            Some(i) => 0 < scores[i].bits <= 2139095040,
            None => true,
        },
{
    law_best_match_is_the_highest(usable, scores);
}

} // verus!
