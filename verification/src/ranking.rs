//! The order in which recommendations are shown.

use vstd::prelude::*;
use crate::catalog;
use crate::catalog::{Candidate, CandidateView};
use crate::double;
use crate::double::Double;
use crate::hardware;
use crate::hardware::HardwareProfile;
use crate::order;
use crate::scoring;
use crate::scoring::{Recommendation, RecommendationRequest, RecommendationView};
use crate::scoring_laws;

verus! {

/// A list with one recommendation put in: behind those that score as well or better,
/// before the worse ones at the end of the list.
pub open spec fn placed(list: Seq<RecommendationView>, r: RecommendationView) -> Seq<
    RecommendationView,
>
    decreases list.len(),
{
    if list.len() > 0 && double::less(list.last().score, r.score) {
        placed(list.drop_last(), r).push(list.last())
    } else {
        list.push(r)
    }
}

/// The recommendations with the best score first; equals stay in their order.
pub open spec fn ranked(list: Seq<RecommendationView>) -> Seq<RecommendationView>
    decreases list.len(),
{
    if list.len() == 0 {
        Seq::empty()
    } else {
        placed(ranked(list.drop_last()), list.last())
    }
}

/// How many recommendations to show: one at least and thirty at most.
pub open spec fn shown(limit: nat) -> nat {
    if limit < 1 {
        1
    } else if limit > 30 {
        30
    } else {
        limit
    }
}

/// The views of a list of recommendations.
pub open spec fn recommendation_views(list: Seq<Recommendation>) -> Seq<RecommendationView> {
    list.map_values(|r: Recommendation| r@)
}

/// What the candidates come to, in their order.
pub open spec fn all_scored(
    candidates: Seq<CandidateView>,
    hardware: HardwareProfile,
    task: Seq<char>,
    preference: Double,
    download_logs: Seq<Double>,
) -> Seq<RecommendationView> {
    Seq::new(
        candidates.len(),
        |i: int| scoring::scored(candidates[i], hardware, task, preference, download_logs[i]),
    )
}

/// The best `count` of a ranked list.
pub open spec fn top(list: Seq<RecommendationView>, count: nat) -> Seq<RecommendationView> {
    if count < list.len() {
        list.take(count as int)
    } else {
        list
    }
}

/// Whether every recommendation of a list has a score that is a number.
pub open spec fn all_numbers(list: Seq<RecommendationView>) -> bool {
    forall|i: int| 0 <= i < list.len() ==> !(#[trigger] list[i]).score.is_nan()
}

/// Whether no recommendation of a list scores better than one before it.
pub open spec fn is_descending(list: Seq<RecommendationView>) -> bool {
    forall|i: int, j: int|
        0 <= i < j < list.len() ==> double::at_most(
            (#[trigger] list[j]).score,
            (#[trigger] list[i]).score,
        )
}

/// The recommendations that score as much as `score`, in their order.
pub open spec fn scoring_as(list: Seq<RecommendationView>, score: Double) -> Seq<
    RecommendationView,
> {
    list.filter(|r: RecommendationView| r.score.value() == score.value())
}

/// Putting a recommendation in adds it and nothing else.
proof fn lemma_placed_members(list: Seq<RecommendationView>, r: RecommendationView)
    ensures
        placed(list, r).to_multiset() == list.to_multiset().insert(r),
        placed(list, r).len() == list.len() + 1,
    decreases list.len(),
{
    broadcast use vstd::seq_lib::group_to_multiset_ensures;

    if list.len() > 0 && double::less(list.last().score, r.score) {
        lemma_placed_members(list.drop_last(), r);
        assert(list.drop_last().push(list.last()) == list);
        assert(list.to_multiset() == list.drop_last().to_multiset().insert(list.last()));
        assert(list.drop_last().to_multiset().insert(r).insert(list.last())
            == list.drop_last().to_multiset().insert(list.last()).insert(r));
    }
}

/// Ranking neither adds nor loses a recommendation.
pub proof fn lemma_ranked_members(list: Seq<RecommendationView>)
    ensures
        ranked(list).to_multiset() == list.to_multiset(),
        ranked(list).len() == list.len(),
    decreases list.len(),
{
    broadcast use vstd::seq_lib::group_to_multiset_ensures;

    if list.len() > 0 {
        lemma_ranked_members(list.drop_last());
        lemma_placed_members(ranked(list.drop_last()), list.last());
        assert(list.drop_last().push(list.last()) == list);
    } else {
        assert(list == Seq::<RecommendationView>::empty());
    }
}

/// A list in descending order stays so when a recommendation is put in.
proof fn lemma_placed_descending(list: Seq<RecommendationView>, r: RecommendationView)
    requires
        all_numbers(list),
        !r.score.is_nan(),
        is_descending(list),
    ensures
        all_numbers(placed(list, r)),
        is_descending(placed(list, r)),
        placed(list, r).len() == list.len() + 1,
        forall|i: int|
            0 <= i < placed(list, r).len() ==> placed(list, r)[i] == r || list.contains(
                #[trigger] placed(list, r)[i],
            ),
    decreases list.len(),
{
    reveal(double::at_most);
    reveal(double::less);
    let p = placed(list, r);
    if list.len() > 0 && double::less(list.last().score, r.score) {
        let front = list.drop_last();
        let q = placed(front, r);
        lemma_placed_descending(front, r);
        assert forall|i: int| 0 <= i < q.len() implies list.contains(#[trigger] q[i]) || q[i] == r
            by {
            if q[i] != r {
                let k = choose|k: int| 0 <= k < front.len() && front[k] == q[i];
                assert(list[k] == q[i]);
            }
        }
        assert forall|i: int| 0 <= i < q.len() implies double::at_most(
            list.last().score,
            (#[trigger] q[i]).score,
        ) by {
            if q[i] != r {
                let k = choose|k: int| 0 <= k < front.len() && front[k] == q[i];
                assert(list[k] == q[i]);
                assert(list[list.len() - 1] == list.last());
            }
        }
        assert(list.contains(list.last())) by {
            assert(list[list.len() - 1] == list.last());
        }
        assert forall|i: int| 0 <= i < p.len() implies p[i] == r || list.contains(#[trigger] p[i])
            by {
            if i < q.len() {
                assert(p[i] == q[i]);
            }
        }
    } else {
        assert forall|i: int, j: int| 0 <= i < j < p.len() implies double::at_most(
            (#[trigger] p[j]).score,
            (#[trigger] p[i]).score,
        ) by {
            if j == list.len() {
                assert(list[list.len() - 1] == list.last());
                if i < list.len() - 1 {
                    assert(double::at_most(list[list.len() - 1].score, list[i].score));
                }
            }
        }
        assert forall|i: int| 0 <= i < p.len() implies p[i] == r || list.contains(#[trigger] p[i])
            by {
            if i < list.len() {
                assert(p[i] == list[i]);
            }
        }
    }
}

/// A ranked list begins with the best score and goes down from there.
pub proof fn lemma_ranked_descending(list: Seq<RecommendationView>)
    requires
        all_numbers(list),
    ensures
        all_numbers(ranked(list)),
        is_descending(ranked(list)),
    decreases list.len(),
{
    if list.len() > 0 {
        let front = list.drop_last();
        assert forall|i: int| 0 <= i < front.len() implies !(#[trigger] front[i]).score.is_nan()
            by {
            assert(front[i] == list[i]);
        }
        lemma_ranked_descending(front);
        assert(list[list.len() - 1] == list.last());
        lemma_placed_descending(ranked(front), list.last());
    }
}

/// Putting a recommendation in leaves those that score alike in their order, itself last.
proof fn lemma_placed_stable(list: Seq<RecommendationView>, r: RecommendationView, score: Double)
    requires
        all_numbers(list),
        !r.score.is_nan(),
    ensures
        scoring_as(placed(list, r), score) == if r.score.value() == score.value() {
            scoring_as(list, score).push(r)
        } else {
            scoring_as(list, score)
        },
    decreases list.len(),
{
    reveal(double::less);
    reveal(Seq::filter);
    let alike = |r: RecommendationView| r.score.value() == score.value();
    if list.len() > 0 && double::less(list.last().score, r.score) {
        let front = list.drop_last();
        assert forall|i: int| 0 <= i < front.len() implies !(#[trigger] front[i]).score.is_nan()
            by {
            assert(front[i] == list[i]);
        }
        lemma_placed_stable(front, r, score);
        let q = placed(front, r);
        assert(q.push(list.last()).drop_last() == q);
    } else {
        assert(list.push(r).drop_last() == list);
    }
}

/// Recommendations that score alike stay in the order in which they came.
pub proof fn lemma_ranked_stable(list: Seq<RecommendationView>, score: Double)
    requires
        all_numbers(list),
    ensures
        scoring_as(ranked(list), score) == scoring_as(list, score),
    decreases list.len(),
{
    reveal(Seq::filter);
    if list.len() > 0 {
        let front = list.drop_last();
        assert forall|i: int| 0 <= i < front.len() implies !(#[trigger] front[i]).score.is_nan()
            by {
            assert(front[i] == list[i]);
        }
        lemma_ranked_stable(front, score);
        lemma_ranked_descending(front);
        assert(list[list.len() - 1] == list.last());
        lemma_placed_stable(ranked(front), list.last(), score);
    }
}

/// The recommendations shown are at most thirty and at most as many as there are, and there
/// is one if there are any. None that is left out scores better than one that is shown.
pub proof fn lemma_shown_are_best(list: Seq<RecommendationView>, limit: nat)
    requires
        all_numbers(list),
    ensures
        ({
            let best = top(ranked(list), shown(limit));
            &&& best.len() <= 30
            &&& best.len() <= list.len()
            &&& list.len() > 0 ==> best.len() > 0
            &&& limit <= 30 && limit > 0 ==> best.len() <= limit
            &&& is_descending(best)
            &&& forall|i: int, j: int|
                0 <= i < best.len() <= j < list.len() ==> double::at_most(
                    (#[trigger] ranked(list)[j]).score,
                    (#[trigger] best[i]).score,
                )
        }),
{
    lemma_ranked_members(list);
    lemma_ranked_descending(list);
    let all = ranked(list);
    let best = top(all, shown(limit));
    assert forall|i: int| 0 <= i < best.len() implies #[trigger] best[i] == all[i] by {}
}

/// As many recommendations are shown as are asked for, if there are so many: with a limit
/// from 1 to 30 the smaller of the limit and their number, with a greater limit the smaller
/// of 30 and their number, and with none one, if there is one.
pub proof fn lemma_number_shown(list: Seq<RecommendationView>, limit: nat)
    ensures
        ({
            let n = top(ranked(list), shown(limit)).len();
            &&& 1 <= limit <= 30 ==> n == if list.len() < limit {
                list.len()
            } else {
                limit
            }
            &&& limit > 30 ==> n == if list.len() < 30 {
                list.len()
            } else {
                30
            }
            &&& limit == 0 ==> n == if list.len() < 1 {
                0nat
            } else {
                1
            }
        }),
{
    lemma_ranked_members(list);
}

/// What is shown is the beginning of the ranked list, and every recommendation that is shown
/// is one of the list.
pub proof fn lemma_shown_are_members(list: Seq<RecommendationView>, limit: nat, i: int)
    requires
        0 <= i < top(ranked(list), shown(limit)).len(),
    ensures
        top(ranked(list), shown(limit))[i] == ranked(list)[i],
        list.contains(top(ranked(list), shown(limit))[i]),
{
    lemma_ranked_members(list);
    broadcast use vstd::seq_lib::group_to_multiset_ensures;

    let r = ranked(list)[i];
    assert(ranked(list).contains(r));
    assert(ranked(list).to_multiset().count(r) > 0);
    assert(list.to_multiset().count(r) > 0);
}

/// Every candidate is judged, each by itself, by its own number of downloads.
pub proof fn lemma_each_is_judged(
    candidates: Seq<CandidateView>,
    hardware: HardwareProfile,
    task: Seq<char>,
    preference: Double,
    download_logs: Seq<Double>,
    i: int,
)
    requires
        0 <= i < candidates.len(),
    ensures
        ({
            let all = all_scored(candidates, hardware, task, preference, download_logs);
            &&& all.len() == candidates.len()
            &&& all[i] == scoring::scored(
                candidates[i],
                hardware,
                task,
                preference,
                download_logs[i],
            )
        }),
{
}

/// On a measured machine the scores of sized candidates are numbers, so that their
/// recommendations can be ranked.
pub proof fn lemma_scores_are_numbers(
    candidates: Seq<CandidateView>,
    hardware: HardwareProfile,
    task: Seq<char>,
    preference: Double,
    download_logs: Seq<Double>,
)
    requires
        hardware::is_measured(hardware),
        !preference.is_nan(),
        candidates.len() == download_logs.len(),
        forall|i: int| 0 <= i < candidates.len() ==> catalog::is_sized(#[trigger] candidates[i]),
        forall|i: int|
            0 <= i < download_logs.len() ==> order::is_natural(#[trigger] download_logs[i]),
    ensures
        all_numbers(all_scored(candidates, hardware, task, preference, download_logs)),
{
    let all = all_scored(candidates, hardware, task, preference, download_logs);
    reveal(double::at_most);
    assert forall|i: int| 0 <= i < all.len() implies !(#[trigger] all[i]).score.is_nan() by {
        assert(catalog::is_sized(candidates[i]) && order::is_natural(download_logs[i]));
        scoring_laws::lemma_shown_scores_are_fractions(
            candidates[i],
            hardware,
            task,
            preference,
            download_logs[i],
        );
    }
}

/// Puts one recommendation into a list.
fn place(list: &mut Vec<Recommendation>, r: Recommendation)
    ensures
        recommendation_views(final(list)@) == placed(recommendation_views(old(list)@), r@),
{
    let ghost before = recommendation_views(list@);
    let mut position: usize = list.len();
    assert(before.take(position as int) + before.skip(position as int) =~= before);
    assert(placed(before.take(position as int), r@) + before.skip(position as int) =~= placed(
        before,
        r@,
    )) by {
        assert(before.take(position as int) == before);
    }
    while position > 0 && list[position - 1].score.is_less(r.score)
        invariant
            position <= list.len(),
            before == recommendation_views(list@),
            placed(before, r@) == placed(before.take(position as int), r@) + before.skip(
                position as int,
            ),
        decreases position,
    {
        proof {
            let part = before.take(position as int);
            assert(part.drop_last() == before.take(position - 1));
            assert(part.last() == list@[position - 1]@);
            assert(placed(part, r@) + before.skip(position as int) =~= placed(
                part.drop_last(),
                r@,
            ) + before.skip(position - 1));
        }
        position = position - 1;
    }
    proof {
        let part = before.take(position as int);
        if position > 0 {
            assert(part.last() == list@[position - 1]@);
        }
        assert(placed(part, r@) == part.push(r@));
    }
    list.insert(position, r);
    assert(recommendation_views(list@) =~= before.take(position as int).push(r@) + before.skip(
        position as int,
    ));
}

/// The best recommendations among the candidates, the best one first, given the decimal
/// logarithms of their counted downloads.
pub fn recommend_models(
    candidates: &Vec<Candidate>,
    download_logs: &Vec<Double>,
    hardware: &HardwareProfile,
    request: &RecommendationRequest,
) -> (r: Vec<Recommendation>)
    requires
        candidates.len() == download_logs.len(),
    ensures
        recommendation_views(r@) == top(
            ranked(
                all_scored(
                    catalog::candidate_views(candidates@),
                    *hardware,
                    request.task@,
                    request.speed_quality_preference,
                    download_logs@,
                ),
            ),
            shown(request.limit as nat),
        ),
{
    let ghost all = all_scored(
        catalog::candidate_views(candidates@),
        *hardware,
        request.task@,
        request.speed_quality_preference,
        download_logs@,
    );
    let mut list: Vec<Recommendation> = Vec::new();
    for i in 0..candidates.len()
        invariant
            candidates.len() == download_logs.len(),
            all == all_scored(
                catalog::candidate_views(candidates@),
                *hardware,
                request.task@,
                request.speed_quality_preference,
                download_logs@,
            ),
            recommendation_views(list@) == ranked(all.take(i as int)),
    {
        let r = scoring::score_candidate(&candidates[i], hardware, request, download_logs[i]);
        assert(all.take(i + 1).drop_last() == all.take(i as int));
        assert(all[i as int] == r@);
        place(&mut list, r);
    }
    assert(all.take(candidates.len() as int) == all);
    let ghost before = recommendation_views(list@);
    let count: usize = if request.limit < 1 {
        1
    } else if request.limit > 30 {
        30
    } else {
        request.limit
    };
    if count < list.len() {
        list.truncate(count);
        assert(recommendation_views(list@) =~= before.take(count as int));
    }
    list
}

} // verus!
