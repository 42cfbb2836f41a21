//! The choice of the best among scored candidates.

use vstd::prelude::*;

verus! {

/// Whether `best` is the place of the highest score in `scores`, and the
/// first place of that score. A place without a score is never the best.
pub open spec fn is_first_best(scores: Seq<Option<u64>>, best: int) -> bool {
    &&& 0 <= best < scores.len()
    &&& scores[best] is Some
    &&& forall|j: int|
        0 <= j < scores.len() && scores[j] is Some ==> scores[j].unwrap() <= scores[best].unwrap()
    &&& forall|j: int|
        0 <= j < best && scores[j] is Some ==> scores[j].unwrap() < scores[best].unwrap()
}

/// Whether `best` is the choice among `scores`: the first place of the
/// highest score, or none where no place has a score.
pub open spec fn is_choice(scores: Seq<Option<u64>>, best: Option<usize>) -> bool {
    match best {
        Some(place) => is_first_best(scores, place as int),
        None => forall|j: int| 0 <= j < scores.len() ==> scores[j] is None,
    }
}

/// The first place of the highest score in `scores`, or none where no
/// place has a score.
pub fn pick_best(scores: &Vec<Option<u64>>) -> (best: Option<usize>)
    ensures
        is_choice(scores@, best),
{
    let mut best: Option<usize> = None;
    let mut best_score: u64 = 0;
    let mut place: usize = 0;
    while place < scores.len()
        invariant
            place <= scores@.len(),
            match best {
                Some(found) => found < place && scores@[found as int] == Some(best_score),
                None => true,
            },
            is_choice(scores@.take(place as int), best),
        decreases scores@.len() - place,
    {
        let ghost seen = scores@.take(place as int);
        let ghost more = scores@.take(place + 1);
        let ghost before = best;
        match scores[place] {
            Some(score) => {
                let better: bool = match best {
                    Some(_) => score > best_score,
                    None => true,
                };
                if better {
                    best = Some(place);
                    best_score = score;
                }
            },
            None => {},
        }
        proof {
            assert forall|j: int| 0 <= j < place implies more[j] == seen[j] by {}
            assert(more[place as int] == scores@[place as int]);
            match before {
                Some(found) => {
                    assert(seen[found as int] == scores@[found as int]);
                },
                None => {
                    assert forall|j: int| 0 <= j < place implies more[j] is None by {
                        assert(seen[j] is None);
                    }
                },
            }
        }
        place = place + 1;
    }
    proof {
        assert(scores@.take(place as int) =~= scores@);
    }
    best
}

} // verus!
