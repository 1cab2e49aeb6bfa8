use vstd::prelude::*;
use crate::room::Player;

verus! {

/// The card a player placed in the center this round. Meaningful only for
/// players that have submitted.
pub open spec fn card_of(p: Player) -> Seq<char> {
    p.current_card->Some_0@
}

/// How many votes have been cast among `ps`.
pub open spec fn votes_cast(ps: Seq<Player>) -> int
    decreases ps.len(),
{
    if ps.len() == 0 {
        0
    } else {
        votes_cast(ps.drop_last()) + if ps.last().vote is Some {
            1int
        } else {
            0int
        }
    }
}

/// How many of the cast votes name the card `c`.
pub open spec fn votes_for(ps: Seq<Player>, c: Seq<char>) -> int
    decreases ps.len(),
{
    if ps.len() == 0 {
        0
    } else {
        votes_for(ps.drop_last(), c) + if ps.last().vote is Some && ps.last().vote->Some_0@ == c {
            1int
        } else {
            0int
        }
    }
}

/// The points player `i` gains when the round resolves with `active_i`
/// active. When nobody or everybody found the active card, every voter
/// gains two and the active player nothing; otherwise the active player
/// gains exactly three, a non-active player gains three if their own card
/// was the active card, and every non-active player additionally gains one
/// point per vote their submission attracted.
pub open spec fn delta(ps: Seq<Player>, active_i: int, i: int) -> int {
    let ac = card_of(ps[active_i]);
    let n = votes_cast(ps);
    let v = votes_for(ps, ac);
    if v == 0 || v == n {
        if i == active_i {
            0
        } else {
            2
        }
    } else {
        if i == active_i {
            3
        } else {
            (if card_of(ps[i]) == ac {
                3int
            } else {
                0int
            }) + votes_for(ps, card_of(ps[i]))
        }
    }
}

pub proof fn lemma_votes_cast_le_len(ps: Seq<Player>)
    ensures
        0 <= votes_cast(ps) <= ps.len(),
    decreases ps.len(),
{
    if ps.len() > 0 {
        lemma_votes_cast_le_len(ps.drop_last());
    }
}

pub proof fn lemma_votes_for_le_cast(ps: Seq<Player>, c: Seq<char>)
    ensures
        0 <= votes_for(ps, c) <= votes_cast(ps),
    decreases ps.len(),
{
    if ps.len() > 0 {
        lemma_votes_for_le_cast(ps.drop_last(), c);
    }
}

/// Every per-round gain is small: at most three plus one per vote cast.
pub proof fn lemma_delta_bounds(ps: Seq<Player>, active_i: int, i: int)
    requires
        0 <= active_i < ps.len(),
        0 <= i < ps.len(),
    ensures
        0 <= delta(ps, active_i, i) <= 3 + ps.len(),
{
    lemma_votes_cast_le_len(ps);
    lemma_votes_for_le_cast(ps, card_of(ps[i]));
    lemma_votes_for_le_cast(ps, card_of(ps[active_i]));
}

/// Law: in a round where no vote, or every vote, named the active card,
/// every voting player gains exactly two points and the active player
/// gains exactly zero.
pub proof fn lemma_symmetric_failure(ps: Seq<Player>, active_i: int, i: int)
    requires
        0 <= active_i < ps.len(),
        0 <= i < ps.len(),
        votes_for(ps, card_of(ps[active_i])) == 0 || votes_for(ps, card_of(ps[active_i]))
            == votes_cast(ps),
    ensures
        delta(ps, active_i, i) == if i == active_i {
            0int
        } else {
            2int
        },
{
}

/// Law: in a round where some but not all votes named the active card,
/// the active player gains exactly three points.
pub proof fn lemma_split_vote_active_gain(ps: Seq<Player>, active_i: int)
    requires
        0 <= active_i < ps.len(),
        0 < votes_for(ps, card_of(ps[active_i])),
        votes_for(ps, card_of(ps[active_i])) < votes_cast(ps),
    ensures
        delta(ps, active_i, active_i) == 3,
{
}

/// Sum of the points held by the first `k` players.
pub open spec fn sum_points_upto(ps: Seq<Player>, k: int) -> int
    decreases k,
{
    if k <= 0 {
        0
    } else {
        sum_points_upto(ps, k - 1) + ps[k - 1].info.points
    }
}

/// Sum of the round's gains of the first `k` players.
pub open spec fn sum_delta_upto(ps: Seq<Player>, active_i: int, k: int) -> int
    decreases k,
{
    if k <= 0 {
        0
    } else {
        sum_delta_upto(ps, active_i, k - 1) + delta(ps, active_i, k - 1)
    }
}

/// Counts the votes cast so far.
pub(crate) fn count_votes_cast(players: &Vec<Player>) -> (n: usize)
    ensures
        n == votes_cast(players@),
{
    let mut n: usize = 0;
    let mut i: usize = 0;
    while i < players.len()
        invariant
            0 <= i <= players@.len(),
            n <= i,
            n == votes_cast(players@.take(i as int)),
        decreases players@.len() - i,
    {
        proof {
            assert(players@.take(i + 1).drop_last() =~= players@.take(i as int));
            assert(players@.take(i + 1).last() == players@[i as int]);
        }
        if players[i].vote.is_some() {
            n = n + 1;
        }
        i = i + 1;
    }
    proof {
        assert(players@.take(players@.len() as int) =~= players@);
    }
    n
}

/// Counts the votes cast for one card.
pub(crate) fn count_votes_for(players: &Vec<Player>, c: &String) -> (n: usize)
    ensures
        n == votes_for(players@, c@),
{
    let mut n: usize = 0;
    let mut i: usize = 0;
    while i < players.len()
        invariant
            0 <= i <= players@.len(),
            n <= i,
            n == votes_for(players@.take(i as int), c@),
        decreases players@.len() - i,
    {
        proof {
            assert(players@.take(i + 1).drop_last() =~= players@.take(i as int));
            assert(players@.take(i + 1).last() == players@[i as int]);
        }
        let hit = match &players[i].vote {
            Some(v) => v.eq(c),
            None => false,
        };
        if hit {
            n = n + 1;
        }
        i = i + 1;
    }
    proof {
        assert(players@.take(players@.len() as int) =~= players@);
    }
    n
}

/// Law: resolving a round neither invents nor drops points. When every
/// player's total grows by exactly the round's gain, the table's total
/// grows by exactly the sum of the gains; applied once per resolved round,
/// the total after any number of rounds is the sum of the per-round gains.
pub proof fn lemma_round_points_conservation(pre: Seq<Player>, post: Seq<Player>, active_i: int, k: int)
    requires
        post.len() == pre.len(),
        0 <= k <= pre.len(),
        forall|i: int|
            0 <= i < pre.len() ==> post[i].info.points == pre[i].info.points + delta(
                pre,
                active_i,
                i,
            ),
    ensures
        sum_points_upto(post, k) == sum_points_upto(pre, k) + sum_delta_upto(pre, active_i, k),
    decreases k,
{
    if k > 0 {
        lemma_round_points_conservation(pre, post, active_i, k - 1);
    }
}

} // verus!
