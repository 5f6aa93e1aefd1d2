//! The provider-lease merge rule: leaderless failover without a consensus
//! round. Of two observed leases the higher epoch wins (a later takeover);
//! within one epoch the higher connectivity score wins; remaining ties go to
//! the smaller holder key, so every replica picks the same winner.
//!
//! Connectivity scores are floating-point numbers; the library takes the
//! outcome of comparing the two scores and decides everything else.
use vstd::prelude::*;

use crate::strings::{lemma_str_ge_total, str_ge, str_ge_exec};

verus! {

/// How the first lease's connectivity score compares to the second's:
/// `Equal` when the scores are equal, `FirstHigher` when they differ and the
/// first is greater, `SecondHigher` in every other case.
#[derive(Debug, Clone, Copy, PartialEq, Eq, Structural)]
pub enum ScoreOrder {
    FirstHigher,
    SecondHigher,
    Equal,
}

/// Which of the two leases wins.
#[derive(Debug, Clone, Copy, PartialEq, Eq, Structural)]
pub enum LeaseChoice {
    First,
    Second,
}

/// The winner of two leases, given epochs, holder keys and how the scores
/// compare.
pub open spec fn lease_winner_spec(
    a_epoch: u64,
    a_holder: Seq<char>,
    b_epoch: u64,
    b_holder: Seq<char>,
    scores: ScoreOrder,
) -> LeaseChoice {
    if a_epoch != b_epoch {
        if a_epoch > b_epoch {
            LeaseChoice::First
        } else {
            LeaseChoice::Second
        }
    } else if scores != ScoreOrder::Equal {
        if scores == ScoreOrder::FirstHigher {
            LeaseChoice::First
        } else {
            LeaseChoice::Second
        }
    } else if str_ge(b_holder, a_holder) {
        LeaseChoice::First
    } else {
        LeaseChoice::Second
    }
}

/// Decide which of two observed leases wins the merge.
pub fn lease_winner(
    a_epoch: u64,
    a_holder: &str,
    b_epoch: u64,
    b_holder: &str,
    scores: ScoreOrder,
) -> (r: LeaseChoice)
    ensures
        r == lease_winner_spec(a_epoch, a_holder@, b_epoch, b_holder@, scores),
{
    if a_epoch != b_epoch {
        return if a_epoch > b_epoch {
            LeaseChoice::First
        } else {
            LeaseChoice::Second
        };
    }
    if scores != ScoreOrder::Equal {
        return if scores == ScoreOrder::FirstHigher {
            LeaseChoice::First
        } else {
            LeaseChoice::Second
        };
    }
    if str_ge_exec(b_holder, a_holder) {
        LeaseChoice::First
    } else {
        LeaseChoice::Second
    }
}

/// A lease as the merge rule sees it, with the score as a value of a totally
/// ordered type.
pub struct LeaseKey {
    pub epoch: u64,
    pub score: int,
    pub holder: Seq<char>,
}

/// How two totally ordered scores compare.
pub open spec fn score_order(a: int, b: int) -> ScoreOrder {
    if a == b {
        ScoreOrder::Equal
    } else if a > b {
        ScoreOrder::FirstHigher
    } else {
        ScoreOrder::SecondHigher
    }
}

/// The merge of two leases.
pub open spec fn merge_key(a: LeaseKey, b: LeaseKey) -> LeaseKey {
    if lease_winner_spec(a.epoch, a.holder, b.epoch, b.holder, score_order(a.score, b.score))
        == LeaseChoice::First {
        a
    } else {
        b
    }
}

/// Law (order independence of two): merging `a` with `b` and `b` with `a`
/// pick the same lease.
pub proof fn law_lease_merge_commutative(a: LeaseKey, b: LeaseKey)
    ensures
        merge_key(a, b) == merge_key(b, a),
{
    lemma_str_ge_total(a.holder, b.holder);
}

/// Law (order independence of three): the grouping of merges does not
/// matter, so replicas that observe the same leases in any arrival order
/// agree on the provider.
pub proof fn law_lease_merge_associative(a: LeaseKey, b: LeaseKey, c: LeaseKey)
    ensures
        merge_key(merge_key(a, b), c) == merge_key(a, merge_key(b, c)),
{
    lemma_str_ge_total(a.holder, b.holder);
    lemma_str_ge_total(b.holder, c.holder);
    lemma_str_ge_total(a.holder, c.holder);
    crate::strings::lemma_str_ge_transitive(a.holder, b.holder, c.holder);
    crate::strings::lemma_str_ge_transitive(c.holder, b.holder, a.holder);
    crate::strings::lemma_str_ge_transitive(a.holder, c.holder, b.holder);
    crate::strings::lemma_str_ge_transitive(b.holder, a.holder, c.holder);
    crate::strings::lemma_str_ge_transitive(b.holder, c.holder, a.holder);
    crate::strings::lemma_str_ge_transitive(c.holder, a.holder, b.holder);
}

/// Law (a later epoch always wins): a lease of a higher epoch beats one of
/// a lower epoch whatever their scores and holders.
pub proof fn law_higher_epoch_wins(a: LeaseKey, b: LeaseKey)
    requires
        a.epoch > b.epoch,
    ensures
        merge_key(a, b) == a,
        merge_key(b, a) == a,
{
}

} // verus!
