use vault_manifest::lease::{lease_winner, LeaseChoice, ScoreOrder};

#[derive(Clone, Copy, Debug)]
struct Lease {
    epoch: u64,
    holder_pubkey: &'static str,
    connectivity_score: f32,
}

fn lease(epoch: u64, holder: &'static str, score: f32) -> Lease {
    Lease { epoch, holder_pubkey: holder, connectivity_score: score }
}

fn score_order(a: f32, b: f32) -> ScoreOrder {
    if a == b {
        ScoreOrder::Equal
    } else if a > b {
        ScoreOrder::FirstHigher
    } else {
        ScoreOrder::SecondHigher
    }
}

fn merge_lease(a: Lease, b: Lease) -> Lease {
    match lease_winner(
        a.epoch,
        a.holder_pubkey,
        b.epoch,
        b.holder_pubkey,
        score_order(a.connectivity_score, b.connectivity_score),
    ) {
        LeaseChoice::First => a,
        LeaseChoice::Second => b,
    }
}

#[test]
fn higher_epoch_always_wins_even_with_a_worse_score() {
    let old = lease(1, "alice", 100.0);
    let new = lease(2, "bob", 1.0);
    assert_eq!(merge_lease(old, new).holder_pubkey, "bob");
    assert_eq!(merge_lease(new, old).holder_pubkey, "bob", "merge must be commutative");
}

#[test]
fn same_epoch_best_connectivity_wins() {
    let weak = lease(1, "alice", 5.0);
    let strong = lease(1, "bob", 50.0);
    assert_eq!(merge_lease(weak, strong).holder_pubkey, "bob");
    assert_eq!(merge_lease(strong, weak).holder_pubkey, "bob");
}

#[test]
fn ties_break_deterministically_by_pubkey() {
    let a = lease(1, "alice", 10.0);
    let b = lease(1, "bob", 10.0);
    assert_eq!(merge_lease(a, b).holder_pubkey, "alice");
    assert_eq!(merge_lease(b, a).holder_pubkey, "alice", "must be order-independent");
}

#[test]
fn lease_winner_decides_by_epoch_then_score_then_holder() {
    assert_eq!(lease_winner(3, "z", 2, "a", ScoreOrder::SecondHigher), LeaseChoice::First);
    assert_eq!(lease_winner(2, "a", 3, "z", ScoreOrder::FirstHigher), LeaseChoice::Second);
    assert_eq!(lease_winner(2, "a", 2, "b", ScoreOrder::SecondHigher), LeaseChoice::Second);
    assert_eq!(lease_winner(2, "b", 2, "a", ScoreOrder::FirstHigher), LeaseChoice::First);
    assert_eq!(lease_winner(2, "b", 2, "a", ScoreOrder::Equal), LeaseChoice::Second);
    assert_eq!(lease_winner(2, "same", 2, "same", ScoreOrder::Equal), LeaseChoice::First);
}
