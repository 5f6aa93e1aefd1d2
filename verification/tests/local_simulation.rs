//! In-process simulation of several agents gossiping manifest updates and a
//! provider-lease takeover, with no networking.

use vault_manifest::hlc::Hlc;
use vault_manifest::lease::{lease_winner, LeaseChoice, ScoreOrder};
use vault_manifest::manifest::{Entry, Manifest};

struct Agent {
    name: &'static str,
    clock: Hlc,
    manifest: Manifest,
}

impl Agent {
    fn new(name: &'static str) -> Self {
        Agent { name, clock: Hlc::zero(), manifest: Manifest::new() }
    }

    fn write(&mut self, path: &str, blob_hash: &str, wall_ms: u64) {
        let hlc = self.clock.tick(wall_ms);
        self.manifest.put(
            path,
            Entry {
                chunk_hashes: vec![blob_hash.to_string()],
                size: blob_hash.len() as u64,
                hlc,
                author_pubkey: self.name.to_string(),
                tombstone: false,
            },
        );
    }

    fn gossip_from(&mut self, other: &Agent) {
        self.manifest.merge(&other.manifest);
    }
}

#[test]
fn three_agents_converge_after_gossiping_pairwise() {
    let mut alice = Agent::new("alice");
    let mut bob = Agent::new("bob");
    let mut carol = Agent::new("carol");

    alice.write("notes/a.md", "hash-a1", 100);
    bob.write("notes/b.md", "hash-b1", 100);
    carol.write("notes/a.md", "hash-a2", 200);

    let snapshots = [alice.manifest.clone(), bob.manifest.clone(), carol.manifest.clone()];
    for agent in [&mut alice, &mut bob, &mut carol] {
        for snap in &snapshots {
            agent.manifest.merge(snap);
        }
    }

    for agent in [&alice, &bob, &carol] {
        assert_eq!(
            agent.manifest.get("notes/a.md").unwrap().chunk_hashes,
            vec!["hash-a2"],
            "{} should see Carol's later write win",
            agent.name
        );
        assert_eq!(agent.manifest.get("notes/b.md").unwrap().chunk_hashes, vec!["hash-b1"]);
        assert_eq!(agent.manifest.len(), 2, "{} manifest size", agent.name);
    }
}

#[test]
fn concurrent_writes_to_the_same_path_are_both_preserved_after_gossip() {
    let mut alice = Agent::new("alice");
    let mut bob = Agent::new("bob");

    alice.write("shared.txt", "alice-version", 500);
    bob.write("shared.txt", "bob-version", 500);

    alice.gossip_from(&bob);
    bob.gossip_from(&alice);

    assert_eq!(alice.manifest.len(), 2);
    assert_eq!(bob.manifest.len(), 2);
    let alice_winner = alice.manifest.get("shared.txt").unwrap().chunk_hashes.clone();
    let bob_winner = bob.manifest.get("shared.txt").unwrap().chunk_hashes.clone();
    assert_eq!(alice_winner, bob_winner, "both replicas must pick the same winner");
}

#[derive(Clone, Copy)]
struct Lease {
    epoch: u64,
    holder_pubkey: &'static str,
    connectivity_score: f32,
}

fn score_order(a: f32, b: f32) -> ScoreOrder {
    if a == b {
        ScoreOrder::Equal
    } else if a > b {
        ScoreOrder::FirstHigher
    } else {
        ScoreOrder::SecondHigher
    }
}

fn merge(a: Lease, b: Lease) -> Lease {
    match lease_winner(
        a.epoch,
        a.holder_pubkey,
        b.epoch,
        b.holder_pubkey,
        score_order(a.connectivity_score, b.connectivity_score),
    ) {
        LeaseChoice::First => a,
        LeaseChoice::Second => b,
    }
}

fn connectivity_score(direct_peer_count: u32, rtt_to_edge_ms: f32) -> f32 {
    (direct_peer_count as f32) * 10.0 - rtt_to_edge_ms
}

#[test]
fn provider_lease_takeover_prefers_the_best_connected_survivor() {
    let alice_lease = Lease { epoch: 1, holder_pubkey: "alice", connectivity_score: connectivity_score(4, 20.0) };
    let bob_proposal = Lease { epoch: 2, holder_pubkey: "bob", connectivity_score: connectivity_score(2, 15.0) };
    let carol_proposal = Lease { epoch: 2, holder_pubkey: "carol", connectivity_score: connectivity_score(5, 10.0) };

    let order_a = merge(merge(alice_lease, bob_proposal), carol_proposal);
    let order_b = merge(merge(carol_proposal, alice_lease), bob_proposal);
    let order_c = merge(merge(bob_proposal, carol_proposal), alice_lease);

    assert_eq!(order_a.holder_pubkey, "carol");
    assert_eq!(order_b.holder_pubkey, "carol");
    assert_eq!(order_c.holder_pubkey, "carol");
}
