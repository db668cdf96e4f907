use base64::Engine;
use indexer::correlation::CorrelationMap;
use indexer::decoder::process_outcome;
use indexer::filter::filter_outcomes;
use indexer::pipeline::Indexer;
use indexer::seeder::collect_transactions;
use indexer::types::{
    Action, Block, CallRecord, ExecutionOutcome, ExecutionStatus, Receipt, Shard,
    TransactionEnvelope,
};
use indexer::watchlist::Watchlist;

fn b64(plain: &str) -> String {
    base64::engine::general_purpose::STANDARD.encode(plain.as_bytes())
}

fn call_action(method: &str, args_plain: &str) -> Action {
    Action::FunctionCall { method_name: method.to_string(), args: b64(args_plain) }
}

fn envelope(hash: &str, receiver: &str, seed: &str) -> TransactionEnvelope {
    TransactionEnvelope {
        transaction_hash: hash.to_string(),
        signer_id: "someone.test".to_string(),
        receiver_id: receiver.to_string(),
        seed_receipt_id: seed.to_string(),
    }
}

fn outcome(receipt_id: &str, status: ExecutionStatus, receiver: &str, actions: Vec<Action>) -> ExecutionOutcome {
    ExecutionOutcome {
        receipt_id: receipt_id.to_string(),
        status,
        receipt: Receipt { receiver_id: receiver.to_string(), actions },
    }
}

fn block(height: u64, timestamp: u64, shards: Vec<Shard>) -> Block {
    Block { height, hash: format!("block-{height}"), timestamp, shards }
}

fn alice_watchlist() -> Watchlist {
    Watchlist::new(vec!["alice.test".to_string()])
}

#[test]
fn forward_then_final_yields_one_record() {
    let mut idx = Indexer::new(alice_watchlist());

    let block100 = block(
        100,
        1_000,
        vec![Shard {
            transactions: vec![envelope("T1", "alice.test", "R1")],
            outcomes: vec![outcome(
                "R1",
                ExecutionStatus::ForwardTo("R2".to_string()),
                "alice.test",
                vec![],
            )],
        }],
    );
    let records = idx.handle_block(&block100);
    assert!(records.is_empty());
    assert_eq!(idx.pending(), 1);
    assert_eq!(idx.lookup(&"R2".to_string()), Some(&"T1".to_string()));
    assert_eq!(idx.lookup(&"R1".to_string()), None);

    let block101 = block(
        101,
        2_000,
        vec![Shard {
            transactions: vec![],
            outcomes: vec![outcome(
                "R2",
                ExecutionStatus::FinalValue(vec![]),
                "alice.test",
                vec![call_action("add_project", "{\"account_id\":\"p1\"}")],
            )],
        }],
    );
    let records = idx.handle_block(&block101);
    assert_eq!(idx.pending(), 0);
    assert_eq!(records.len(), 1);
    let r: &CallRecord = &records[0];
    assert_eq!(r.transaction_hash, "T1");
    assert_eq!(r.receiver_id, "alice.test");
    assert_eq!(r.method_name, "add_project");
    assert_eq!(r.args, b"{\"account_id\":\"p1\"}".to_vec());
    assert_eq!(r.timestamp, 2_000);
}

#[test]
fn forward_then_failed_yields_nothing() {
    let mut idx = Indexer::new(alice_watchlist());

    let block100 = block(
        100,
        1_000,
        vec![Shard {
            transactions: vec![envelope("T1", "alice.test", "R1")],
            outcomes: vec![outcome(
                "R1",
                ExecutionStatus::ForwardTo("R2".to_string()),
                "alice.test",
                vec![],
            )],
        }],
    );
    assert!(idx.handle_block(&block100).is_empty());

    let block101 = block(
        101,
        2_000,
        vec![Shard {
            transactions: vec![],
            outcomes: vec![outcome(
                "R2",
                ExecutionStatus::Failed,
                "alice.test",
                vec![call_action("add_project", "{\"account_id\":\"p1\"}")],
            )],
        }],
    );
    let records = idx.handle_block(&block101);
    assert!(records.is_empty());
    assert_eq!(idx.pending(), 0);
}

#[test]
fn malformed_action_does_not_block_the_rest() {
    // One receipt with a malformed and a well-formed action, and a second
    // tracked outcome later in the same block: one record for the
    // well-formed action, one for the later outcome.
    let wl = Watchlist::new(vec!["alice.test".to_string(), "bob.test".to_string()]);
    let mut idx = Indexer::new(wl);

    let b = block(
        100,
        5_000,
        vec![
            Shard {
                transactions: vec![
                    envelope("T1", "alice.test", "R1"),
                    envelope("T2", "bob.test", "R2"),
                ],
                outcomes: vec![],
            },
            Shard {
                transactions: vec![],
                outcomes: vec![
                    outcome(
                        "R1",
                        ExecutionStatus::FinalValue(vec![]),
                        "alice.test",
                        vec![
                            Action::FunctionCall {
                                method_name: "broken".to_string(),
                                args: "!!!not-base64!!!".to_string(),
                            },
                            call_action("works", "{\"k\":1}"),
                        ],
                    ),
                    outcome(
                        "R2",
                        ExecutionStatus::FinalValue(vec![]),
                        "bob.test",
                        vec![call_action("after", "{}")],
                    ),
                ],
            },
        ],
    );
    let records = idx.handle_block(&b);
    assert_eq!(records.len(), 2);
    assert_eq!(records[0].transaction_hash, "T1");
    assert_eq!(records[0].method_name, "works");
    assert_eq!(records[0].args, b"{\"k\":1}".to_vec());
    assert_eq!(records[1].transaction_hash, "T2");
    assert_eq!(records[1].method_name, "after");
}

#[test]
fn valid_base64_but_not_json_object_is_skipped() {
    let mut idx = Indexer::new(alice_watchlist());
    let b = block(
        7,
        70,
        vec![Shard {
            transactions: vec![envelope("T1", "alice.test", "R1")],
            outcomes: vec![outcome(
                "R1",
                ExecutionStatus::FinalValue(vec![]),
                "alice.test",
                vec![
                    call_action("not_object", "[1,2,3]"),
                    call_action("not_json", "{{{{"),
                    call_action("object", "{\"a\":\"b\"}"),
                ],
            )],
        }],
    );
    let records = idx.handle_block(&b);
    assert_eq!(records.len(), 1);
    assert_eq!(records[0].method_name, "object");
    assert_eq!(records[0].args, b"{\"a\":\"b\"}".to_vec());
}

#[test]
fn untracked_outcomes_are_ignored() {
    let mut idx = Indexer::new(alice_watchlist());
    let b = block(
        3,
        30,
        vec![Shard {
            transactions: vec![],
            outcomes: vec![outcome(
                "R9",
                ExecutionStatus::FinalValue(vec![]),
                "alice.test",
                vec![call_action("m", "{}")],
            )],
        }],
    );
    let records = idx.handle_block(&b);
    assert!(records.is_empty());
    assert_eq!(idx.pending(), 0);
}

#[test]
fn seeder_extracts_only_watched_transactions() {
    let wl = alice_watchlist();
    let b = block(
        1,
        10,
        vec![
            Shard {
                transactions: vec![
                    envelope("T1", "alice.test", "R1"),
                    envelope("T2", "other.test", "R2"),
                ],
                outcomes: vec![],
            },
            Shard {
                transactions: vec![envelope("T3", "alice.test", "R3")],
                outcomes: vec![],
            },
        ],
    );
    let pairs = collect_transactions(&b, &wl);
    assert_eq!(
        pairs,
        vec![
            ("R1".to_string(), "T1".to_string()),
            ("R3".to_string(), "T3".to_string()),
        ]
    );
}

#[test]
fn filter_advances_and_resolves_entries() {
    let mut map = CorrelationMap::new();
    map.insert("R1".to_string(), "T1".to_string());
    map.insert("R2".to_string(), "T2".to_string());
    map.insert("R3".to_string(), "T3".to_string());

    let b = block(
        2,
        20,
        vec![Shard {
            transactions: vec![],
            outcomes: vec![
                outcome("R1", ExecutionStatus::ForwardTo("R4".to_string()), "a.test", vec![]),
                outcome("R2", ExecutionStatus::Failed, "a.test", vec![]),
                outcome(
                    "R3",
                    ExecutionStatus::FinalValue(vec![1]),
                    "a.test",
                    vec![call_action("m", "{}")],
                ),
            ],
        }],
    );
    let emitted = filter_outcomes(&b, &mut map);
    assert_eq!(emitted.len(), 1);
    assert_eq!(emitted[0].0.receipt_id, "R3");
    assert_eq!(emitted[0].1, "T3");
    assert_eq!(map.len(), 1);
    assert_eq!(map.get(&"R4".to_string()), Some(&"T1".to_string()));
    assert_eq!(map.get(&"R1".to_string()), None);
    assert_eq!(map.get(&"R2".to_string()), None);
    assert_eq!(map.get(&"R3".to_string()), None);
}

#[test]
fn decoder_preserves_action_order_and_decodes_payload() {
    let o = outcome(
        "R1",
        ExecutionStatus::FinalValue(vec![]),
        "alice.test",
        vec![
            call_action("first", "{\"n\":1}"),
            Action::Other,
            call_action("second", "{\"n\":2}"),
        ],
    );
    let b = block(9, 90, vec![]);
    let records = process_outcome(&o, "T1".to_string(), &b);
    assert_eq!(records.len(), 2);
    assert_eq!(records[0].method_name, "first");
    assert_eq!(records[0].args, b"{\"n\":1}".to_vec());
    assert_eq!(records[1].method_name, "second");
    assert_eq!(records[1].args, b"{\"n\":2}".to_vec());
    assert_eq!(records[0].receiver_id, "alice.test");
    assert_eq!(records[0].timestamp, 90);
}

#[test]
fn correlation_map_tracks_and_replaces() {
    let mut map = CorrelationMap::new();
    assert!(map.is_empty());
    map.insert("R1".to_string(), "T1".to_string());
    assert!(!map.is_empty());
    assert_eq!(map.len(), 1);
    assert_eq!(map.get(&"R1".to_string()), Some(&"T1".to_string()));

    // Last write wins on a repeated key; no duplicate entry appears.
    map.insert("R1".to_string(), "T9".to_string());
    assert_eq!(map.len(), 1);
    assert_eq!(map.get(&"R1".to_string()), Some(&"T9".to_string()));

    assert_eq!(map.remove(&"R1".to_string()), Some("T9".to_string()));
    assert_eq!(map.remove(&"R1".to_string()), None);
    assert!(map.is_empty());
}

#[test]
fn watchlist_membership() {
    let wl = Watchlist::new(vec!["alice.test".to_string(), "bob.test".to_string()]);
    assert!(wl.contains(&"alice.test".to_string()));
    assert!(wl.contains(&"bob.test".to_string()));
    assert!(!wl.contains(&"carol.test".to_string()));
}
