//! The outcome decoder: turns one finalized (outcome, transaction hash)
//! pair into zero or more normalized call records, one per function-call
//! action whose base64 argument payload decodes to a JSON object. A
//! malformed action contributes no record and never blocks the others.

use vstd::prelude::*;
use base64::Engine;
use crate::types::{Action, Block, CallRecord, CallRecordView, ExecutionOutcome};

verus! {

/// What base64 decoding (standard alphabet, padded) returns for a payload:
/// the decoded bytes, or nothing where the payload is not valid base64.
/// The result is a function of the payload characters alone.
pub uninterp spec fn base64_decoding(s: Seq<char>) -> Option<Seq<u8>>;

/// Whether `bytes` are the UTF-8 text of one JSON object; a function of the
/// bytes alone.
pub uninterp spec fn is_json_object(bytes: Seq<u8>) -> bool;

/// Relies on base64's `Engine::decode` with the `STANDARD` engine: it
/// either returns the bytes the payload encodes or rejects the payload,
/// determined by the payload alone.
#[verifier::external_body]
fn decode_base64(payload: &String) -> (r: Option<Vec<u8>>)
    ensures
        (r is Some) == (base64_decoding(payload@) is Some),
        r matches Some(v) ==> base64_decoding(payload@) matches Some(d) && v@ == d,
{
    base64::engine::general_purpose::STANDARD.decode(payload.as_str()).ok()
}

/// Relies on serde_json's `from_slice`: whether the bytes parse as a JSON
/// value whose top level is an object, determined by the bytes alone.
#[verifier::external_body]
fn json_object_check(bytes: &Vec<u8>) -> (r: bool)
    ensures
        r == is_json_object(bytes@),
{
    match serde_json::from_slice::<serde_json::Value>(bytes.as_slice()) {
        Ok(serde_json::Value::Object(_)) => true,
        _ => false,
    }
}

/// The views of a sequence of call records.
pub open spec fn record_views(s: Seq<CallRecord>) -> Seq<CallRecordView> {
    s.map_values(|c: CallRecord| c@)
}

/// The records one action contributes: one for a function call whose
/// payload decodes to a JSON object, none otherwise.
pub open spec fn action_records(a: Action, tx: Seq<char>, recv: Seq<char>, ts: u64) -> Seq<
    CallRecordView,
> {
    match a {
        Action::FunctionCall { method_name, args } => match base64_decoding(args@) {
            Some(bytes) => if is_json_object(bytes) {
                seq![
                    CallRecordView {
                        transaction_hash: tx,
                        receiver_id: recv,
                        method_name: method_name@,
                        args: bytes,
                        timestamp: ts,
                    },
                ]
            } else {
                Seq::empty()
            },
            None => Seq::empty(),
        },
        Action::Other => Seq::empty(),
    }
}

/// The records of a whole action list, in action order.
pub open spec fn decoded_records(
    actions: Seq<Action>,
    tx: Seq<char>,
    recv: Seq<char>,
    ts: u64,
) -> Seq<CallRecordView>
    decreases actions.len(),
{
    if actions.len() == 0 {
        Seq::empty()
    } else {
        decoded_records(actions.drop_last(), tx, recv, ts) + action_records(
            actions.last(),
            tx,
            recv,
            ts,
        )
    }
}

/// The records of one finalized outcome, credited to transaction `tx` with
/// the enclosing block's timestamp.
pub open spec fn outcome_records(o: ExecutionOutcome, tx: Seq<char>, ts: u64) -> Seq<
    CallRecordView,
> {
    decoded_records(o.receipt.actions@, tx, o.receipt.receiver_id@, ts)
}

/// Decodes one finalized (outcome, transaction hash) pair into its call
/// records, in action order. An action whose payload is not valid base64,
/// or does not parse as a JSON object, contributes no record; the other
/// actions of the receipt are decoded regardless.
pub fn process_outcome(
    outcome: &ExecutionOutcome,
    transaction_hash: String,
    block: &Block,
) -> (r: Vec<CallRecord>)
    ensures
        record_views(r@) == outcome_records(*outcome, transaction_hash@, block.timestamp),
{
    let mut out: Vec<CallRecord> = Vec::new();
    let ghost actions = outcome.receipt.actions@;
    let ghost tx = transaction_hash@;
    let ghost recv = outcome.receipt.receiver_id@;
    let ghost ts = block.timestamp;
    let n = outcome.receipt.actions.len();
    let mut i: usize = 0;
    proof {
        assert(record_views(out@) =~= decoded_records(actions.subrange(0, 0), tx, recv, ts));
    }
    while i < n
        invariant
            n == actions.len(),
            actions == outcome.receipt.actions@,
            tx == transaction_hash@,
            recv == outcome.receipt.receiver_id@,
            ts == block.timestamp,
            0 <= i <= n,
            record_views(out@) == decoded_records(actions.subrange(0, i as int), tx, recv, ts),
        decreases n - i,
    {
        let ghost prefix = actions.subrange(0, i as int);
        let ghost out_before = out@;
        match &outcome.receipt.actions[i] {
            Action::FunctionCall { method_name, args } => {
                match decode_base64(args) {
                    Some(bytes) => {
                        if json_object_check(&bytes) {
                            let ghost decoded = bytes@;
                            out.push(
                                CallRecord {
                                    transaction_hash: transaction_hash.clone(),
                                    receiver_id: outcome.receipt.receiver_id.clone(),
                                    method_name: method_name.clone(),
                                    args: bytes,
                                    timestamp: block.timestamp,
                                },
                            );
                            proof {
                                assert(record_views(out@) =~= record_views(out_before).push(
                                    CallRecordView {
                                        transaction_hash: tx,
                                        receiver_id: recv,
                                        method_name: method_name@,
                                        args: decoded,
                                        timestamp: ts,
                                    },
                                ));
                            }
                        }
                    },
                    None => {},
                }
            },
            Action::Other => {},
        }
        proof {
            assert(actions.subrange(0, i + 1 as int).drop_last() =~= prefix);
            assert(actions.subrange(0, i + 1 as int).last() == actions[i as int]);
            assert(record_views(out@) =~= decoded_records(prefix, tx, recv, ts)
                + action_records(actions[i as int], tx, recv, ts));
        }
        i += 1;
    }
    proof {
        assert(actions.subrange(0, n as int) =~= actions);
    }
    out
}

} // verus!
