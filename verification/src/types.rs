//! The data model: blocks, shards, transaction envelopes, execution
//! outcomes, actions, and the persisted call record.

use vstd::prelude::*;

verus! {

/// One action carried by a receipt. Only function calls are indexed; every
/// other kind of action is ignored by the decoder.
pub enum Action {
    /// A contract method invocation: the method name and the base64-encoded
    /// argument payload (UTF-8 JSON once decoded).
    FunctionCall { method_name: String, args: String },
    /// Any other kind of action.
    Other,
}

/// The payload of a receipt: the account that executes it and the ordered
/// list of actions it carries.
pub struct Receipt {
    pub receiver_id: String,
    pub actions: Vec<Action>,
}

/// The status of one execution outcome.
pub enum ExecutionStatus {
    /// Terminal success, carrying the returned value.
    FinalValue(Vec<u8>),
    /// Success, but execution continues as the named receipt.
    ForwardTo(String),
    /// Terminal failure.
    Failed,
}

/// The result of executing one receipt.
pub struct ExecutionOutcome {
    /// The receipt this outcome resolves.
    pub receipt_id: String,
    pub status: ExecutionStatus,
    /// The originating receipt payload.
    pub receipt: Receipt,
}

/// One transaction as it appears in a block, together with the identifier of
/// the single receipt produced by converting it ("seed receipt id").
pub struct TransactionEnvelope {
    pub transaction_hash: String,
    pub signer_id: String,
    pub receiver_id: String,
    pub seed_receipt_id: String,
}

/// One shard of a block: its transactions and its execution outcomes, both
/// in the order the chain fixed for this block.
pub struct Shard {
    pub transactions: Vec<TransactionEnvelope>,
    pub outcomes: Vec<ExecutionOutcome>,
}

/// One unit of the chain's ordered history.
pub struct Block {
    pub height: u64,
    pub hash: String,
    /// Nanoseconds since the epoch.
    pub timestamp: u64,
    pub shards: Vec<Shard>,
}

/// The mathematical value of a call record: every text field as a sequence
/// of characters, the decoded argument payload as a sequence of bytes.
pub ghost struct CallRecordView {
    pub transaction_hash: Seq<char>,
    pub receiver_id: Seq<char>,
    pub method_name: Seq<char>,
    pub args: Seq<u8>,
    pub timestamp: u64,
}

/// The persisted unit: one successfully decoded function call addressed to a
/// watched account, normalized for the sink.
pub struct CallRecord {
    /// The hash of the transaction whose chain of receipts produced the call.
    pub transaction_hash: String,
    /// The account the call was addressed to.
    pub receiver_id: String,
    pub method_name: String,
    /// The decoded argument payload; always the text of a JSON object.
    pub args: Vec<u8>,
    /// The timestamp of the block holding the terminal outcome.
    pub timestamp: u64,
}

impl View for CallRecord {
    type V = CallRecordView;

    open spec fn view(&self) -> CallRecordView {
        CallRecordView {
            transaction_hash: self.transaction_hash@,
            receiver_id: self.receiver_id@,
            method_name: self.method_name@,
            args: self.args@,
            timestamp: self.timestamp,
        }
    }
}

} // verus!
