//! Plain transaction-shaped records.
//!
//! These records are the kind of structured data a caller would serialize
//! into byte blocks before feeding them to the tree.  The tree itself never
//! reads them; they only travel alongside it.

use vstd::prelude::*;

verus! {

/// The receiving side of a transaction.
#[derive(Debug, Clone)]
pub struct Outputs {
    pub anount: String,
    pub locking_script_size: String,
    pub lockking_script: String,
}

/// The spending side of a transaction.
#[derive(Debug, Clone)]
pub struct Inputs {
    pub transaction_hash: String,
    pub unlocking_script_size: String,
    pub unlocking_script: String,
    pub sequence_number: String,
}

/// One transaction record.
#[derive(Debug, Clone)]
pub struct Transaction {
    pub version: i32,
    pub flag: String,
    pub number_of_inputs: i32,
    pub inputs: Inputs,
    pub number_of_outputs: i32,
    pub outputs: Outputs,
    pub witnesses: String,
    pub locktime: String,
}

impl Transaction {
    /// A transaction around the given inputs, with every other field set to
    /// its fixed starter value.
    pub fn set_transaction(data: Inputs) -> (t: Transaction)
        ensures
            t.version == 1,
            t.flag@ == "flag"@,
            t.number_of_inputs == 1,
            t.inputs == data,
            t.number_of_outputs == 1,
            t.outputs.anount@ == "amount"@,
            t.outputs.locking_script_size@ == "locking_script_size"@,
            t.outputs.lockking_script@ == "lockking_script"@,
            t.witnesses@ == "1"@,
            t.locktime@ == "1"@,
    {
        Transaction {
            version: 1,
            flag: "flag".to_string(),
            number_of_inputs: 1,
            inputs: data,
            number_of_outputs: 1,
            outputs: Outputs {
                anount: "amount".to_string(),
                locking_script_size: "locking_script_size".to_string(),
                lockking_script: "lockking_script".to_string(),
            },
            witnesses: "1".to_string(),
            locktime: "1".to_string(),
        }
    }
}

} // verus!
