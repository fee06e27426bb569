use vstd::prelude::*;

use crate::segment::{suffix_window, SegmentTree};
use crate::summary::{summarize, NodeData, MAX_OBSERVATIONS};

verus! {

/// Largest batch that one append accepts.
pub const MAX_BATCH_SIZE: usize = 10000;

pub open spec fn added_status() -> Seq<char> {
    "Batch added successfully"@
}

pub open spec fn invalid_batch_status() -> Seq<char> {
    "Invalid batch size"@
}

pub open spec fn store_full_status() -> Seq<char> {
    "Store is full"@
}

/// Whether a batch of `n` observations has an acceptable size.
pub open spec fn valid_batch_size(n: nat) -> bool {
    1 <= n <= MAX_BATCH_SIZE
}

/// The stream after appending `batch` to `vals`, and the status of the reply:
/// a batch of bad size, or one the store cannot take, changes nothing.
pub open spec fn append_effect(vals: Seq<i32>, batch: Seq<i32>) -> (Seq<i32>, Seq<char>) {
    if !valid_batch_size(batch.len()) {
        (vals, invalid_batch_status())
    } else if vals.len() + batch.len() > MAX_OBSERVATIONS {
        (vals, store_full_status())
    } else {
        (vals + batch, added_status())
    }
}

/// The reply to a stats query on `vals`: nothing when the window is empty,
/// otherwise the record of the window.
pub open spec fn stats_reply_ok(vals: Seq<i32>, k: nat, r: Option<NodeData>) -> bool {
    match r {
        Some(s) => suffix_window(vals, k).len() > 0 && s@ == summarize(suffix_window(vals, k)),
        None => suffix_window(vals, k).len() == 0,
    }
}

/// Body of the reply to an append.
pub struct AddBatchResponse {
    pub status: String,
}

/// A command addressed to the worker of one symbol.
pub enum ManagerCommand {
    AddBatch { values: Vec<i32> },
    GetStats { k: u32 },
}

/// What a worker answers to one command.
pub enum Reply {
    Status(AddBatchResponse),
    Stats(Option<NodeData>),
}

/// How a worker in state `vals` answers `command`, ending in state `next`.
pub open spec fn reply_ok(vals: Seq<i32>, next: Seq<i32>, command: ManagerCommand, r: Reply) -> bool {
    match command {
        ManagerCommand::AddBatch { values } => match r {
            Reply::Status(resp) => (next, resp.status@) == append_effect(vals, values@),
            Reply::Stats(_) => false,
        },
        ManagerCommand::GetStats { k } => match r {
            Reply::Status(_) => false,
            Reply::Stats(s) => next == vals && stats_reply_ok(vals, k as nat, s),
        },
    }
}

/// The sole owner of one symbol's store; it handles that symbol's commands
/// one at a time.
pub struct SymbolTask {
    store: SegmentTree,
}

impl View for SymbolTask {
    type V = Seq<i32>;

    closed spec fn view(&self) -> Seq<i32> {
        self.store@
    }
}

impl SymbolTask {
    pub closed spec fn wf(&self) -> bool {
        self.store.wf()
    }

    pub fn new() -> (r: SymbolTask)
        ensures
            r.wf(),
            r@ == Seq::<i32>::empty(),
    {
        SymbolTask { store: SegmentTree::new() }
    }

    /// Appends a batch of acceptable size (1 to `MAX_BATCH_SIZE`) and replies
    /// "Batch added successfully". A batch of any other size gets "Invalid
    /// batch size"; a batch that would take the stream past
    /// `MAX_OBSERVATIONS` gets "Store is full". Either refusal leaves the
    /// stream unchanged.
    pub fn add_batch(&mut self, values: &[i32]) -> (r: AddBatchResponse)
        requires
            old(self).wf(),
        ensures
            final(self).wf(),
            (final(self)@, r.status@) == append_effect(old(self)@, values@),
    {
        if values.len() == 0 || values.len() > MAX_BATCH_SIZE {
            return AddBatchResponse { status: "Invalid batch size".to_owned() };
        }
        proof {
            self.store.lemma_wf();
        }
        if values.len() > MAX_OBSERVATIONS - self.store.len() {
            return AddBatchResponse { status: "Store is full".to_owned() };
        }
        self.store.add_batch(values);
        AddBatchResponse { status: "Batch added successfully".to_owned() }
    }

    /// The record of the last `10^k` observations, or `None` when there are none.
    pub fn get_stats(&self, k: u32) -> (r: Option<NodeData>)
        requires
            self.wf(),
        ensures
            stats_reply_ok(self@, k as nat, r),
    {
        let s = self.store.suffix_stats(k);
        if s.count == 0 {
            None
        } else {
            Some(s)
        }
    }

    /// Handles one command.
    pub fn handle(&mut self, command: ManagerCommand) -> (r: Reply)
        requires
            old(self).wf(),
        ensures
            final(self).wf(),
            reply_ok(old(self)@, final(self)@, command, r),
    {
        match command {
            ManagerCommand::AddBatch { values } => Reply::Status(self.add_batch(values.as_slice())),
            ManagerCommand::GetStats { k } => Reply::Stats(self.get_stats(k)),
        }
    }
}

} // verus!
