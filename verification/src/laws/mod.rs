//! What the operations are for, stated of what is asked of a file and what it answers.
//!
//! Each law takes a call as given, with its arguments and its result, and says what must be so
//! whatever the file answered: which counters go up or down, which blocks are given back, and
//! what comes out again of what was put in. Of what is derived from a type, each says how that
//! goes by what is written.
pub mod apart;
pub mod arguments;
pub mod arrays;
pub mod basics;
pub mod blocks;
pub mod copies;
pub mod counters;
pub mod enums;
pub mod fields;
pub mod files;
pub mod memory;
pub mod numbers;
pub mod paths;
pub mod pieces;
pub mod plans;
pub mod problems;
pub mod records;
pub mod recovery;
pub mod release;
pub mod routes;
pub mod shapes;
pub mod slots;
pub mod structs;
pub mod tags;
pub mod transactions;
pub mod uses;
pub mod variants;
use vstd::prelude::*;

use crate::allocator::{CounterOp, Event, Settings};
use crate::error::Error;
use crate::range::BStackRange;
use crate::teardown::TeardownView;

verus! {

/// Whether a collection under way holds the frees of this file back.
pub open spec fn holds_back(v: TeardownView, s: Settings) -> bool {
    v.sink matches Some(k) && (s.file.0 != 0 || s.stack == k.0)
}

/// The state in which one more free is held back.
pub open spec fn held(v: TeardownView, s: Settings, range: BStackRange) -> TeardownView {
    match v.sink {
        Some(k) => TeardownView { sink: Some((k.0, k.1.push((s.file, range)))), depth: v.depth },
        None => v,
    }
}

/// Whether exactly the block at `range` was given back: at once, or as one more free that is
/// held back.
pub open spec fn one_free(
    range: BStackRange,
    s: Settings,
    before: TeardownView,
    asked: Seq<Event>,
    new: TeardownView,
    asked_now: Seq<Event>,
    r: Result<(), Error>,
) -> bool {
    if holds_back(before, s) {
        asked_now == asked && new == held(before, s, range) && r == Ok::<(), Error>(())
    } else {
        asked_now == asked.push(Event::Dealloc { range, reply: r }) && new == before
    }
}

/// Whether one conversation goes on where the other ended.
pub open spec fn goes_on(asked: Seq<Event>, asked_now: Seq<Event>) -> bool {
    asked.len() <= asked_now.len() && asked_now.take(asked.len() as int) == asked
}

/// The conversation with one more step of the counter at `off`.
pub open spec fn with_step(
    asked: Seq<Event>,
    off: int,
    op: CounterOp,
    reply: Result<u64, Error>,
) -> Seq<Event> {
    asked.push(Event::Process { off: off as u64, op, reply })
}

} // verus!
