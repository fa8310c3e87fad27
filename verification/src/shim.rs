//! The decision that the interception shim takes for each handler that the
//! host is about to install.

use vstd::prelude::*;
use crate::handlers::{captured, substitute, HandlerEntry, HandlerRegistry};
use crate::ranges::{first_owner, ModuleRanges, RangeSpec};

verus! {

/// How one installation attempt was classified. Whatever the outcome, the
/// attempt goes on to the host's installer once, with [`Interception::forwarded`].
#[derive(Clone, Copy, Debug, PartialEq, Eq)]
pub enum Interception {
    /// No module range owns the incoming pointer.
    RangeMiss,
    /// A module owns the pointer, but it has no override under the key.
    HandlerMiss,
    /// An override is registered under the key; this is its address.
    Substituted(u64),
}

impl Interception {
    /// What [`Interception::forwarded`] gives.
    pub open spec fn spec_forwarded(self, new_fn_ptr: u64) -> u64 {
        match self {
            Interception::Substituted(override_fn) => override_fn,
            _ => new_fn_ptr,
        }
    }

    /// The pointer that goes to the host's installer: the override where one
    /// was substituted, the incoming pointer unchanged otherwise.
    #[verifier::when_used_as_spec(spec_forwarded)]
    pub fn forwarded(self, new_fn_ptr: u64) -> (pointer: u64)
        ensures
            pointer == self.spec_forwarded(new_fn_ptr),
    {
        match self {
            Interception::Substituted(override_fn) => override_fn,
            _ => new_fn_ptr,
        }
    }
}

/// The outcome for a handler at `new_fn_ptr` that is being installed under
/// `(status_kind, sub_script)`. Classification commits to the first range
/// that owns the pointer; no other owner is consulted after that.
pub open spec fn interception(
    ranges: Seq<RangeSpec>,
    handlers: Map<Seq<char>, Seq<HandlerEntry>>,
    status_kind: i32,
    sub_script: i32,
    new_fn_ptr: u64,
) -> Interception {
    match first_owner(ranges, new_fn_ptr) {
        None => Interception::RangeMiss,
        Some(i) => match substitute(handlers, ranges[i].name, status_kind, sub_script) {
            Some(override_fn) => Interception::Substituted(override_fn),
            None => Interception::HandlerMiss,
        },
    }
}

/// The handler registry after that installation attempt.
pub open spec fn after_interception(
    ranges: Seq<RangeSpec>,
    handlers: Map<Seq<char>, Seq<HandlerEntry>>,
    status_kind: i32,
    sub_script: i32,
    new_fn_ptr: u64,
) -> Map<Seq<char>, Seq<HandlerEntry>> {
    match first_owner(ranges, new_fn_ptr) {
        None => handlers,
        Some(i) => captured(handlers, ranges[i].name, status_kind, sub_script, new_fn_ptr),
    }
}

/// Classifies the handler at `new_fn_ptr` that the host is installing under
/// `(status_kind, sub_script)`, and captures it as the original where an
/// override takes its place.
pub fn intercept(
    ranges: &ModuleRanges,
    handlers: &mut HandlerRegistry,
    status_kind: i32,
    sub_script: i32,
    new_fn_ptr: u64,
) -> (outcome: Interception)
    ensures
        outcome == interception(ranges@, old(handlers)@, status_kind, sub_script, new_fn_ptr),
        final(handlers)@ == after_interception(
            ranges@,
            old(handlers)@,
            status_kind,
            sub_script,
            new_fn_ptr,
        ),
{
    match ranges.lookup_containing(new_fn_ptr) {
        None => Interception::RangeMiss,
        Some(module) => match handlers.capture(
            module.name.as_str(),
            status_kind,
            sub_script,
            new_fn_ptr,
        ) {
            Some(override_fn) => Interception::Substituted(override_fn),
            None => Interception::HandlerMiss,
        },
    }
}

/// What [`decode_id`] gives.
pub open spec fn spec_decode_id(raw: u64) -> i32 {
    raw as i32
}

/// The status kind or sub-script that a raw integer of the host stands for:
/// its low 32 bits, read as a signed number.
#[verifier::when_used_as_spec(spec_decode_id)]
pub fn decode_id(raw: u64) -> (id: i32)
    ensures
        id == spec_decode_id(raw),
        raw <= 0x7fff_ffff ==> id == raw,
        id as u32 == raw & 0xffff_ffff,
{
    let id = #[verifier::truncate] (raw as i32);
    assert(raw <= 0x7fff_ffff ==> raw as i32 == raw) by (bit_vector);
    assert((raw as i32) as u32 == raw & 0xffff_ffff) by (bit_vector);
    id
}

/// The key that the host's two values stand for. Each is given as the
/// integer that it holds, or `None` where it holds something else; only two
/// integers make a key.
pub open spec fn decoded_key(status_kind: Option<u64>, sub_script: Option<u64>) -> Option<
    (i32, i32),
> {
    match (status_kind, sub_script) {
        (Some(kind), Some(sub)) => Some((decode_id(kind), decode_id(sub))),
        _ => None,
    }
}

/// [`intercept`] at the boundary to the host, where status kind and
/// sub-script still are the host's loosely typed values. Values that make no
/// key match no entry: the installation passes through and nothing is
/// captured.
pub fn intercept_tagged(
    ranges: &ModuleRanges,
    handlers: &mut HandlerRegistry,
    status_kind: Option<u64>,
    sub_script: Option<u64>,
    new_fn_ptr: u64,
) -> (outcome: Interception)
    ensures
        match decoded_key(status_kind, sub_script) {
            Some((kind, sub)) => {
                &&& outcome == interception(ranges@, old(handlers)@, kind, sub, new_fn_ptr)
                &&& final(handlers)@ == after_interception(
                    ranges@,
                    old(handlers)@,
                    kind,
                    sub,
                    new_fn_ptr,
                )
            },
            None => {
                &&& outcome == if first_owner(ranges@, new_fn_ptr) is Some {
                    Interception::HandlerMiss
                } else {
                    Interception::RangeMiss
                }
                &&& final(handlers)@ == old(handlers)@
            },
        },
{
    match (status_kind, sub_script) {
        (Some(kind), Some(sub)) => intercept(
            ranges,
            handlers,
            decode_id(kind),
            decode_id(sub),
            new_fn_ptr,
        ),
        _ => match ranges.lookup_containing(new_fn_ptr) {
            Some(_) => Interception::HandlerMiss,
            None => Interception::RangeMiss,
        },
    }
}

} // verus!
