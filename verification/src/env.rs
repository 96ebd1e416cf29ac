//! The environment an execution runs under: limits, tracing, and the
//! syscall layer.

use vstd::prelude::*;
use crate::ecall::SyscallHandler;
use crate::{MAX_CYCLES_PO2, MIN_CYCLES_PO2};

verus! {

/// Largest accepted session cycle limit; keeps all cycle sums far from
/// the integer boundary.
pub const SESSION_LIMIT_MAX: u64 = 0x100_0000_0000;

/// Configuration consumed by the driver.
pub struct ExecutorEnv<S: SyscallHandler> {
    /// Upper bound on a segment's budget exponent.
    pub segment_limit_po2: usize,
    /// Upper bound on total committed cycles over the session.
    pub session_limit: u64,
    /// Whether trace events are recorded.
    pub trace_enabled: bool,
    /// Carried through to the session unchanged.
    pub input_digest: Vec<u8>,
    /// Carried through to the session unchanged.
    pub assumptions: Vec<Vec<u8>>,
    /// The pluggable syscall layer.
    pub handler: S,
}

impl<S: SyscallHandler> ExecutorEnv<S> {
    /// Limits sit in their documented ranges.
    pub open spec fn wf(self) -> bool {
        &&& MIN_CYCLES_PO2 <= self.segment_limit_po2 < MAX_CYCLES_PO2
        &&& self.session_limit <= SESSION_LIMIT_MAX
    }

    /// Build an environment, clamping the limits into range.
    pub fn new(segment_limit_po2: usize, session_limit: u64, handler: S) -> (r: ExecutorEnv<S>)
        ensures
            r.wf(),
            MIN_CYCLES_PO2 <= segment_limit_po2 < MAX_CYCLES_PO2 ==> r.segment_limit_po2
                == segment_limit_po2,
            session_limit <= SESSION_LIMIT_MAX ==> r.session_limit == session_limit,
            r.trace_enabled == false,
            r.input_digest@.len() == 0,
            r.assumptions@.len() == 0,
    {
        let po2 = if segment_limit_po2 < MIN_CYCLES_PO2 {
            MIN_CYCLES_PO2
        } else if segment_limit_po2 >= MAX_CYCLES_PO2 {
            MAX_CYCLES_PO2 - 1
        } else {
            segment_limit_po2
        };
        let limit = if session_limit > SESSION_LIMIT_MAX {
            SESSION_LIMIT_MAX
        } else {
            session_limit
        };
        ExecutorEnv {
            segment_limit_po2: po2,
            session_limit: limit,
            trace_enabled: false,
            input_digest: Vec::new(),
            assumptions: Vec::new(),
            handler,
        }
    }
}

} // verus!
