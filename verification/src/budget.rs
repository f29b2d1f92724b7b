//! Per-turn byte budget for tool output, with turn metrics.
//!
//! A [`ToolOutputBudget`] hands out bytes for tool output until a per-turn
//! cap is reached.  A reservation that does not fit is truncated: the
//! remaining budget is split between content and a reserved suffix for a
//! truncation notice.  A [`TurnMetrics`] record counts what was served,
//! trimmed and blocked during the turn.

use vstd::prelude::*;

verus! {

/// Default per-turn budget for tool output (24 KiB).
pub const PER_TURN_OUTPUT_MAX_BYTES: usize = 24 * 1024;

/// Maximum bytes reserved for the per-turn truncation notice.
pub const TURN_OUTPUT_NOTICE_RESERVE_BYTES: usize = 128;

/// Counters for one turn.
#[derive(Clone, Copy, Debug)]
pub struct TurnMetrics {
    pub bytes_served: usize,
    pub bytes_trimmed: usize,
    pub outputs_truncated: usize,
    pub commands_blocked: usize,
    pub log_tail_invocations: usize,
}

impl TurnMetrics {
    /// All counters at zero.
    pub open spec fn spec_is_empty(&self) -> bool {
        self.bytes_served == 0 && self.bytes_trimmed == 0 && self.outputs_truncated == 0
            && self.commands_blocked == 0 && self.log_tail_invocations == 0
    }

    /// Whether every counter is still zero.
    pub fn is_empty(&self) -> (r: bool)
        ensures
            r == self.spec_is_empty(),
    {
        self.bytes_served == 0 && self.bytes_trimmed == 0 && self.outputs_truncated == 0
            && self.commands_blocked == 0 && self.log_tail_invocations == 0
    }
}

impl Default for TurnMetrics {
    /// The zero record.
    fn default() -> (r: TurnMetrics)
        ensures
            r.spec_is_empty(),
    {
        TurnMetrics {
            bytes_served: 0,
            bytes_trimmed: 0,
            outputs_truncated: 0,
            commands_blocked: 0,
            log_tail_invocations: 0,
        }
    }
}

/// What a reservation yielded: how many content bytes fit, how many bytes
/// of the truncation notice were granted, and whether the request was cut.
#[derive(Clone, Copy, Debug)]
pub struct ToolBudgetDecision {
    pub allowed_content_bytes: usize,
    pub notice_bytes: usize,
    pub truncated: bool,
}

/// A monotone byte-budget allocator.
#[derive(Debug)]
pub struct ToolOutputBudget {
    max_bytes: usize,
    used_bytes: usize,
}

impl ToolOutputBudget {
    /// The budget's capacity in bytes.
    pub closed spec fn spec_max_bytes(&self) -> usize {
        self.max_bytes
    }

    /// The bytes consumed so far.
    pub closed spec fn spec_used_bytes(&self) -> usize {
        self.used_bytes
    }

    /// The budget invariant: consumption never exceeds capacity.
    pub open spec fn wf(&self) -> bool {
        self.spec_used_bytes() <= self.spec_max_bytes()
    }

    /// A fresh budget of `max_bytes`, nothing consumed.
    pub fn new(max_bytes: usize) -> (r: ToolOutputBudget)
        ensures
            r.spec_max_bytes() == max_bytes,
            r.spec_used_bytes() == 0,
            r.wf(),
    {
        ToolOutputBudget { max_bytes, used_bytes: 0 }
    }

    /// The bytes still available.
    pub fn remaining(&self) -> (r: usize)
        requires
            self.wf(),
        ensures
            r == self.spec_max_bytes() - self.spec_used_bytes(),
    {
        self.max_bytes - self.used_bytes
    }

    /// Consumes `bytes`, clamped at the capacity.
    pub fn consume(&mut self, bytes: usize)
        ensures
            final(self).spec_max_bytes() == old(self).spec_max_bytes(),
            final(self).spec_used_bytes() == (
                if old(self).spec_used_bytes() + bytes <= old(self).spec_max_bytes() {
                    old(self).spec_used_bytes() + bytes
                } else {
                    old(self).spec_max_bytes() as int
                }),
            final(self).wf(),
            old(self).wf() ==> final(self).spec_used_bytes() >= old(self).spec_used_bytes(),
    {
        let new_total = self.used_bytes.saturating_add(bytes);
        self.used_bytes = if new_total < self.max_bytes { new_total } else { self.max_bytes };
    }

    /// Reserves up to `desired_bytes` of output.  A request that fits is
    /// granted whole.  One that does not fit is truncated: the remaining
    /// budget is split into content and up to
    /// [`TURN_OUTPUT_NOTICE_RESERVE_BYTES`] bytes (capped by `notice_len`)
    /// for a truncation notice, with the notice served first when almost
    /// nothing is left.  `used_bytes` never decreases and never exceeds
    /// the capacity, and what is granted plus what is reported trimmed
    /// accounts exactly for what was asked.
    pub fn reserve(&mut self, desired_bytes: usize, notice_len: usize, metrics: &mut TurnMetrics)
        -> (d: ToolBudgetDecision)
        requires
            old(self).wf(),
        ensures
            final(self).wf(),
            final(self).spec_max_bytes() == old(self).spec_max_bytes(),
            // The budget only ever grows toward its capacity.
            old(self).spec_used_bytes() <= final(self).spec_used_bytes(),
            d == reserve_decision_spec(old(self).spec_max_bytes(),
                old(self).spec_used_bytes(), desired_bytes, notice_len),
            final(self).spec_used_bytes() == reserve_used_after(old(self).spec_max_bytes(),
                old(self).spec_used_bytes(), desired_bytes, notice_len),
            *final(metrics) == reserve_metrics_after(*old(metrics),
                old(self).spec_max_bytes(), old(self).spec_used_bytes(), desired_bytes,
                notice_len),
            // A zero request is a no-op.
            desired_bytes == 0 ==> {
                &&& d.allowed_content_bytes == 0
                &&& d.notice_bytes == 0
                &&& !d.truncated
                &&& *final(self) == *old(self)
                &&& *final(metrics) == *old(metrics)
            },
            // A request that fits is granted whole.
            desired_bytes != 0
                && desired_bytes
                    <= old(self).spec_max_bytes() - old(self).spec_used_bytes() ==> {
                &&& d.allowed_content_bytes == desired_bytes
                &&& d.notice_bytes == 0
                &&& !d.truncated
                &&& final(self).spec_used_bytes()
                    == old(self).spec_used_bytes() + desired_bytes
                &&& *final(metrics) == (TurnMetrics {
                    bytes_served: saturating_add_spec(old(metrics).bytes_served, desired_bytes),
                    ..*old(metrics)
                })
            },
            // A request that does not fit is cut to the remainder, less the
            // granted notice bytes.
            desired_bytes > old(self).spec_max_bytes() - old(self).spec_used_bytes() ==> {
                let remaining = old(self).spec_max_bytes() - old(self).spec_used_bytes();
                let notice_cap = if notice_len < TURN_OUTPUT_NOTICE_RESERVE_BYTES {
                    notice_len as int
                } else {
                    TURN_OUTPUT_NOTICE_RESERVE_BYTES as int
                };
                &&& d.truncated
                &&& remaining == 0 ==> d.allowed_content_bytes == 0
                    && d.notice_bytes == notice_cap
                &&& remaining > 0 ==> d.notice_bytes
                    == (if remaining < notice_cap { remaining } else { notice_cap })
                    && d.allowed_content_bytes == remaining - d.notice_bytes
                &&& final(self).spec_used_bytes() == (
                    if old(self).spec_used_bytes() + d.allowed_content_bytes + d.notice_bytes
                        <= old(self).spec_max_bytes() {
                        old(self).spec_used_bytes() + d.allowed_content_bytes + d.notice_bytes
                    } else {
                        old(self).spec_max_bytes() as int
                    })
                &&& *final(metrics) == (TurnMetrics {
                    bytes_served: saturating_add_spec(
                        old(metrics).bytes_served,
                        (d.allowed_content_bytes + d.notice_bytes) as usize,
                    ),
                    bytes_trimmed: saturating_add_spec(
                        old(metrics).bytes_trimmed,
                        (desired_bytes - d.allowed_content_bytes) as usize,
                    ),
                    outputs_truncated: saturating_add_spec(old(metrics).outputs_truncated, 1),
                    ..*old(metrics)
                })
            },
            // Conservation: the granted content, the granted notice and the
            // newly reported trim account exactly for the request plus the
            // notice grant, as long as the trim counter does not saturate.
            old(metrics).bytes_trimmed + desired_bytes <= usize::MAX ==> {
                d.allowed_content_bytes + d.notice_bytes
                    + (final(metrics).bytes_trimmed - old(metrics).bytes_trimmed)
                    == desired_bytes + d.notice_bytes
            },
    {
        if desired_bytes == 0 {
            return ToolBudgetDecision {
                allowed_content_bytes: 0,
                notice_bytes: 0,
                truncated: false,
            };
        }

        let remaining = self.remaining();

        if desired_bytes <= remaining {
            self.consume(desired_bytes);
            metrics.bytes_served = metrics.bytes_served.saturating_add(desired_bytes);
            return ToolBudgetDecision {
                allowed_content_bytes: desired_bytes,
                notice_bytes: 0,
                truncated: false,
            };
        }

        let notice_cap = if notice_len < TURN_OUTPUT_NOTICE_RESERVE_BYTES {
            notice_len
        } else {
            TURN_OUTPUT_NOTICE_RESERVE_BYTES
        };
        let allowed_content_bytes: usize;
        let notice_bytes: usize;
        if remaining == 0 {
            allowed_content_bytes = 0;
            notice_bytes = notice_cap;
        } else {
            notice_bytes = if remaining < notice_cap { remaining } else { notice_cap };
            allowed_content_bytes = remaining - notice_bytes;
        }

        let served_bytes = allowed_content_bytes.saturating_add(notice_bytes);
        self.consume(served_bytes);

        metrics.bytes_served = metrics.bytes_served.saturating_add(served_bytes);
        metrics.bytes_trimmed = metrics
            .bytes_trimmed
            .saturating_add(desired_bytes - allowed_content_bytes);
        metrics.outputs_truncated = metrics.outputs_truncated.saturating_add(1);

        ToolBudgetDecision { allowed_content_bytes, notice_bytes, truncated: true }
    }
}

/// Addition clamped at the largest `usize`.
pub open spec fn saturating_add_spec(a: usize, b: usize) -> usize {
    if a + b <= usize::MAX {
        (a + b) as usize
    } else {
        usize::MAX
    }
}

/// The decision `reserve` makes on a budget with capacity `max` and
/// consumption `used`.
pub open spec fn reserve_decision_spec(
    max: usize,
    used: usize,
    desired: usize,
    notice_len: usize,
) -> ToolBudgetDecision {
    if desired == 0 {
        ToolBudgetDecision { allowed_content_bytes: 0, notice_bytes: 0, truncated: false }
    } else if desired <= max - used {
        ToolBudgetDecision { allowed_content_bytes: desired, notice_bytes: 0, truncated: false }
    } else {
        let remaining = (max - used) as usize;
        let cap = if notice_len < TURN_OUTPUT_NOTICE_RESERVE_BYTES {
            notice_len
        } else {
            TURN_OUTPUT_NOTICE_RESERVE_BYTES
        };
        if remaining == 0 {
            ToolBudgetDecision { allowed_content_bytes: 0, notice_bytes: cap, truncated: true }
        } else {
            let nb = if remaining < cap { remaining } else { cap };
            ToolBudgetDecision {
                allowed_content_bytes: (remaining - nb) as usize,
                notice_bytes: nb,
                truncated: true,
            }
        }
    }
}

/// The consumption after `reserve`.
pub open spec fn reserve_used_after(
    max: usize,
    used: usize,
    desired: usize,
    notice_len: usize,
) -> int {
    let d = reserve_decision_spec(max, used, desired, notice_len);
    if desired == 0 {
        used as int
    } else if used + d.allowed_content_bytes + d.notice_bytes <= max {
        used + d.allowed_content_bytes + d.notice_bytes
    } else {
        max as int
    }
}

/// The metrics after `reserve`.
pub open spec fn reserve_metrics_after(
    m: TurnMetrics,
    max: usize,
    used: usize,
    desired: usize,
    notice_len: usize,
) -> TurnMetrics {
    let d = reserve_decision_spec(max, used, desired, notice_len);
    if desired == 0 {
        m
    } else if !d.truncated {
        TurnMetrics { bytes_served: saturating_add_spec(m.bytes_served, desired), ..m }
    } else {
        TurnMetrics {
            bytes_served: saturating_add_spec(
                m.bytes_served,
                (d.allowed_content_bytes + d.notice_bytes) as usize,
            ),
            bytes_trimmed: saturating_add_spec(
                m.bytes_trimmed,
                (desired - d.allowed_content_bytes) as usize,
            ),
            outputs_truncated: saturating_add_spec(m.outputs_truncated, 1),
            ..m
        }
    }
}

} // verus!
