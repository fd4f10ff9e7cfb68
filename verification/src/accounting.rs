use vstd::prelude::*;

use crate::cancellation::CancellationToken;
use crate::diagnostic::{
    is_message_error, limit_error_from, serialization_error, serialization_error_from, DiagnosticKind,
    JsliteResult,
};
use crate::limits::RuntimeLimits;
use crate::strings::{chars_of, extend_chars, string_from_chars};

verus! {

/// Options a host may pass when it resumes a suspended execution.
#[derive(Debug, Clone)]
pub struct ResumeOptions {
    pub cancellation_token: Option<CancellationToken>,
}

impl Default for ResumeOptions {
    fn default() -> (options: ResumeOptions)
        ensures
            options.cancellation_token is None,
    {
        ResumeOptions { cancellation_token: None }
    }
}

/// The resource bookkeeping of one execution: its limits, what it has used
/// so far, its cancellation token and whether a restored snapshot still
/// waits for a host policy.
#[derive(Debug, Clone)]
pub struct ResourceAccounting {
    pub limits: RuntimeLimits,
    pub instruction_counter: usize,
    pub heap_bytes_used: usize,
    pub allocation_count: usize,
    pub cancellation_token: Option<CancellationToken>,
    pub snapshot_policy_required: bool,
}

/// Sum of the first `n` entries of `sizes`.
pub open spec fn sum_prefix(sizes: Seq<usize>, n: int) -> int
    decreases n,
{
    if n <= 0 {
        0
    } else {
        sum_prefix(sizes, n - 1) + sizes[n - 1]
    }
}

pub open spec fn sum_sizes(sizes: Seq<usize>) -> int {
    sum_prefix(sizes, sizes.len() as int)
}

proof fn lemma_sum_prefix_mono(sizes: Seq<usize>, m: int, n: int)
    requires
        0 <= m <= n <= sizes.len(),
    ensures
        sum_prefix(sizes, m) <= sum_prefix(sizes, n),
    decreases n - m,
{
    if m < n {
        lemma_sum_prefix_mono(sizes, m, n - 1);
    }
}

/// Adds up the bytes accounted to every live heap object, reporting an
/// overflow of the total; also returns how many objects there are.
pub fn recompute_accounting_totals(sizes: &Vec<usize>) -> (r: Result<(usize, usize), String>)
    ensures
        sum_sizes(sizes@) <= usize::MAX ==> (r matches Ok((bytes, count)) && bytes == sum_sizes(
            sizes@,
        ) && count == sizes@.len()),
        sum_sizes(sizes@) > usize::MAX ==> (r matches Err(message) && message@
            == "heap accounting overflow"@),
{
    let mut total: usize = 0;
    let mut count: usize = 0;
    while count < sizes.len()
        invariant
            count <= sizes.len(),
            total == sum_prefix(sizes@, count as int),
        decreases sizes.len() - count,
    {
        match total.checked_add(sizes[count]) {
            Some(next) => {
                total = next;
            },
            None => {
                proof {
                    lemma_sum_prefix_mono(sizes@, count + 1, sizes@.len() as int);
                }
                return Err("heap accounting overflow".to_owned());
            },
        }
        count += 1;
    }
    Ok((total, count))
}

impl ResourceAccounting {
    /// Usage stays within the heap limit and the allocation budget.
    pub open spec fn wf(&self) -> bool {
        &&& self.heap_bytes_used <= self.limits.heap_limit_bytes
        &&& self.allocation_count <= self.limits.allocation_budget
    }

    /// The same bookkeeping with nothing changed but the heap usage and the
    /// allocation count.
    pub open spec fn same_but_usage(&self, other: &ResourceAccounting) -> bool {
        &&& self.limits == other.limits
        &&& self.instruction_counter == other.instruction_counter
        &&& self.cancellation_token == other.cancellation_token
        &&& self.snapshot_policy_required == other.snapshot_policy_required
    }

    /// Fresh bookkeeping: nothing used yet.
    pub fn new(limits: RuntimeLimits, cancellation_token: Option<CancellationToken>) -> (a:
        ResourceAccounting)
        ensures
            a.wf(),
            a.limits == limits,
            a.instruction_counter == 0,
            a.heap_bytes_used == 0,
            a.allocation_count == 0,
            a.cancellation_token == cancellation_token,
            !a.snapshot_policy_required,
    {
        ResourceAccounting {
            limits,
            instruction_counter: 0,
            heap_bytes_used: 0,
            allocation_count: 0,
            cancellation_token,
            snapshot_policy_required: false,
        }
    }

    /// Succeeds exactly when `additional_bytes` more heap stays within the limit.
    pub fn ensure_heap_capacity(&self, additional_bytes: usize) -> (r: JsliteResult<()>)
        ensures
            r is Ok <==> self.heap_bytes_used + additional_bytes <= self.limits.heap_limit_bytes,
            r matches Err(e) ==> is_message_error(e, DiagnosticKind::Limit, "heap limit exceeded"@),
    {
        match self.heap_bytes_used.checked_add(additional_bytes) {
            None => Err(limit_error_from("heap limit exceeded")),
            Some(next) => {
                if next > self.limits.heap_limit_bytes {
                    Err(limit_error_from("heap limit exceeded"))
                } else {
                    Ok(())
                }
            },
        }
    }

    /// Records one new heap object of `bytes` bytes, if both the allocation
    /// budget and the heap limit allow it; otherwise changes nothing.
    pub fn account_new_allocation(&mut self, bytes: usize) -> (r: JsliteResult<()>)
        ensures
            r is Ok <==> old(self).allocation_count + 1 <= old(self).limits.allocation_budget
                && old(self).heap_bytes_used + bytes <= old(self).limits.heap_limit_bytes,
            r is Ok ==> final(self).allocation_count == old(self).allocation_count + 1
                && final(self).heap_bytes_used == old(self).heap_bytes_used + bytes
                && final(self).same_but_usage(old(self)),
            r is Err ==> *final(self) == *old(self),
            r matches Err(e) ==> {
                if old(self).allocation_count + 1 > old(self).limits.allocation_budget {
                    is_message_error(e, DiagnosticKind::Limit, "allocation budget exhausted"@)
                } else {
                    is_message_error(e, DiagnosticKind::Limit, "heap limit exceeded"@)
                }
            },
            old(self).wf() ==> final(self).wf(),
    {
        let next_allocations = match self.allocation_count.checked_add(1) {
            Some(next) => next,
            None => {
                return Err(limit_error_from("allocation budget exhausted"));
            },
        };
        if next_allocations > self.limits.allocation_budget {
            return Err(limit_error_from("allocation budget exhausted"));
        }
        self.ensure_heap_capacity(bytes)?;
        self.allocation_count = next_allocations;
        self.heap_bytes_used = self.heap_bytes_used + bytes;
        Ok(())
    }

    /// Re-accounts an object whose size changed from `old_bytes` to
    /// `new_bytes`; growth must fit within the heap limit, otherwise nothing
    /// changes.
    pub fn apply_heap_delta(&mut self, old_bytes: usize, new_bytes: usize) -> (r: JsliteResult<()>)
        requires
            new_bytes < old_bytes ==> old_bytes - new_bytes <= old(self).heap_bytes_used,
        ensures
            r is Ok <==> (new_bytes < old_bytes || old(self).heap_bytes_used + (new_bytes
                - old_bytes) <= old(self).limits.heap_limit_bytes),
            r is Ok ==> final(self).heap_bytes_used == old(self).heap_bytes_used - old_bytes
                + new_bytes && final(self).allocation_count == old(self).allocation_count
                && final(self).same_but_usage(old(self)),
            r is Err ==> *final(self) == *old(self),
            r matches Err(e) ==> is_message_error(e, DiagnosticKind::Limit, "heap limit exceeded"@),
            old(self).wf() ==> final(self).wf(),
    {
        if new_bytes >= old_bytes {
            self.ensure_heap_capacity(new_bytes - old_bytes)?;
            self.heap_bytes_used = self.heap_bytes_used + (new_bytes - old_bytes);
        } else {
            self.heap_bytes_used = self.heap_bytes_used - (old_bytes - new_bytes);
        }
        Ok(())
    }

    /// Counts one executed instruction and fails once the instruction budget
    /// is exceeded.
    pub fn bump_instruction_budget(&mut self) -> (r: JsliteResult<()>)
        requires
            old(self).instruction_counter < usize::MAX,
        ensures
            final(self).instruction_counter == old(self).instruction_counter + 1,
            final(self).heap_bytes_used == old(self).heap_bytes_used,
            final(self).allocation_count == old(self).allocation_count,
            final(self).limits == old(self).limits,
            final(self).cancellation_token == old(self).cancellation_token,
            final(self).snapshot_policy_required == old(self).snapshot_policy_required,
            r is Ok <==> final(self).instruction_counter <= final(self).limits.instruction_budget,
            r matches Err(e) ==> is_message_error(
                e,
                DiagnosticKind::Limit,
                "instruction budget exhausted"@,
            ),
    {
        self.instruction_counter = self.instruction_counter + 1;
        if self.instruction_counter > self.limits.instruction_budget {
            return Err(limit_error_from("instruction budget exhausted"));
        }
        Ok(())
    }

    /// Fails when the host has cancelled the execution.
    pub fn check_cancellation(&self) -> (r: JsliteResult<()>)
        ensures
            self.cancellation_token is None ==> r is Ok,
            r matches Err(e) ==> is_message_error(e, DiagnosticKind::Limit, "execution cancelled"@),
    {
        match &self.cancellation_token {
            Some(token) => {
                if token.is_cancelled() {
                    return Err(limit_error_from("execution cancelled"));
                }
                Ok(())
            },
            None => Ok(()),
        }
    }

    /// After a snapshot is restored, recomputes heap usage and allocation
    /// count from the objects' sizes and checks them against the limits;
    /// on failure nothing changes.
    pub fn recompute_accounting_after_load(&mut self, sizes: &Vec<usize>) -> (r: JsliteResult<()>)
        ensures
            r is Ok <==> sum_sizes(sizes@) <= old(self).limits.heap_limit_bytes && sizes@.len()
                <= old(self).limits.allocation_budget,
            r is Ok ==> final(self).heap_bytes_used == sum_sizes(sizes@)
                && final(self).allocation_count == sizes@.len() && final(self).same_but_usage(
                old(self),
            ) && final(self).wf(),
            r is Err ==> *final(self) == *old(self),
            r matches Err(e) ==> {
                if sum_sizes(sizes@) > usize::MAX {
                    is_message_error(
                        e,
                        DiagnosticKind::Serialization,
                        "snapshot validation failed: heap accounting overflow"@,
                    )
                } else if sum_sizes(sizes@) > old(self).limits.heap_limit_bytes {
                    is_message_error(
                        e,
                        DiagnosticKind::Serialization,
                        "snapshot validation failed: heap usage exceeds configured heap limit"@,
                    )
                } else {
                    is_message_error(
                        e,
                        DiagnosticKind::Serialization,
                        "snapshot validation failed: allocation count exceeds configured allocation budget"@,
                    )
                }
            },
    {
        let (heap_bytes_used, allocation_count) = match recompute_accounting_totals(sizes) {
            Ok(totals) => totals,
            Err(message) => {
                let mut text = chars_of("snapshot validation failed: ");
                let detail = chars_of(message.as_str());
                extend_chars(&mut text, &detail);
                proof {
                    reveal_strlit("snapshot validation failed: ");
                    reveal_strlit("heap accounting overflow");
                    reveal_strlit("snapshot validation failed: heap accounting overflow");
                    assert(text@ =~= "snapshot validation failed: heap accounting overflow"@);
                }
                return Err(serialization_error(string_from_chars(&text)));
            },
        };
        if heap_bytes_used > self.limits.heap_limit_bytes {
            return Err(
                serialization_error_from(
                    "snapshot validation failed: heap usage exceeds configured heap limit",
                ),
            );
        }
        if allocation_count > self.limits.allocation_budget {
            return Err(
                serialization_error_from(
                    "snapshot validation failed: allocation count exceeds configured allocation budget",
                ),
            );
        }
        self.heap_bytes_used = heap_bytes_used;
        self.allocation_count = allocation_count;
        Ok(())
    }

    /// Applies the options given with a resume: a new cancellation token
    /// replaces the old one; a restored snapshot that still waits for a host
    /// policy is refused.
    pub fn apply_resume_options(&mut self, options: ResumeOptions) -> (r: JsliteResult<()>)
        ensures
            final(self).cancellation_token == (if options.cancellation_token is Some {
                options.cancellation_token
            } else {
                old(self).cancellation_token
            }),
            final(self).limits == old(self).limits,
            final(self).instruction_counter == old(self).instruction_counter,
            final(self).heap_bytes_used == old(self).heap_bytes_used,
            final(self).allocation_count == old(self).allocation_count,
            final(self).snapshot_policy_required == old(self).snapshot_policy_required,
            r is Ok <==> !old(self).snapshot_policy_required,
            r matches Err(e) ==> is_message_error(
                e,
                DiagnosticKind::Serialization,
                "loaded snapshots require explicit host policy before resume"@,
            ),
    {
        if options.cancellation_token.is_some() {
            self.cancellation_token = options.cancellation_token;
        }
        if self.snapshot_policy_required {
            return Err(
                serialization_error_from(
                    "loaded snapshots require explicit host policy before resume",
                ),
            );
        }
        Ok(())
    }
}

} // verus!
