use jslite::accounting::{recompute_accounting_totals, ResourceAccounting, ResumeOptions};
use jslite::cancellation::CancellationToken;
use jslite::diagnostic::{DiagnosticKind, JsliteError};
use jslite::limits::RuntimeLimits;

fn limits(heap: usize, allocations: usize, instructions: usize) -> RuntimeLimits {
    RuntimeLimits {
        instruction_budget: instructions,
        heap_limit_bytes: heap,
        allocation_budget: allocations,
        call_depth_limit: 16,
        max_outstanding_host_calls: 4,
    }
}

fn expect_error(e: JsliteError, kind: DiagnosticKind, message: &str) {
    match e {
        JsliteError::Message { kind: k, message: m, span } => {
            assert_eq!(k, kind);
            assert_eq!(m, message);
            assert_eq!(span, None);
        }
        other => panic!("unexpected {:?}", other),
    }
}

#[test]
fn default_limits_are_the_documented_ceilings() {
    let l = RuntimeLimits::default();
    assert_eq!(l.instruction_budget, 1_000_000);
    assert_eq!(l.heap_limit_bytes, 8 * 1024 * 1024);
    assert_eq!(l.allocation_budget, 250_000);
    assert_eq!(l.call_depth_limit, 256);
    assert_eq!(l.max_outstanding_host_calls, 128);
}

#[test]
fn allocations_are_counted_until_a_limit_refuses_them() {
    let mut a = ResourceAccounting::new(limits(100, 2, 10), None);
    a.account_new_allocation(60).unwrap();
    assert_eq!((a.heap_bytes_used, a.allocation_count), (60, 1));
    let e = a.account_new_allocation(50).unwrap_err();
    expect_error(e, DiagnosticKind::Limit, "heap limit exceeded");
    assert_eq!((a.heap_bytes_used, a.allocation_count), (60, 1));
    a.account_new_allocation(40).unwrap();
    let e = a.account_new_allocation(0).unwrap_err();
    expect_error(e, DiagnosticKind::Limit, "allocation budget exhausted");
    assert_eq!((a.heap_bytes_used, a.allocation_count), (100, 2));
}

#[test]
fn heap_capacity_check_is_exact() {
    let mut a = ResourceAccounting::new(limits(100, 10, 10), None);
    a.account_new_allocation(30).unwrap();
    assert!(a.ensure_heap_capacity(70).is_ok());
    expect_error(a.ensure_heap_capacity(71).unwrap_err(), DiagnosticKind::Limit, "heap limit exceeded");
    expect_error(
        a.ensure_heap_capacity(usize::MAX).unwrap_err(),
        DiagnosticKind::Limit,
        "heap limit exceeded",
    );
}

#[test]
fn heap_delta_grows_and_shrinks_usage() {
    let mut a = ResourceAccounting::new(limits(100, 10, 10), None);
    a.account_new_allocation(40).unwrap();
    a.apply_heap_delta(40, 90).unwrap();
    assert_eq!(a.heap_bytes_used, 90);
    expect_error(a.apply_heap_delta(10, 30).unwrap_err(), DiagnosticKind::Limit, "heap limit exceeded");
    assert_eq!(a.heap_bytes_used, 90);
    a.apply_heap_delta(90, 5).unwrap();
    assert_eq!(a.heap_bytes_used, 5);
    assert_eq!(a.allocation_count, 1);
}

#[test]
fn instruction_budget_is_exhausted_after_the_last_allowed_step() {
    let mut a = ResourceAccounting::new(limits(100, 10, 2), None);
    assert!(a.bump_instruction_budget().is_ok());
    assert!(a.bump_instruction_budget().is_ok());
    let e = a.bump_instruction_budget().unwrap_err();
    expect_error(e, DiagnosticKind::Limit, "instruction budget exhausted");
    assert_eq!(a.instruction_counter, 3);
}

#[test]
fn cancellation_is_seen_through_the_shared_token() {
    let token = CancellationToken::new();
    let a = ResourceAccounting::new(limits(100, 10, 10), Some(token.clone()));
    assert!(a.check_cancellation().is_ok());
    token.cancel();
    assert!(token.is_cancelled());
    expect_error(a.check_cancellation().unwrap_err(), DiagnosticKind::Limit, "execution cancelled");
    let b = ResourceAccounting::new(limits(100, 10, 10), None);
    assert!(b.check_cancellation().is_ok());
}

#[test]
fn totals_are_summed_or_overflow_is_reported() {
    assert_eq!(recompute_accounting_totals(&vec![3, 4, 5]), Ok((12, 3)));
    assert_eq!(recompute_accounting_totals(&vec![]), Ok((0, 0)));
    assert_eq!(
        recompute_accounting_totals(&vec![usize::MAX, 1]),
        Err("heap accounting overflow".to_string())
    );
}

#[test]
fn reloaded_usage_is_checked_against_the_limits() {
    let mut a = ResourceAccounting::new(limits(100, 3, 10), None);
    a.recompute_accounting_after_load(&vec![10, 20]).unwrap();
    assert_eq!((a.heap_bytes_used, a.allocation_count), (30, 2));
    assert!(a.recompute_accounting_after_load(&vec![1, 1, 1, 1]).is_err());
    assert!(a.recompute_accounting_after_load(&vec![60, 50]).is_err());
    assert_eq!((a.heap_bytes_used, a.allocation_count), (30, 2));
    let e = a.recompute_accounting_after_load(&vec![usize::MAX, 2]).unwrap_err();
    expect_error(
        e,
        DiagnosticKind::Serialization,
        "snapshot validation failed: heap accounting overflow",
    );
}

#[test]
fn resume_options_replace_the_token_and_respect_the_policy_gate() {
    let mut a = ResourceAccounting::new(limits(100, 10, 10), None);
    let token = CancellationToken::new();
    a.apply_resume_options(ResumeOptions { cancellation_token: Some(token.clone()) }).unwrap();
    token.cancel();
    assert!(a.check_cancellation().is_err());
    a.apply_resume_options(ResumeOptions::default()).unwrap();
    assert!(a.check_cancellation().is_err());
    a.snapshot_policy_required = true;
    let e = a.apply_resume_options(ResumeOptions::default()).unwrap_err();
    expect_error(
        e,
        DiagnosticKind::Serialization,
        "loaded snapshots require explicit host policy before resume",
    );
}
