use jslite::cancellation::CancellationToken;
use jslite::host::{resume_behavior_for_capability, ResumeBehavior};
use std::sync::atomic::AtomicBool;
use std::sync::Arc;

#[test]
fn console_capabilities_resume_with_undefined() {
    assert_eq!(resume_behavior_for_capability("console.log"), ResumeBehavior::Undefined);
    assert_eq!(resume_behavior_for_capability("console.warn"), ResumeBehavior::Undefined);
    assert_eq!(resume_behavior_for_capability("console.error"), ResumeBehavior::Undefined);
    assert_eq!(resume_behavior_for_capability("console.info"), ResumeBehavior::Value);
    assert_eq!(resume_behavior_for_capability("fetch_data"), ResumeBehavior::Value);
}

#[test]
fn tokens_share_their_flag() {
    let flag = Arc::new(AtomicBool::new(false));
    let a = CancellationToken::from_shared(flag.clone());
    let b = CancellationToken::from_shared(flag);
    assert!(!b.is_cancelled());
    a.cancel();
    assert!(b.is_cancelled());
    let fresh = CancellationToken::default();
    assert!(!fresh.is_cancelled());
}
