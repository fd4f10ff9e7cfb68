use jslite::token_registry::{
    cancel_cancellation_token, create_cancellation_token, lookup_cancellation_token,
    release_cancellation_token, CancellationRegistry,
};

#[test]
fn tokens_are_named_in_creation_order() {
    let mut registry = CancellationRegistry::new();
    assert!(registry.can_create());
    assert_eq!(create_cancellation_token(&mut registry), "cancel-1");
    assert_eq!(create_cancellation_token(&mut registry), "cancel-2");
    assert_eq!(create_cancellation_token(&mut registry), "cancel-3");
}

#[test]
fn a_created_token_is_found_and_cancelled_through_its_name() {
    let mut registry = CancellationRegistry::new();
    let id = create_cancellation_token(&mut registry);
    let token = lookup_cancellation_token(&registry, Some(id.clone()))
        .expect("a live token should be found")
        .expect("a name was given");
    assert!(!token.is_cancelled());
    assert_eq!(cancel_cancellation_token(&registry, &id), Ok(()));
    assert!(token.is_cancelled());
}

#[test]
fn no_name_means_no_token() {
    let registry = CancellationRegistry::new();
    assert!(matches!(lookup_cancellation_token(&registry, None), Ok(None)));
}

#[test]
fn unknown_and_released_names_are_refused() {
    let mut registry = CancellationRegistry::new();
    assert_eq!(
        cancel_cancellation_token(&registry, "cancel-7"),
        Err("unknown cancellation token `cancel-7`".to_string())
    );
    let first = create_cancellation_token(&mut registry);
    let second = create_cancellation_token(&mut registry);
    release_cancellation_token(&mut registry, &first);
    match lookup_cancellation_token(&registry, Some(first.clone())) {
        Err(message) => assert_eq!(message, "unknown cancellation token `cancel-1`"),
        Ok(_) => panic!("a released token should be unknown"),
    }
    assert!(lookup_cancellation_token(&registry, Some(second)).is_ok());
    // Releasing an unknown name changes nothing.
    release_cancellation_token(&mut registry, "cancel-9");
    assert_eq!(create_cancellation_token(&mut registry), "cancel-3");
}
