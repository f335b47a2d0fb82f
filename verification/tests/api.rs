//! The backend-facing surface types and the background bridge context.

use redisgears::api::{FunctionCallResult, GearsApiError, StreamRecordAck};
use redisgears::background::BackgroundRunCtx;

#[test]
fn error_carries_its_message() {
    let e = GearsApiError::Msg("something broke".to_string());
    assert_eq!(e.get_msg(), "something broke");
}

#[test]
fn background_context_carries_the_invoking_user() {
    let internal = BackgroundRunCtx::new(None);
    assert!(!internal.needs_authentication());
    let user = BackgroundRunCtx::new(Some("alice".to_string()));
    assert!(user.needs_authentication());
    assert_eq!(user.user.as_deref(), Some("alice"));
}

#[test]
fn ack_variants_hold_their_payload() {
    match StreamRecordAck::Nack("oops".to_string()) {
        StreamRecordAck::Nack(m) => assert_eq!(m, "oops"),
        StreamRecordAck::Ack => panic!("expected a negative outcome"),
    }
    assert!(matches!(FunctionCallResult::Hold, FunctionCallResult::Hold));
}
