use causal::event_type::{matches_kind, validate_name};

#[test]
fn matching_is_exact_no_prefixes() {
    assert!(matches_kind("order_placed", "order_placed"));
    // The pre-B1 bug class is unconstructable under equality.
    assert!(!matches_kind("orders_created", "order"));
    assert!(!matches_kind("order_placed", "order"));
    assert!(!matches_kind("order", "order_placed"));
}

#[test]
fn colons_are_just_characters_now() {
    // Historical composed names remain valid opaque kinds.
    assert!(matches_kind("legacy:created", "legacy:created"));
    assert!(!matches_kind("legacy:created", "legacy"));
}

#[test]
fn empty_names_are_rejected() {
    assert!(validate_name("aggregator event", "").is_err());
    assert!(validate_name("x", "order_placed").is_ok());
}
