use causal::failure::{classify, domain, poison, transient, Error, ErrorClass, FailureClass};

#[test]
fn classification_survives_context_wrapping() {
    let e = transient(Error::msg("connection refused"));
    let wrapped = e.context("while enriching job 42");
    assert_eq!(classify(&wrapped), Some(ErrorClass::Transient));
    assert!(wrapped.to_chain_text().contains("connection refused"));
}

#[test]
fn outermost_classification_wins() {
    let inner = transient(Error::msg("looked transient"));
    let rewrapped = poison(inner);
    assert_eq!(classify(&rewrapped), Some(ErrorClass::Poison));
}

#[test]
fn plain_errors_are_unclassified() {
    assert_eq!(classify(&Error::msg("boom")), None);
}

#[test]
fn failure_class_labels_are_the_wire_contract() {
    assert_eq!(FailureClass::TransientExhausted.as_str(), "transient_exhausted");
    assert_eq!(FailureClass::Poison.as_str(), "poison");
    assert_eq!(FailureClass::Domain.as_str(), "domain");
    assert_eq!(FailureClass::Unclassified.as_str(), "unclassified");
}

#[test]
fn chain_text_lists_every_link() {
    let e = domain(Error::msg("boom")).context("outer");
    assert_eq!(e.to_text(), "outer");
    assert_eq!(e.to_chain_text(), "outer: boom: boom");
    assert_eq!(domain(Error::msg("boom")).to_text(), "boom");
}
