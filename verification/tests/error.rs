use slhack::error::Error;

#[test]
fn new_keeps_its_parts_and_takes_a_backtrace() {
    let e = Error::new("boom".to_string(), None);
    assert_eq!(e.message, "boom");
    assert!(e.inner.is_none());
    assert!(e.source().is_none());
    assert!(e.backtrace.is_some());
    assert!(e.to_string().starts_with("boom\nBacktrace:\n"));
    assert_eq!(e.to_string(), format!("boom\nBacktrace:\n{}", e.backtrace.as_ref().unwrap()));
}

#[test]
fn context_wraps_the_error_as_cause() {
    let e = Error::new("cause".to_string(), None).context("effect".to_string());
    assert_eq!(e.message, "effect");
    assert_eq!(e.source().expect("a cause").message, "cause");
    assert!(e.backtrace.is_some());
    let inner = e.inner.expect("a cause");
    assert_eq!(inner.message, "cause");
    assert!(inner.inner.is_none());
    assert!(inner.backtrace.is_some());
}

#[test]
fn parts_come_back_as_they_went_in() {
    let cause = Error::from_parts(("cause".to_string(), None, Some("there".to_string())));
    let e = Error::from_parts(("msg".to_string(), Some(Box::new(cause)), Some("here".to_string())));
    let (message, inner, backtrace) = e.into_parts();
    assert_eq!(message, "msg");
    assert_eq!(backtrace.as_deref(), Some("here"));
    let (message, inner, backtrace) = inner.expect("a cause").into_parts();
    assert_eq!(message, "cause");
    assert!(inner.is_none());
    assert_eq!(backtrace.as_deref(), Some("there"));
}

#[test]
fn to_string_shows_message_cause_and_backtrace() {
    let a = Error::from_parts(("a".to_string(), None, Some("at a".to_string())));
    assert_eq!(a.to_string(), "a\nBacktrace:\nat a");
    let b = Error::from_parts(("b".to_string(), Some(Box::new(a)), Some("at b".to_string())));
    assert_eq!(b.to_string(), "b\nCause: a\nBacktrace:\nat a\nBacktrace:\nat b");
    let bare = Error::from_parts(("bare".to_string(), None, None));
    assert_eq!(bare.to_string(), "bare");
}

#[test]
fn the_error_of_another_library_is_shown_by_its_text() {
    let e = Error::outside("disk full".to_string());
    assert_eq!(e.to_string(), "disk full");
    assert!(e.inner.is_none() && e.backtrace.is_none());
    let e = Error::from_outside("disk full".to_string());
    assert_eq!(e.message, "disk full");
    let cause = e.source().expect("a cause");
    assert_eq!(cause.message, "disk full");
    assert!(cause.backtrace.is_none());
    assert!(e.to_string().starts_with("disk full\nCause: disk full\nBacktrace:\n"));
}

#[test]
fn a_string_becomes_an_error_without_cause() {
    let e: Error = Error::from("plain".to_string());
    assert_eq!(e.message, "plain");
    assert!(e.inner.is_none());
    assert!(e.to_string().starts_with("plain\nBacktrace:\n"));
}
