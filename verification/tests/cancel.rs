use meta_call_lsp::cancel::{CancelToken, Cancellation};
use meta_call_lsp::protocol::RequestId;

#[test]
fn cancel_sets_only_the_target_token() {
    let mut cancellation = Cancellation::default();
    let first = cancellation.register(&RequestId::Number(1));
    let second = cancellation.register(&RequestId::Number(2));

    cancellation.cancel(&RequestId::Number(1));
    assert!(first.is_cancelled(&cancellation));
    assert!(!second.is_cancelled(&cancellation));

    cancellation.release(first);
    assert_eq!(cancellation.len(), 1);
}

#[test]
fn an_unknown_id_cancel_is_a_no_op() {
    let mut cancellation = Cancellation::default();
    let id = RequestId::Number(99);

    cancellation.cancel(&id);
    cancellation.cancel(&id);

    assert!(
        cancellation.is_empty(),
        "an unknown id must not be remembered"
    );
    let later = cancellation.register(&id);
    assert!(
        !later.is_cancelled(&cancellation),
        "a cancel for a request that never arrived must not cancel a later one"
    );
}

#[test]
fn dropping_a_registration_cleans_the_registry() {
    let mut cancellation = Cancellation::default();
    let id = RequestId::Number(5);
    let guard = cancellation.register(&id);
    assert_eq!(cancellation.len(), 1);
    cancellation.release(guard);
    assert!(cancellation.is_empty());
}

#[test]
fn a_number_and_a_text_are_different_ids() {
    let mut cancellation = Cancellation::default();
    let number = cancellation.register(&RequestId::Number(1));
    let text = cancellation.register(&RequestId::Text("1".to_string()));
    cancellation.cancel(&RequestId::Text("1".to_string()));
    assert!(!number.is_cancelled(&cancellation));
    assert!(text.is_cancelled(&cancellation));
}

#[test]
fn registering_again_keeps_the_token() {
    let mut cancellation = Cancellation::default();
    let id = RequestId::Number(3);
    let _first = cancellation.register(&id);
    cancellation.cancel(&id);
    let again = cancellation.register(&id);
    assert!(again.is_cancelled(&cancellation));
    assert_eq!(cancellation.len(), 1);
}

#[test]
fn a_token_starts_uncancelled() {
    let mut token = CancelToken::default();
    assert!(!token.is_cancelled());
    token.cancel();
    assert!(token.is_cancelled());
}

#[test]
fn registrations_of_one_request_share_its_token() {
    let mut cancellation = Cancellation::default();
    let id = RequestId::Number(7);
    let first = cancellation.register(&id);
    let second = cancellation.register(&id);
    assert_eq!(cancellation.len(), 1);
    cancellation.cancel(&id);
    assert!(first.is_cancelled(&cancellation) && second.is_cancelled(&cancellation));

    cancellation.release(first);
    assert!(cancellation.is_empty());
    assert!(
        second.is_cancelled(&cancellation),
        "a token stays cancelled while it is held"
    );
    let fresh = cancellation.register(&id);
    assert!(!fresh.is_cancelled(&cancellation), "the id has a new token");
    assert!(second.is_cancelled(&cancellation));
}

#[test]
fn a_parted_token_is_cancelled_no_more() {
    let mut cancellation = Cancellation::default();
    let id = RequestId::Number(8);
    let first = cancellation.register(&id);
    let second = cancellation.register(&id);
    cancellation.release(first);
    let fresh = cancellation.register(&id);
    cancellation.cancel(&id);
    assert!(fresh.is_cancelled(&cancellation));
    assert!(!second.is_cancelled(&cancellation));
    cancellation.release(second);
    assert!(cancellation.is_empty(), "the id leads to no token any more");
    assert!(fresh.is_cancelled(&cancellation));
}
