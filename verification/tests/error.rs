use meta_call_lsp::error::{ReindexError, ServerError};
use meta_call_lsp::protocol::RequestId;

fn error_code(error: &ServerError) -> i32 {
    error.to_response(RequestId::Number(1)).code
}

#[test]
fn every_variant_maps_to_its_json_rpc_code() {
    assert_eq!(
        error_code(&ServerError::MethodNotFound("x".to_string())),
        -32601
    );
    assert_eq!(
        error_code(&ServerError::InvalidParams("x".to_string())),
        -32602
    );
    assert_eq!(error_code(&ServerError::Internal("x".to_string())), -32603);
    assert_eq!(error_code(&ServerError::Cancelled), -32800);
    assert_eq!(
        error_code(&ServerError::ContentModified("x".to_string())),
        -32801
    );
    assert_eq!(
        error_code(&ServerError::RequestFailed("x".to_string())),
        -32803
    );
}

#[test]
fn cancelled_response_carries_the_request_id() {
    let id = RequestId::Number(7);
    let response = ServerError::Cancelled.to_response(id.clone());
    assert!(response.id.same(&id));
    assert_eq!(response.message, "request cancelled");
}

#[test]
fn messages_name_the_kind_of_error() {
    let table = [
        (
            ServerError::MethodNotFound("m".to_string()),
            "method not found: m",
        ),
        (ServerError::InvalidParams("p".to_string()), "protocol: p"),
        (ServerError::Internal("i".to_string()), "internal error: i"),
        (
            ServerError::ContentModified("c".to_string()),
            "content modified: c",
        ),
        (
            ServerError::RequestFailed("r".to_string()),
            "request failed: r",
        ),
    ];
    for (error, text) in table {
        assert_eq!(error.message(), text);
    }
    assert_eq!(
        ReindexError::Engine("boom".to_string()).message(),
        "engine reanalysis failed: boom"
    );
    assert_eq!(
        ReindexError::Exhausted.message(),
        "snapshot counter exhausted"
    );
}
