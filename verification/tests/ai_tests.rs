use mdvault::ai::{
    method_from_upper, plan_request, relay_failure, request_method, AiRequest, AiResponse,
    HttpMethod, RelayStep, RequestPlan, REQUEST_TIMEOUT_SECS,
};
use mdvault::commands::{assets_directory, check_create, check_exists, check_rename};
use mdvault::error::AppError;

fn request(method: &str, body: &str) -> AiRequest {
    AiRequest {
        url: "https://example.test/v1".to_string(),
        method: method.to_string(),
        headers: vec![("Authorization".to_string(), "Bearer SECRET-REDACTED".to_string())],
        body: body.to_string(),
    }
}

#[test]
fn methods_are_get_and_post_only() {
    assert_eq!(request_method("GET"), Ok(HttpMethod::Get));
    assert_eq!(request_method("get"), Ok(HttpMethod::Get));
    assert_eq!(request_method("Post"), Ok(HttpMethod::Post));
    assert_eq!(
        request_method("delete"),
        Err(AppError::Unsupported("Unsupported method: delete".to_string()))
    );
    assert_eq!(request_method(""), Err(AppError::Unsupported("Unsupported method: ".to_string())));
    assert_eq!(method_from_upper("POST"), Some(HttpMethod::Post));
    assert_eq!(method_from_upper("post"), None);
}

#[test]
fn a_body_is_sent_as_json() {
    assert_eq!(
        plan_request(request("post", "{\"q\":1}")),
        Ok(RequestPlan {
            method: HttpMethod::Post,
            url: "https://example.test/v1".to_string(),
            headers: vec![
                ("Authorization".to_string(), "Bearer SECRET-REDACTED".to_string()),
                ("Content-Type".to_string(), "application/json".to_string()),
            ],
            body: Some("{\"q\":1}".to_string()),
        })
    );
}

#[test]
fn an_empty_body_is_not_sent() {
    assert_eq!(
        plan_request(request("GET", "")),
        Ok(RequestPlan {
            method: HttpMethod::Get,
            url: "https://example.test/v1".to_string(),
            headers: vec![("Authorization".to_string(), "Bearer SECRET-REDACTED".to_string())],
            body: None,
        })
    );
    assert_eq!(
        plan_request(request("PUT", "x")),
        Err(AppError::Unsupported("Unsupported method: PUT".to_string()))
    );
}

#[test]
fn relay_failures_and_timeout() {
    assert_eq!(
        relay_failure(RelayStep::Client, "tls"),
        AppError::Network("Failed to create HTTP client: tls".to_string())
    );
    assert_eq!(
        relay_failure(RelayStep::Send, "timed out").message(),
        "Network error: HTTP request failed: timed out"
    );
    assert_eq!(
        relay_failure(RelayStep::Read, "eof"),
        AppError::Network("Failed to read response: eof".to_string())
    );
    assert_eq!(REQUEST_TIMEOUT_SECS, 60);
    let response = AiResponse { status: 200, body: "ok".to_string() };
    assert_eq!(response.status, 200);
}

#[test]
fn file_command_checks() {
    assert_eq!(check_rename("a", "b", true, false), Ok(()));
    assert_eq!(check_rename("a", "b", false, false), Err(AppError::NotFound("a".to_string())));
    assert_eq!(check_rename("a", "b", false, true), Err(AppError::NotFound("a".to_string())));
    assert_eq!(check_rename("a", "b", true, true), Err(AppError::AlreadyExists("b".to_string())));
    assert_eq!(check_exists("a", true), Ok(()));
    assert_eq!(check_exists("a", false), Err(AppError::NotFound("a".to_string())));
    assert_eq!(check_create("a", false), Ok(()));
    assert_eq!(check_create("a", true), Err(AppError::AlreadyExists("a".to_string())));
    assert_eq!(assets_directory(), "assets");
}
