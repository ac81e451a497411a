//! The relay of a request to a remote endpoint: which requests are passed
//! on, and in what form.

use crate::error::AppError;
use crate::text::{text_eq, to_uppercase, uppercase_of};
use vstd::prelude::*;
use vstd::string::*;

verus! {

/// The seconds after which a relayed request is given up.
pub const REQUEST_TIMEOUT_SECS: u64 = 60;

/// A request to relay.
#[derive(Debug, Clone, PartialEq, Eq)]
pub struct AiRequest {
    /// The address of the endpoint.
    pub url: String,
    /// The method, `GET` or `POST` in any mix of upper and lower case.
    pub method: String,
    /// The headers, name and value, in the order in which they are sent.
    pub headers: Vec<(String, String)>,
    /// The body; empty for none.
    pub body: String,
}

/// What the endpoint answered.
#[derive(Debug, Clone, PartialEq, Eq)]
pub struct AiResponse {
    /// The status code.
    pub status: u16,
    /// The body, as text.
    pub body: String,
}

/// The methods that are relayed.
#[derive(Debug, Clone, Copy, PartialEq, Eq, Structural)]
pub enum HttpMethod {
    /// `GET`.
    Get,
    /// `POST`.
    Post,
}

/// A request in the form in which it is sent.
#[derive(Debug, Clone, PartialEq, Eq)]
pub struct RequestPlan {
    /// The method.
    pub method: HttpMethod,
    /// The address of the endpoint.
    pub url: String,
    /// The headers to send, in order.
    pub headers: Vec<(String, String)>,
    /// The body to send, if any.
    pub body: Option<String>,
}

/// The headers of a list as mathematical values.
pub open spec fn headers_view(headers: Seq<(String, String)>) -> Seq<(Seq<char>, Seq<char>)> {
    headers.map_values(|h: (String, String)| (h.0@, h.1@))
}

/// The method that a name stands for: its uppercase form is `POST` or
/// `GET`. No other method is relayed.
pub open spec fn method_of(name: Seq<char>) -> Option<HttpMethod> {
    if uppercase_of(name) == "POST"@ {
        Some(HttpMethod::Post)
    } else if uppercase_of(name) == "GET"@ {
        Some(HttpMethod::Get)
    } else {
        None
    }
}

/// The method for an uppercase name.
pub open spec fn method_named(upper: Seq<char>) -> Option<HttpMethod> {
    if upper == "POST"@ {
        Some(HttpMethod::Post)
    } else if upper == "GET"@ {
        Some(HttpMethod::Get)
    } else {
        None
    }
}

/// Tells the method that an uppercase name stands for.
pub fn method_from_upper(upper: &str) -> (method: Option<HttpMethod>)
    ensures
        method == method_named(upper@),
{
    if text_eq(upper, "POST") {
        Some(HttpMethod::Post)
    } else if text_eq(upper, "GET") {
        Some(HttpMethod::Get)
    } else {
        None
    }
}

/// Tells the method of a request, or refuses it with `Unsupported` and the name
/// as it was given.
pub fn request_method(name: &str) -> (r: Result<HttpMethod, AppError>)
    ensures
        match r {
            Ok(method) => method_of(name@) == Some(method),
            Err(e) => method_of(name@).is_none() && e is Unsupported && e.detail()
                == "Unsupported method: "@ + name@,
        },
{
    let upper = to_uppercase(name);
    match method_from_upper(upper.as_str()) {
        Some(method) => Ok(method),
        None => Err(AppError::Unsupported(String::from_str("Unsupported method: ").concat(name))),
    }
}

/// The headers that are sent: those of the request, and behind them the
/// content type of JSON where the request has a body.
pub open spec fn sent_headers(headers: Seq<(Seq<char>, Seq<char>)>, body: Seq<char>) -> Seq<
    (Seq<char>, Seq<char>),
> {
    if body.len() > 0 {
        headers.push(("Content-Type"@, "application/json"@))
    } else {
        headers
    }
}

/// Whether `r` is the form in which the request is sent, or its refusal.
pub open spec fn is_plan_of(request: AiRequest, r: Result<RequestPlan, AppError>) -> bool {
    match r {
        Ok(plan) => {
            &&& method_of(request.method@) == Some(plan.method)
            &&& plan.url@ == request.url@
            &&& headers_view(plan.headers@) == sent_headers(
                headers_view(request.headers@),
                request.body@,
            )
            &&& match plan.body {
                Some(text) => request.body@.len() > 0 && text@ == request.body@,
                None => request.body@.len() == 0,
            }
        },
        Err(e) => method_of(request.method@).is_none() && e is Unsupported && e.detail()
            == "Unsupported method: "@ + request.method@,
    }
}

/// Decides how a request is relayed: only `GET` and `POST` are, and a body
/// that is not empty is sent as JSON.
pub fn plan_request(request: AiRequest) -> (r: Result<RequestPlan, AppError>)
    ensures
        is_plan_of(request, r),
{
    let method = match request_method(request.method.as_str()) {
        Ok(method) => method,
        Err(e) => {
            return Err(e);
        },
    };
    let ghost given = headers_view(request.headers@);
    let mut headers = request.headers;
    if request.body.as_str().is_empty() {
        Ok(RequestPlan { method, url: request.url, headers, body: None })
    } else {
        let name = String::from_str("Content-Type");
        let value = String::from_str("application/json");
        assert(headers_view(headers@.push((name, value))) =~= given.push((name@, value@)));
        headers.push((name, value));
        Ok(RequestPlan { method, url: request.url, headers, body: Some(request.body) })
    }
}

/// The step of a relay at which it can fail.
#[derive(Debug, Clone, Copy, PartialEq, Eq, Structural)]
pub enum RelayStep {
    /// Setting up the client.
    Client,
    /// Sending the request.
    Send,
    /// Reading the answer.
    Read,
}

/// What a failure at a step of the relay is called.
pub open spec fn step_text(step: RelayStep) -> Seq<char> {
    match step {
        RelayStep::Client => "Failed to create HTTP client: "@,
        RelayStep::Send => "HTTP request failed: "@,
        RelayStep::Read => "Failed to read response: "@,
    }
}

/// The `Network` failure for a step of the relay and its cause.
pub fn relay_failure(step: RelayStep, cause: &str) -> (e: AppError)
    ensures
        e is Network,
        e.detail() == step_text(step) + cause@,
{
    let text = match step {
        RelayStep::Client => String::from_str("Failed to create HTTP client: "),
        RelayStep::Send => String::from_str("HTTP request failed: "),
        RelayStep::Read => String::from_str("Failed to read response: "),
    };
    AppError::Network(text.concat(cause))
}

} // verus!
