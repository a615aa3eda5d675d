//! The status codes of HTTP responses.
use vstd::prelude::*;

verus! {

/// The status of a response.
#[derive(Debug, PartialEq, Eq, Copy, Clone, Structural)]
pub enum StatusCode {
    OK,
    BadRequest,
    Forbidden,
    NotFound,
    MethodNotAllowed,
    PayloadTooLarge,
    InternalServerError,
}

impl StatusCode {
    /// The three digits of the status line.
    pub open spec fn number(self) -> int {
        match self {
            StatusCode::OK => 200,
            StatusCode::BadRequest => 400,
            StatusCode::Forbidden => 403,
            StatusCode::NotFound => 404,
            StatusCode::MethodNotAllowed => 405,
            StatusCode::PayloadTooLarge => 413,
            StatusCode::InternalServerError => 500,
        }
    }

    /// The digits and the reason phrase of the status line.
    pub open spec fn line(self) -> Seq<char> {
        match self {
            StatusCode::OK => "200 OK"@,
            StatusCode::BadRequest => "400 Bad Request"@,
            StatusCode::Forbidden => "403 Forbidden"@,
            StatusCode::NotFound => "404 Not Found"@,
            StatusCode::MethodNotAllowed => "405 Method Not Allowed"@,
            StatusCode::PayloadTooLarge => "413 Payload Too Large"@,
            StatusCode::InternalServerError => "500 Internal Server Error"@,
        }
    }

    /// The explanation on an error page.
    pub open spec fn explanation(self) -> Seq<char> {
        match self {
            StatusCode::OK => ""@,
            StatusCode::BadRequest => "The request could not be understood by the server."@,
            StatusCode::Forbidden => "You don't have permission to access this resource."@,
            StatusCode::NotFound => "The requested resource could not be found."@,
            StatusCode::MethodNotAllowed =>
                "The requested method is not allowed for this resource."@,
            StatusCode::PayloadTooLarge => "The request payload is too large."@,
            StatusCode::InternalServerError => "An internal server error occurred."@,
        }
    }

    /// The number of the status.
    pub fn code(&self) -> (n: i32)
        ensures
            n == self.number(),
    {
        match self {
            StatusCode::OK => 200,
            StatusCode::BadRequest => 400,
            StatusCode::Forbidden => 403,
            StatusCode::NotFound => 404,
            StatusCode::MethodNotAllowed => 405,
            StatusCode::PayloadTooLarge => 413,
            StatusCode::InternalServerError => 500,
        }
    }

    /// The text of the status line after the protocol version.
    pub fn to_string(&self) -> (s: &str)
        ensures
            s@ == self.line(),
    {
        match self {
            StatusCode::OK => "200 OK",
            StatusCode::BadRequest => "400 Bad Request",
            StatusCode::Forbidden => "403 Forbidden",
            StatusCode::NotFound => "404 Not Found",
            StatusCode::MethodNotAllowed => "405 Method Not Allowed",
            StatusCode::PayloadTooLarge => "413 Payload Too Large",
            StatusCode::InternalServerError => "500 Internal Server Error",
        }
    }

    /// What an error page says about the status.
    pub fn describe(&self) -> (s: &str)
        ensures
            s@ == self.explanation(),
    {
        match self {
            StatusCode::OK => "",
            StatusCode::BadRequest => "The request could not be understood by the server.",
            StatusCode::Forbidden => "You don't have permission to access this resource.",
            StatusCode::NotFound => "The requested resource could not be found.",
            StatusCode::MethodNotAllowed =>
                "The requested method is not allowed for this resource.",
            StatusCode::PayloadTooLarge => "The request payload is too large.",
            StatusCode::InternalServerError => "An internal server error occurred.",
        }
    }
}

} // verus!
