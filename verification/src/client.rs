//! Client-side request building: the endpoints, the authorization header and
//! the body of an outbound post. The transport that sends them lives outside
//! the library.
use vstd::prelude::*;
use vstd::string::StringExecFns;

verus! {

/// Connection data for one server: its base URL and the bearer token.
pub struct ClientData {
    pub instance_url: String,
    pub api_token: String,
}

/// A client bound to one server instance.
pub struct Client {
    pub data: ClientData,
}

/// The body of an outbound post: the message text, the status it replies to
/// (if any), and its visibility.
pub struct PostRequest {
    pub status: String,
    pub in_reply_to_id: Option<String>,
    pub visibility: String,
}

/// The body of a public post of `message`, optionally in reply to `to`.
pub fn post_body(message: String, to: Option<String>) -> (r: PostRequest)
    ensures
        r.status == message,
        r.in_reply_to_id == to,
        r.visibility@ == "public"@,
{
    PostRequest { status: message, in_reply_to_id: to, visibility: String::from_str("public") }
}

impl Client {
    /// The endpoint a new status is posted to.
    pub fn statuses_url(&self) -> (r: String)
        ensures
            r@ == self.data.instance_url@ + "/api/v1/statuses"@,
    {
        self.data.instance_url.clone().concat("/api/v1/statuses")
    }

    /// The streaming endpoint for the user's notifications, with the access
    /// token as a query parameter.
    pub fn streaming_url(&self) -> (r: String)
        ensures
            r@ == self.data.instance_url@ + "/api/v1/streaming/user/notification?access_token="@
                + self.data.api_token@,
    {
        self.data.instance_url.clone().concat(
            "/api/v1/streaming/user/notification?access_token=",
        ).concat(self.data.api_token.as_str())
    }

    /// The authorization header value carrying this client's token.
    pub fn bearer_header(&self) -> (r: String)
        ensures
            r@ == "Bearer "@ + self.data.api_token@,
    {
        String::from_str("Bearer ").concat(self.data.api_token.as_str())
    }
}

} // verus!
