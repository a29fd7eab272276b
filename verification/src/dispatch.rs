//! Dispatch decisions: what the consumer of the event channel does with one
//! decoded notification. The decisions are pure; performing the resulting
//! post is the caller's business.
use vstd::prelude::*;
use vstd::string::StringExecFns;
use rand::seq::IndexedRandom;

verus! {

/// What the dispatch loop reads of one decoded notification event.
pub struct Notification {
    /// The event's type tag (a mention is replied to).
    pub kind: String,
    /// Whether the account that triggered it is marked as a bot.
    pub account_bot: bool,
    /// The handle of that account, used to address the reply.
    pub account_acct: String,
    /// The id of the status to reply to, when there is one.
    pub status_id: Option<String>,
}

/// A notification is replied to exactly when it is a mention that does not
/// come from a bot.
pub fn should_reply(n: &Notification) -> (r: bool)
    ensures
        r == (n.kind@ == "mention"@ && !n.account_bot),
{
    let mention = String::from_str("mention");
    n.kind == mention && !n.account_bot
}

/// Relies on rand's IndexedRandom::choose, with rand::rng() as the source:
/// it returns `None` exactly when the slice is empty, and otherwise some
/// element of the slice (uniformly sampled; nothing is promised about which).
#[verifier::external_body]
fn choose_response(responses: &Vec<String>) -> (r: Option<String>)
    ensures
        r is Some <==> responses@.len() > 0,
        r matches Some(s) ==> exists|i: int| 0 <= i < responses@.len() && s == responses@[i],
{
    responses.as_slice().choose(&mut rand::rng()).cloned()
}

/// The reply text addressed to `acct`: the handle marker, the handle, a
/// space, and the response.
pub fn compose_reply(acct: &str, response: &str) -> (r: String)
    ensures
        r@ == "@"@ + acct@ + " "@ + response@,
{
    String::from_str("@").concat(acct).concat(" ").concat(response)
}

/// The reply to send to `acct`: one of the configured responses, or the
/// default notice when none are configured.
pub fn reply_text(acct: &str, responses: &Vec<String>) -> (r: String)
    ensures
        responses@.len() == 0 ==> r@ == "@"@ + acct@ + " "@ + "No Responses Set"@,
        responses@.len() > 0 ==> exists|i: int|
            0 <= i < responses@.len() && r@ == "@"@ + acct@ + " "@ + responses@[i]@,
{
    match choose_response(responses) {
        Some(resp) => compose_reply(acct, resp.as_str()),
        None => compose_reply(acct, "No Responses Set"),
    }
}

} // verus!
