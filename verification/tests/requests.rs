use sse_pipeline::client::{post_body, Client, ClientData};
use sse_pipeline::dispatch::{compose_reply, reply_text, should_reply, Notification};

fn client() -> Client {
    Client {
        data: ClientData {
            instance_url: "https://example.test".to_string(),
            api_token: "SECRET-REDACTED".to_string(),
        },
    }
}

#[test]
fn statuses_url_appends_endpoint() {
    assert_eq!(client().statuses_url(), "https://example.test/api/v1/statuses");
}

#[test]
fn streaming_url_carries_token() {
    assert_eq!(
        client().streaming_url(),
        "https://example.test/api/v1/streaming/user/notification?access_token=SECRET-REDACTED"
    );
}

#[test]
fn bearer_header_prefixes_token() {
    assert_eq!(client().bearer_header(), "Bearer SECRET-REDACTED");
}

#[test]
fn post_body_is_public_reply() {
    let body = post_body("hello".to_string(), Some("17".to_string()));
    assert_eq!(body.status, "hello");
    assert_eq!(body.in_reply_to_id, Some("17".to_string()));
    assert_eq!(body.visibility, "public");
    let plain = post_body("hi".to_string(), None);
    assert_eq!(plain.in_reply_to_id, None);
}

#[test]
fn mentions_from_people_are_replied_to() {
    let n = Notification {
        kind: "mention".to_string(),
        account_bot: false,
        account_acct: "alice".to_string(),
        status_id: Some("1".to_string()),
    };
    assert!(should_reply(&n));
}

#[test]
fn mentions_from_bots_are_ignored() {
    let n = Notification {
        kind: "mention".to_string(),
        account_bot: true,
        account_acct: "autoposter".to_string(),
        status_id: None,
    };
    assert!(!should_reply(&n));
}

#[test]
fn other_notifications_are_ignored() {
    let n = Notification {
        kind: "favourite".to_string(),
        account_bot: false,
        account_acct: "alice".to_string(),
        status_id: None,
    };
    assert!(!should_reply(&n));
}

#[test]
fn compose_reply_addresses_account() {
    assert_eq!(compose_reply("alice", "hello"), "@alice hello");
}

#[test]
fn reply_text_defaults_when_no_responses() {
    let responses: Vec<String> = Vec::new();
    assert_eq!(reply_text("alice", &responses), "@alice No Responses Set");
}

#[test]
fn reply_text_uses_the_single_response() {
    let responses = vec!["hi there".to_string()];
    assert_eq!(reply_text("alice", &responses), "@alice hi there");
}

#[test]
fn reply_text_picks_a_configured_response() {
    let responses = vec!["one".to_string(), "two".to_string()];
    let reply = reply_text("bob", &responses);
    assert!(reply == "@bob one" || reply == "@bob two");
}
