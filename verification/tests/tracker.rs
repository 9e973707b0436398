use waf_gateway::client::{
    find_header_end, Action, DropReason, Event, Phase, RequestTracker, Step, HEADER_LIMIT,
};
use waf_gateway::configdb::{General, GenericRuleGress, IpRule, LocationRule, RuleGress};
use waf_gateway::location_rule::LocationRules;

struct Policy {
    ip_rule: Option<IpRule>,
    rules: LocationRules,
    general: General,
}

fn open_policy() -> Policy {
    Policy { ip_rule: None, rules: LocationRules::new(), general: General::default() }
}

fn with_rule(method: &str, location: &str, ingress: RuleGress, bypass: bool) -> Policy {
    let mut policy = open_policy();
    policy.rules.rules.push(LocationRule {
        method: method.to_string(),
        location: location.to_string(),
        ingress,
        bypass,
    });
    policy
}

fn with_lists(black: &[&str], white: &[&str]) -> Policy {
    let mut policy = open_policy();
    policy.ip_rule = Some(IpRule {
        ip: "10.0.0.7".to_string(),
        blacklisted_locations: black.iter().map(|s| s.to_string()).collect(),
        whitelist_location: white.iter().map(|s| s.to_string()).collect(),
        ..IpRule::default()
    });
    policy
}

fn feed(tracker: &mut RequestTracker, policy: &Policy, chunk: &[u8]) -> Action {
    tracker.on_client_bytes(chunk, &policy.ip_rule, &policy.rules, &policy.general)
}

fn assert_idle(tracker: &RequestTracker) {
    assert_eq!(tracker.phase(), Phase::ReadingHead);
    assert_eq!(tracker.buffered(), 0);
    assert_eq!(tracker.body_remaining(), 0);
}

#[test]
fn header_limit_is_128_kib() {
    assert_eq!(HEADER_LIMIT, 128 * 1024);
}

#[test]
fn new_tracker_is_idle() {
    let tracker = RequestTracker::new();
    assert_idle(&tracker);
    assert!(!tracker.bypass());
}

#[test]
fn head_end_is_the_first_blank_line() {
    assert_eq!(find_header_end(&b"".to_vec()), None);
    assert_eq!(find_header_end(&b"\r\n\r".to_vec()), None);
    assert_eq!(find_header_end(&b"\r\n\r\n".to_vec()), Some(0));
    assert_eq!(find_header_end(&b"GET / HTTP/1.1\r\n\r\n".to_vec()), Some(14));
    assert_eq!(find_header_end(&b"a\r\n\r\nb\r\n\r\n".to_vec()), Some(1));
    assert_eq!(find_header_end(&b"a\n\nb\r\r\n\n".to_vec()), None);
    assert_eq!(find_header_end(&b"abc\r\n\r".to_vec()), None);
    assert_eq!(find_header_end(&b"\r\r\n\r\n".to_vec()), Some(1));
}

#[test]
fn request_without_body_leaves_the_tracker_idle() {
    let policy = open_policy();
    let mut tracker = RequestTracker::new();
    let action = feed(&mut tracker, &policy, b"GET /health HTTP/1.1\r\nHost: x\r\n\r\n");
    assert_eq!(action, Action::Forward);
    assert_idle(&tracker);
}

#[test]
fn unfinished_head_is_held() {
    let policy = open_policy();
    let mut tracker = RequestTracker::new();
    assert_eq!(feed(&mut tracker, &policy, b"GET / HT"), Action::Forward);
    assert_eq!(tracker.buffered(), 8);
    assert_eq!(tracker.phase(), Phase::ReadingHead);
    assert_eq!(feed(&mut tracker, &policy, b"TP/1.1\r\nHost: x\r\n\r"), Action::Forward);
    assert_eq!(tracker.buffered(), 26);
    assert_eq!(feed(&mut tracker, &policy, b"\n"), Action::Forward);
    assert_idle(&tracker);
}

#[test]
fn head_in_pieces_is_held_against_the_policy() {
    let policy = with_rule("GET", "/secret", RuleGress::Deny, false);
    let mut tracker = RequestTracker::new();
    assert_eq!(feed(&mut tracker, &policy, b"GET /sec"), Action::Forward);
    assert_eq!(feed(&mut tracker, &policy, b"ret HTTP/1.1\r\n\r"), Action::Forward);
    assert_eq!(feed(&mut tracker, &policy, b"\n"), Action::Drop(DropReason::PolicyDeny));
    assert_idle(&tracker);
}

#[test]
fn blacklisted_location_drops_the_connection() {
    let policy = with_lists(&["/admin"], &[]);
    let mut tracker = RequestTracker::new();
    let action = feed(&mut tracker, &policy, b"GET /admin HTTP/1.1\r\n\r\n");
    assert_eq!(action, Action::Drop(DropReason::PolicyDeny));
    let mut tracker = RequestTracker::new();
    assert_eq!(feed(&mut tracker, &policy, b"GET /public HTTP/1.1\r\n\r\n"), Action::Forward);
}

#[test]
fn whitelist_drops_what_it_does_not_name() {
    let policy = with_lists(&[], &["/health"]);
    let mut tracker = RequestTracker::new();
    assert_eq!(feed(&mut tracker, &policy, b"GET /health HTTP/1.1\r\n\r\n"), Action::Forward);
    assert_eq!(
        feed(&mut tracker, &policy, b"GET /other HTTP/1.1\r\n\r\n"),
        Action::Drop(DropReason::PolicyDeny)
    );
}

#[test]
fn empty_whitelist_drops_nothing() {
    let policy = with_lists(&[], &[]);
    let mut tracker = RequestTracker::new();
    assert_eq!(feed(&mut tracker, &policy, b"GET /other HTTP/1.1\r\n\r\n"), Action::Forward);
}

#[test]
fn body_in_the_same_read_returns_to_head() {
    let policy = with_rule("GET", "/", RuleGress::Deny, false);
    let mut tracker = RequestTracker::new();
    let action =
        feed(&mut tracker, &policy, b"POST /x HTTP/1.1\r\nContent-Length: 5\r\n\r\nHELLO");
    assert_eq!(action, Action::Forward);
    assert_idle(&tracker);
    let action = feed(&mut tracker, &policy, b"GET / HTTP/1.1\r\n\r\n");
    assert_eq!(action, Action::Drop(DropReason::PolicyDeny));
}

#[test]
fn next_request_after_body_is_parsed_afresh() {
    let policy = open_policy();
    let mut tracker = RequestTracker::new();
    assert_eq!(
        feed(&mut tracker, &policy, b"POST /x HTTP/1.1\r\nContent-Length: 5\r\n\r\nHELLO"),
        Action::Forward
    );
    assert_eq!(feed(&mut tracker, &policy, b"GET / HTTP/1.1\r\n\r\n"), Action::Forward);
    assert_idle(&tracker);
    assert_eq!(
        feed(&mut tracker, &policy, b"GET / HTTP/1.0\r\n\r\n"),
        Action::Drop(DropReason::UnsupportedVersion)
    );
}

#[test]
fn body_bytes_are_counted_down() {
    let policy = open_policy();
    let mut tracker = RequestTracker::new();
    let action = feed(&mut tracker, &policy, b"PUT /f HTTP/1.1\r\nContent-Length: 10\r\n\r\nabc");
    assert_eq!(action, Action::Forward);
    assert_eq!(tracker.phase(), Phase::ReadingBody);
    assert_eq!(tracker.body_remaining(), 7);
    assert_eq!(tracker.buffered(), 0);
    assert_eq!(feed(&mut tracker, &policy, b"defg"), Action::Forward);
    assert_eq!(tracker.phase(), Phase::ReadingBody);
    assert_eq!(tracker.body_remaining(), 3);
    assert_eq!(feed(&mut tracker, &policy, b"hij"), Action::Forward);
    assert_idle(&tracker);
}

#[test]
fn read_that_straddles_the_body_end_returns_to_head() {
    let policy = open_policy();
    let mut tracker = RequestTracker::new();
    assert_eq!(
        feed(&mut tracker, &policy, b"PUT /f HTTP/1.1\r\nContent-Length: 4\r\n\r\n"),
        Action::Forward
    );
    assert_eq!(tracker.body_remaining(), 4);
    assert_eq!(feed(&mut tracker, &policy, b"ab"), Action::Forward);
    assert_eq!(tracker.body_remaining(), 2);
    assert_eq!(feed(&mut tracker, &policy, b"cdGET / HTTP/1.0\r\n\r\n"), Action::Forward);
    assert_idle(&tracker);
}

#[test]
fn body_is_not_parsed() {
    let policy = open_policy();
    let mut tracker = RequestTracker::new();
    assert_eq!(
        feed(&mut tracker, &policy, b"PUT /f HTTP/1.1\r\nContent-Length: 40\r\n\r\n"),
        Action::Forward
    );
    assert_eq!(feed(&mut tracker, &policy, b"GET / HTTP/0.9\r\n\r\n"), Action::Forward);
    assert_eq!(tracker.phase(), Phase::ReadingBody);
    assert_eq!(tracker.body_remaining(), 22);
    assert_eq!(tracker.buffered(), 0);
}

#[test]
fn zero_content_length_has_no_body() {
    let policy = open_policy();
    let mut tracker = RequestTracker::new();
    assert_eq!(
        feed(&mut tracker, &policy, b"POST / HTTP/1.1\r\nContent-Length: 0\r\n\r\n"),
        Action::Forward
    );
    assert_idle(&tracker);
}

#[test]
fn content_length_must_be_a_number() {
    for value in ["abc", "-1", "", "1 2", "0x10", "5.0", "+", "18446744073709551616"] {
        let policy = open_policy();
        let mut tracker = RequestTracker::new();
        let head = format!("POST / HTTP/1.1\r\nContent-Length: {}\r\n\r\n", value);
        assert_eq!(
            feed(&mut tracker, &policy, head.as_bytes()),
            Action::Drop(DropReason::MalformedRequest)
        );
        assert_idle(&tracker);
    }
}

#[test]
fn content_length_may_be_signed_plus_and_large() {
    let policy = open_policy();
    let mut tracker = RequestTracker::new();
    assert_eq!(
        feed(&mut tracker, &policy, b"POST / HTTP/1.1\r\nContent-Length: +0012\r\n\r\n"),
        Action::Forward
    );
    assert_eq!(tracker.body_remaining(), 12);
    let mut tracker = RequestTracker::new();
    assert_eq!(
        feed(
            &mut tracker,
            &policy,
            b"POST / HTTP/1.1\r\nContent-Length: 18446744073709551615\r\n\r\nx"
        ),
        Action::Forward
    );
    assert_eq!(tracker.body_remaining(), u64::MAX - 1);
}

#[test]
fn other_spellings_of_content_length_are_not_read() {
    let policy = open_policy();
    let mut tracker = RequestTracker::new();
    assert_eq!(
        feed(&mut tracker, &policy, b"POST / HTTP/1.1\r\ncontent-length: 9\r\n\r\n"),
        Action::Forward
    );
    assert_idle(&tracker);
}

#[test]
fn malformed_head_drops_the_connection() {
    let policy = open_policy();
    let mut tracker = RequestTracker::new();
    assert_eq!(
        feed(&mut tracker, &policy, b"GET / HTTP/1.1\r\nHost x\r\n\r\n"),
        Action::Drop(DropReason::MalformedRequest)
    );
    let mut tracker = RequestTracker::new();
    assert_eq!(
        feed(&mut tracker, &policy, b"GET /\r\n\r\n"),
        Action::Drop(DropReason::MalformedRequest)
    );
    let mut tracker = RequestTracker::new();
    assert_eq!(
        feed(&mut tracker, &policy, &[0x47, 0xff, 0x0d, 0x0a, 0x0d, 0x0a]),
        Action::Drop(DropReason::MalformedRequest)
    );
}

#[test]
fn unsupported_version_drops_the_connection() {
    let policy = open_policy();
    let mut tracker = RequestTracker::new();
    assert_eq!(
        feed(&mut tracker, &policy, b"GET / HTTP/2\r\n\r\n"),
        Action::Drop(DropReason::UnsupportedVersion)
    );
}

#[test]
fn blank_head_is_let_through() {
    let policy = open_policy();
    let mut tracker = RequestTracker::new();
    assert_eq!(feed(&mut tracker, &policy, b"\r\n\r\n"), Action::Forward);
    assert_idle(&tracker);
}

#[test]
fn location_rule_deny_drops() {
    let policy = with_rule("GET", "/a", RuleGress::Deny, false);
    let mut tracker = RequestTracker::new();
    assert_eq!(
        feed(&mut tracker, &policy, b"GET /a HTTP/1.1\r\n\r\n"),
        Action::Drop(DropReason::PolicyDeny)
    );
    let mut tracker = RequestTracker::new();
    assert_eq!(feed(&mut tracker, &policy, b"POST /a HTTP/1.1\r\n\r\n"), Action::Forward);
}

#[test]
fn location_rule_that_defers_follows_the_default() {
    let mut policy = with_rule("GET", "/a", RuleGress::GenericRule, false);
    let mut tracker = RequestTracker::new();
    assert_eq!(feed(&mut tracker, &policy, b"GET /a HTTP/1.1\r\n\r\n"), Action::Forward);
    policy.general.ingress = GenericRuleGress::Deny;
    assert_eq!(
        feed(&mut tracker, &policy, b"GET /a HTTP/1.1\r\n\r\n"),
        Action::Drop(DropReason::PolicyDeny)
    );
}

#[test]
fn location_rule_allow_passes_under_default_deny() {
    let mut policy = with_rule("GET", "/a", RuleGress::Allow, false);
    policy.general.ingress = GenericRuleGress::Deny;
    let mut tracker = RequestTracker::new();
    assert_eq!(feed(&mut tracker, &policy, b"GET /a HTTP/1.1\r\n\r\n"), Action::Forward);
    assert_eq!(feed(&mut tracker, &policy, b"GET /b HTTP/1.1\r\n\r\n"), Action::Forward);
}

#[test]
fn policy_is_checked_before_the_content_length() {
    let policy = with_rule("POST", "/a", RuleGress::Deny, false);
    let mut tracker = RequestTracker::new();
    assert_eq!(
        feed(&mut tracker, &policy, b"POST /a HTTP/1.1\r\nContent-Length: x\r\n\r\n"),
        Action::Drop(DropReason::PolicyDeny)
    );
}

#[test]
fn bypass_flag_follows_the_rule_and_is_cleared_after_the_body() {
    let mut policy = with_rule("POST", "/upload", RuleGress::Allow, true);
    policy.rules.rules.push(LocationRule {
        method: "GET".to_string(),
        location: "/plain".to_string(),
        ingress: RuleGress::Allow,
        bypass: false,
    });
    let mut tracker = RequestTracker::new();
    assert_eq!(
        feed(&mut tracker, &policy, b"POST /upload HTTP/1.1\r\nContent-Length: 3\r\n\r\n"),
        Action::Forward
    );
    assert!(tracker.bypass());
    assert_eq!(tracker.phase(), Phase::ReadingBody);
    assert_eq!(feed(&mut tracker, &policy, b"ab"), Action::Forward);
    assert!(tracker.bypass());
    assert_eq!(feed(&mut tracker, &policy, b"c"), Action::Forward);
    assert!(!tracker.bypass());
    assert_idle(&tracker);
    assert_eq!(feed(&mut tracker, &policy, b"POST /upload HTTP/1.1\r\n\r\n"), Action::Forward);
    assert!(tracker.bypass());
    assert_eq!(feed(&mut tracker, &policy, b"GET /norule HTTP/1.1\r\n\r\n"), Action::Forward);
    assert!(tracker.bypass());
    assert_eq!(feed(&mut tracker, &policy, b"GET /plain HTTP/1.1\r\n\r\n"), Action::Forward);
    assert!(!tracker.bypass());
}

#[test]
fn oversized_head_drops_the_connection() {
    let policy = open_policy();
    let mut tracker = RequestTracker::new();
    let chunk = [b'a'; 1500];
    let mut sent = 0usize;
    let mut dropped = false;
    while sent < 130 * 1024 {
        let action = feed(&mut tracker, &policy, &chunk);
        sent += chunk.len();
        if sent <= HEADER_LIMIT {
            assert_eq!(action, Action::Forward);
            assert_eq!(tracker.buffered(), sent);
        } else {
            assert_eq!(action, Action::Drop(DropReason::HeaderTooLarge));
            dropped = true;
            break;
        }
    }
    assert!(dropped);
    assert_eq!(sent, 132000);
    assert_idle(&tracker);
}

#[test]
fn head_of_exactly_the_limit_is_held() {
    let policy = open_policy();
    let mut tracker = RequestTracker::new();
    let block = vec![b'x'; HEADER_LIMIT - 1];
    assert_eq!(feed(&mut tracker, &policy, &block), Action::Forward);
    assert_eq!(tracker.buffered(), HEADER_LIMIT - 1);
    assert_eq!(feed(&mut tracker, &policy, b"y"), Action::Forward);
    assert_eq!(tracker.buffered(), HEADER_LIMIT);
    assert_eq!(feed(&mut tracker, &policy, b""), Action::Forward);
    assert_eq!(feed(&mut tracker, &policy, b"z"), Action::Drop(DropReason::HeaderTooLarge));
    assert_idle(&tracker);
}

#[test]
fn size_is_checked_before_the_head_is_looked_for() {
    let policy = open_policy();
    let mut tracker = RequestTracker::new();
    let block = vec![b'x'; HEADER_LIMIT - 2];
    assert_eq!(feed(&mut tracker, &policy, &block), Action::Forward);
    assert_eq!(
        feed(&mut tracker, &policy, b"\r\n\r\n"),
        Action::Drop(DropReason::HeaderTooLarge)
    );
}

#[test]
fn body_may_be_longer_than_the_header_limit() {
    let policy = open_policy();
    let mut tracker = RequestTracker::new();
    assert_eq!(
        feed(&mut tracker, &policy, b"POST /big HTTP/1.1\r\nContent-Length: 300000\r\n\r\n"),
        Action::Forward
    );
    let chunk = vec![0u8; 100000];
    assert_eq!(feed(&mut tracker, &policy, &chunk), Action::Forward);
    assert_eq!(feed(&mut tracker, &policy, &chunk), Action::Forward);
    assert_eq!(tracker.body_remaining(), 100000);
    assert_eq!(tracker.buffered(), 0);
    assert_eq!(feed(&mut tracker, &policy, &chunk), Action::Forward);
    assert_idle(&tracker);
}

fn turn(tracker: &mut RequestTracker, policy: &Policy, event: Event) -> Step {
    tracker.on_event(event, &policy.ip_rule, &policy.rules, &policy.general)
}

#[test]
fn client_bytes_go_to_the_edge() {
    let policy = open_policy();
    let mut tracker = RequestTracker::new();
    let step = turn(&mut tracker, &policy, Event::ClientBytes(b"GET /health HTTP/1.1\r\nHost: x\r\n\r\n"));
    assert_eq!(step, Step::ToEdge);
    assert_idle(&tracker);
    let step = turn(&mut tracker, &policy, Event::ClientBytes(b"GET / HT"));
    assert_eq!(step, Step::ToEdge);
    assert_eq!(tracker.buffered(), 8);
}

#[test]
fn refused_request_is_forwarded_and_then_closed() {
    let policy = with_lists(&["/admin"], &[]);
    let mut tracker = RequestTracker::new();
    let step = turn(&mut tracker, &policy, Event::ClientBytes(b"GET /admin HTTP/1.1\r\n\r\n"));
    assert_eq!(step, Step::ToEdgeThenClose(DropReason::PolicyDeny));
}

#[test]
fn edge_bytes_go_to_the_client_unseen() {
    let policy = with_rule("GET", "/", RuleGress::Deny, false);
    let mut tracker = RequestTracker::new();
    assert_eq!(turn(&mut tracker, &policy, Event::ClientBytes(b"GET / HT")), Step::ToEdge);
    assert_eq!(turn(&mut tracker, &policy, Event::EdgeBytes), Step::ToClient);
    assert_eq!(tracker.buffered(), 8);
    assert_eq!(tracker.phase(), Phase::ReadingHead);
}

#[test]
fn closed_side_ends_the_connection() {
    let policy = open_policy();
    let mut tracker = RequestTracker::new();
    assert_eq!(turn(&mut tracker, &policy, Event::ClientClosed), Step::Close);
    assert_eq!(turn(&mut tracker, &policy, Event::EdgeClosed), Step::Close);
}

#[test]
fn failure_ends_the_connection_with_a_warning() {
    let policy = open_policy();
    let mut tracker = RequestTracker::new();
    assert_eq!(turn(&mut tracker, &policy, Event::ClientFailed), Step::CloseWithWarning);
    assert_eq!(turn(&mut tracker, &policy, Event::EdgeFailed), Step::CloseWithWarning);
    assert_eq!(turn(&mut tracker, &policy, Event::WriteFailed), Step::CloseWithWarning);
}
