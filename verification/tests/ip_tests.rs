use marco::addr::IpAddress;
use marco::api::Fetched;
use marco::ip::{discover_from, Discovery, ProviderFailure};

fn providers() -> Vec<String> {
    vec![
        String::from("https://ip.first.example"),
        String::from("https://ip.second.example"),
        String::from("https://ip.third.example"),
    ]
}

fn body(text: &str) -> Fetched<String> {
    Fetched::Reply(200, Ok(String::from(text)))
}

#[test]
fn first_good_answer_wins() {
    let outcomes = vec![body("1.1.1.1"), body("2.2.2.2"), body("3.3.3.3")];
    let r = discover_from(providers(), outcomes);
    assert_eq!(r, Ok(IpAddress::V4(1, 1, 1, 1)));
}

#[test]
fn failures_are_masked_until_one_provider_answers() {
    let outcomes = vec![
        Fetched::Failed(String::from("connection refused")),
        Fetched::Reply(503, Ok(String::from("busy"))),
        body(" 9.9.9.9\n"),
    ];
    let r = discover_from(providers(), outcomes);
    assert_eq!(r, Ok(IpAddress::V4(9, 9, 9, 9)));
}

#[test]
fn all_failures_are_enumerated_in_order() {
    let outcomes = vec![
        Fetched::Failed(String::from("connection refused")),
        Fetched::Reply(200, Err(String::from("undecodable body"))),
        body("not-an-ip"),
    ];
    let r = discover_from(providers(), outcomes);
    let failures = match r {
        Err(fs) => fs,
        Ok(_) => panic!("every provider failed"),
    };
    assert_eq!(failures.len(), 3);
    assert_eq!(failures[0], ProviderFailure::Transport(String::from("connection refused")));
    assert_eq!(failures[1], ProviderFailure::Decode(String::from("undecodable body")));
    assert_eq!(failures[2], ProviderFailure::Parse(String::from("not-an-ip")));
}

#[test]
fn an_error_status_is_recorded_as_such() {
    let outcomes = vec![
        Fetched::Reply(503, Ok(String::from("busy"))),
        Fetched::Reply(199, Ok(String::from("1.2.3.4"))),
        Fetched::Reply(300, Ok(String::from("1.2.3.4"))),
    ];
    let r = discover_from(providers(), outcomes);
    let failures = match r {
        Err(fs) => fs,
        Ok(_) => panic!("every provider failed"),
    };
    assert_eq!(failures[0], ProviderFailure::Status(503));
    assert_eq!(failures[1], ProviderFailure::Status(199));
    assert_eq!(failures[2], ProviderFailure::Status(300));
}

#[test]
fn undecodable_body_of_a_success_reply_is_a_decode_failure() {
    let outcomes = vec![
        Fetched::Reply(200, Err(String::from("invalid byte sequence"))),
        body("8.8.4.4"),
        body("8.8.8.8"),
    ];
    let r = discover_from(providers(), outcomes);
    assert_eq!(r, Ok(IpAddress::V4(8, 8, 4, 4)));
}

#[test]
fn error_status_is_not_parsed_as_a_body() {
    let outcomes = vec![
        Fetched::Reply(301, Ok(String::from("4.4.4.4"))),
        body("5.5.5.5"),
        body("6.6.6.6"),
    ];
    let r = discover_from(providers(), outcomes);
    assert_eq!(r, Ok(IpAddress::V4(5, 5, 5, 5)));
}

#[test]
fn machine_stops_offering_providers_when_exhausted() {
    let mut d = Discovery::new(vec![
        String::from("https://ip.first.example"),
        String::from("https://ip.second.example"),
    ]);
    assert_eq!(d.next_provider().cloned(), Some(String::from("https://ip.first.example")));
    assert_eq!(d.observe(Fetched::Failed(String::from("down"))), None);
    assert_eq!(d.next_provider().cloned(), Some(String::from("https://ip.second.example")));
    assert_eq!(d.observe(body("7.7.7.7")), Some(IpAddress::V4(7, 7, 7, 7)));
    assert_eq!(d.next_provider(), None);
    assert_eq!(d.failures, vec![ProviderFailure::Transport(String::from("down"))]);
}

#[test]
fn machine_accepts_v6_bodies() {
    let mut d = Discovery::new(providers());
    let got = d.observe(body("2001:db8::1\n"));
    assert_eq!(got, Some(IpAddress::V6(0x2001, 0xdb8, 0, 0, 0, 0, 0, 1)));
}
