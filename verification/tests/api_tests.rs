use marco::addr::IpAddress;
use marco::api::{
    check_put_reply, get_dns_record, get_zone_id, plan_update, ApiError, Enveloped, Envelope,
    Fetched, Record, RecordID, WireRecord, Zone, ZoneID,
};

fn ok_envelope() -> Envelope {
    Envelope { success: true, errors: String::from("[]"), messages: String::from("[]") }
}

fn failed_envelope() -> Envelope {
    Envelope {
        success: false,
        errors: String::from("[{\"code\":9109}]"),
        messages: String::from("[]"),
    }
}

fn zone(id: &str, name: &str) -> Zone {
    Zone { id: ZoneID(String::from(id)), name: String::from(name) }
}

fn wire_record(id: &str, name: &str, content: &str) -> WireRecord {
    WireRecord {
        id: RecordID(String::from(id)),
        rtype: String::from("A"),
        name: String::from(name),
        content: String::from(content),
        ttl: 300,
        proxied: false,
    }
}

fn zones_reply(zones: Vec<Zone>) -> Fetched<Enveloped<Vec<Zone>>> {
    Fetched::Reply(200, Ok(Enveloped { envelope: ok_envelope(), result: zones }))
}

fn records_reply(records: Vec<WireRecord>) -> Fetched<Enveloped<Vec<WireRecord>>> {
    Fetched::Reply(200, Ok(Enveloped { envelope: ok_envelope(), result: records }))
}

#[test]
fn zone_single_match_resolves() {
    let fetched = zones_reply(vec![zone("z1", "other.org"), zone("z123", "example.com")]);
    let r = get_zone_id(fetched, &String::from("example.com"));
    assert_eq!(r, Ok(ZoneID(String::from("z123"))));
}

#[test]
fn zone_no_match_is_an_error() {
    let fetched = zones_reply(vec![zone("z1", "other.org")]);
    let r = get_zone_id(fetched, &String::from("example.com"));
    assert_eq!(r, Err(ApiError::NoMatch));
}

#[test]
fn zone_empty_list_is_an_error() {
    let fetched = zones_reply(Vec::new());
    let r = get_zone_id(fetched, &String::from("example.com"));
    assert_eq!(r, Err(ApiError::NoMatch));
}

#[test]
fn zone_two_matches_never_pick_one() {
    let fetched = zones_reply(vec![
        zone("z1", "example.com"),
        zone("z2", "example.com"),
        zone("z3", "other.org"),
    ]);
    let r = get_zone_id(fetched, &String::from("example.com"));
    assert_eq!(r, Err(ApiError::Ambiguous(2)));
}

#[test]
fn zone_transport_failure_is_reported() {
    let fetched: Fetched<Enveloped<Vec<Zone>>> = Fetched::Failed(String::from("connect timed out"));
    let r = get_zone_id(fetched, &String::from("example.com"));
    assert_eq!(r, Err(ApiError::Transport(String::from("connect timed out"))));
}

#[test]
fn zone_http_error_takes_precedence_over_body() {
    let fetched = Fetched::Reply(
        403,
        Ok(Enveloped { envelope: failed_envelope(), result: vec![zone("z123", "example.com")] }),
    );
    let r = get_zone_id(fetched, &String::from("example.com"));
    assert_eq!(r, Err(ApiError::Status(403)));
}

#[test]
fn zone_undecodable_body_is_an_error() {
    let fetched: Fetched<Enveloped<Vec<Zone>>> =
        Fetched::Reply(200, Err(String::from("expected a JSON object")));
    let r = get_zone_id(fetched, &String::from("example.com"));
    assert_eq!(r, Err(ApiError::Decode(String::from("expected a JSON object"))));
}

#[test]
fn false_envelope_fails_even_with_status_200() {
    let fetched = Fetched::Reply(
        200,
        Ok(Enveloped { envelope: failed_envelope(), result: vec![zone("z123", "example.com")] }),
    );
    let r = get_zone_id(fetched, &String::from("example.com"));
    assert_eq!(
        r,
        Err(ApiError::Envelope {
            errors: String::from("[{\"code\":9109}]"),
            messages: String::from("[]"),
        })
    );
}

#[test]
fn record_single_match_parses_content() {
    let fetched = records_reply(vec![
        wire_record("r1", "other.example.com", "5.6.7.8"),
        wire_record("r42", "home.example.com", "1.2.3.4"),
    ]);
    let r = get_dns_record(fetched, &String::from("home.example.com"));
    assert_eq!(
        r,
        Ok(Record {
            id: RecordID(String::from("r42")),
            rtype: String::from("A"),
            name: String::from("home.example.com"),
            content: IpAddress::V4(1, 2, 3, 4),
            ttl: 300,
            proxied: false,
        })
    );
}

#[test]
fn record_bad_content_is_a_distinct_error() {
    let fetched = records_reply(vec![wire_record("r42", "home.example.com", "not-an-ip")]);
    let r = get_dns_record(fetched, &String::from("home.example.com"));
    assert_eq!(r, Err(ApiError::BadContent(String::from("not-an-ip"))));
}

#[test]
fn record_no_match_and_many_matches_fail() {
    let none = records_reply(vec![wire_record("r1", "other.example.com", "5.6.7.8")]);
    assert_eq!(get_dns_record(none, &String::from("home.example.com")), Err(ApiError::NoMatch));

    let many = records_reply(vec![
        wire_record("r1", "home.example.com", "5.6.7.8"),
        wire_record("r2", "home.example.com", "5.6.7.9"),
    ]);
    assert_eq!(
        get_dns_record(many, &String::from("home.example.com")),
        Err(ApiError::Ambiguous(2))
    );
}

#[test]
fn record_false_envelope_fails_with_status_200() {
    let fetched = Fetched::Reply(
        200,
        Ok(Enveloped {
            envelope: failed_envelope(),
            result: vec![wire_record("r42", "home.example.com", "1.2.3.4")],
        }),
    );
    let r = get_dns_record(fetched, &String::from("home.example.com"));
    assert!(matches!(r, Err(ApiError::Envelope { .. })));
}

#[test]
fn put_reply_validation() {
    assert_eq!(check_put_reply(Fetched::Reply(200, Ok(ok_envelope()))), Ok(()));
    assert_eq!(
        check_put_reply(Fetched::Reply(500, Ok(ok_envelope()))),
        Err(ApiError::Status(500))
    );
    assert!(matches!(
        check_put_reply(Fetched::Reply(200, Ok(failed_envelope()))),
        Err(ApiError::Envelope { .. })
    ));
    assert_eq!(
        check_put_reply(Fetched::Failed(String::from("no route"))),
        Err(ApiError::Transport(String::from("no route")))
    );
}

#[test]
fn matching_address_needs_no_update() {
    let current = Record {
        id: RecordID(String::from("r42")),
        rtype: String::from("A"),
        name: String::from("home.example.com"),
        content: IpAddress::V4(1, 2, 3, 4),
        ttl: 300,
        proxied: false,
    };
    assert_eq!(plan_update(&current, IpAddress::V4(1, 2, 3, 4)), None);
}

#[test]
fn changed_address_updates_only_the_content() {
    let current = Record {
        id: RecordID(String::from("r42")),
        rtype: String::from("A"),
        name: String::from("home.example.com"),
        content: IpAddress::V4(1, 2, 3, 4),
        ttl: 300,
        proxied: true,
    };
    let planned = plan_update(&current, IpAddress::V4(1, 2, 3, 5)).expect("an update is due");
    assert_eq!(planned.id, RecordID(String::from("r42")));
    assert_eq!(planned.rtype, String::from("A"));
    assert_eq!(planned.name, String::from("home.example.com"));
    assert_eq!(planned.content, IpAddress::V4(1, 2, 3, 5));
    assert_eq!(planned.ttl, 300);
    assert!(planned.proxied);
}

#[test]
fn whole_run_for_one_stale_record() {
    let zone_id = get_zone_id(
        zones_reply(vec![zone("z123", "example.com")]),
        &String::from("example.com"),
    )
    .expect("the zone resolves");
    assert_eq!(zone_id, ZoneID(String::from("z123")));

    let record = get_dns_record(
        records_reply(vec![wire_record("r42", "home.example.com", "1.2.3.4")]),
        &String::from("home.example.com"),
    )
    .expect("the record resolves");
    assert_eq!(record.ip(), IpAddress::V4(1, 2, 3, 4));

    let discovered = IpAddress::V4(1, 2, 3, 5);
    let planned = plan_update(&record, discovered).expect("one update is due");
    assert_eq!(planned.content.to_text(), "1.2.3.5");
    assert_eq!(planned.id, record.id);
    assert_eq!(planned.rtype, record.rtype);
    assert_eq!(planned.name, record.name);
    assert_eq!(planned.ttl, record.ttl);
    assert_eq!(planned.proxied, record.proxied);

    assert_eq!(check_put_reply(Fetched::Reply(200, Ok(ok_envelope()))), Ok(()));
}
