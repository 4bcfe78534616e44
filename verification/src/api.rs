//! The DNS provider client's decision logic.
//!
//! Each operation of the provider API is verified as a pure step from
//! the observable outcome of one HTTP exchange — handed in by the
//! caller as plain values — to the operation's result. The shared
//! response policy is: a transport failure or an HTTP error status
//! fails first, then a body that did not decode, then a reply whose
//! envelope carries a false success flag; only then is the payload
//! examined. Name lookups must match exactly one entry: zero matches
//! and several matches are distinct failures, never resolved by
//! picking an arbitrary entry.

use vstd::prelude::*;

use crate::addr::{spec_parse_ip, parse_ip, text_bytes, IpAddress};

verus! {

/// An opaque provider-assigned identifier for a DNS zone.
#[derive(Debug, Clone, PartialEq, Eq)]
pub struct ZoneID(pub String);

/// An opaque provider-assigned identifier for a DNS record.
#[derive(Debug, Clone, PartialEq, Eq)]
pub struct RecordID(pub String);

/// One entry of the zone list endpoint.
#[derive(Debug, Clone, PartialEq, Eq)]
pub struct Zone {
    pub id: ZoneID,
    pub name: String,
}

/// The wrapper around every reply: the provider's own success flag and
/// its diagnostic payloads, rendered to text by the caller.
#[derive(Debug, Clone, PartialEq, Eq)]
pub struct Envelope {
    pub success: bool,
    pub errors: String,
    pub messages: String,
}

/// An envelope together with the payload it wraps.
#[derive(Debug, Clone, PartialEq, Eq)]
pub struct Enveloped<T> {
    pub envelope: Envelope,
    pub result: T,
}

/// One DNS record as the wire carries it, the content still text.
#[derive(Debug, Clone, PartialEq, Eq)]
pub struct WireRecord {
    pub id: RecordID,
    pub rtype: String,
    pub name: String,
    pub content: String,
    pub ttl: u32,
    pub proxied: bool,
}

/// One DNS record whose content has been validated as an address.
#[derive(Debug, Clone, PartialEq, Eq)]
pub struct Record {
    pub id: RecordID,
    pub rtype: String,
    pub name: String,
    pub content: IpAddress,
    pub ttl: u32,
    pub proxied: bool,
}

/// The observable outcome of one HTTP exchange, as the transport hands
/// it back.
#[derive(Debug, PartialEq, Eq)]
pub enum Fetched<T> {
    /// No HTTP reply arrived; carries the transport's description.
    Failed(String),
    /// A reply arrived: its status code, and the decoded body or a
    /// description of why the body did not decode.
    Reply(u16, Result<T, String>),
}

/// Everything that can go wrong in one provider operation.
#[derive(Debug, Clone, PartialEq, Eq)]
pub enum ApiError {
    /// The transport failed before any HTTP reply arrived.
    Transport(String),
    /// The reply carried a non-success HTTP status.
    Status(u16),
    /// The body could not be decoded into the expected shape.
    Decode(String),
    /// The provider's own success flag was false; carries the
    /// provider's error and message payloads.
    Envelope { errors: String, messages: String },
    /// A name lookup matched no entry.
    NoMatch,
    /// A name lookup matched this many entries, more than one.
    Ambiguous(usize),
    /// A record's content field is not a valid address; carries the
    /// offending content.
    BadContent(String),
}

/// A success HTTP status.
pub open spec fn status_ok(status: u16) -> bool {
    200 <= status < 300
}

/// Applies the shared transport policy: a transport failure or an HTTP
/// error status fails first, then a body that did not decode; only a
/// decoded body of a success reply is handed on.
pub fn evaluate<T>(fetched: Fetched<T>) -> (r: Result<T, ApiError>)
    ensures
        ({
            match fetched {
                Fetched::Failed(m) => r == Err::<T, ApiError>(ApiError::Transport(m)),
                Fetched::Reply(status, payload) => {
                    if !status_ok(status) {
                        r == Err::<T, ApiError>(ApiError::Status(status))
                    } else {
                        match payload {
                            Err(d) => r == Err::<T, ApiError>(ApiError::Decode(d)),
                            Ok(t) => r == Ok::<T, ApiError>(t),
                        }
                    }
                },
            }
        }),
{
    match fetched {
        Fetched::Failed(m) => Err(ApiError::Transport(m)),
        Fetched::Reply(status, payload) => {
            if status < 200 || status >= 300 {
                Err(ApiError::Status(status))
            } else {
                match payload {
                    Err(d) => Err(ApiError::Decode(d)),
                    Ok(t) => Ok(t),
                }
            }
        },
    }
}

/// Unwraps an envelope: a false success flag fails the call with the
/// provider's own diagnostics, even though the transport succeeded.
pub fn open_envelope<T>(reply: Enveloped<T>) -> (r: Result<T, ApiError>)
    ensures
        reply.envelope.success ==> r == Ok::<T, ApiError>(reply.result),
        !reply.envelope.success ==> r == Err::<T, ApiError>(
            ApiError::Envelope {
                errors: reply.envelope.errors,
                messages: reply.envelope.messages,
            },
        ),
{
    let Enveloped { envelope, result } = reply;
    if envelope.success {
        Ok(result)
    } else {
        Err(ApiError::Envelope { errors: envelope.errors, messages: envelope.messages })
    }
}

/// The zones whose name equals the query exactly.
pub open spec fn matching_zones(zs: Seq<Zone>, name: Seq<char>) -> Seq<Zone> {
    zs.filter(|z: Zone| z.name@ == name)
}

/// The records whose name equals the query exactly.
pub open spec fn matching_records(rs: Seq<WireRecord>, name: Seq<char>) -> Seq<WireRecord> {
    rs.filter(|w: WireRecord| w.name@ == name)
}

/// What `get_zone_id` owes once transport, decoding and envelope have
/// all succeeded: the identifier of the single matching zone, or the
/// exact failure for zero or several matches.
pub open spec fn zone_resolution(zs: Seq<Zone>, name: Seq<char>) -> Result<ZoneID, ApiError> {
    let ms = matching_zones(zs, name);
    if ms.len() == 1 {
        Ok(ms[0].id)
    } else if ms.len() == 0 {
        Err(ApiError::NoMatch)
    } else {
        Err(ApiError::Ambiguous(ms.len() as usize))
    }
}

/// Resolves a zone name to its identifier from the outcome of the zone
/// list request. Exactly one zone of that name must exist; zero or
/// several matches fail and never pick an entry silently.
#[verifier::loop_isolation(false)]
pub fn get_zone_id(fetched: Fetched<Enveloped<Vec<Zone>>>, zone_name: &String) -> (r: Result<
    ZoneID,
    ApiError,
>)
    ensures
        ({
            match fetched {
                Fetched::Failed(m) => r == Err::<ZoneID, ApiError>(ApiError::Transport(m)),
                Fetched::Reply(status, payload) => {
                    if !status_ok(status) {
                        r == Err::<ZoneID, ApiError>(ApiError::Status(status))
                    } else {
                        match payload {
                            Err(d) => r == Err::<ZoneID, ApiError>(ApiError::Decode(d)),
                            Ok(env) => {
                                if !env.envelope.success {
                                    r == Err::<ZoneID, ApiError>(
                                        ApiError::Envelope {
                                            errors: env.envelope.errors,
                                            messages: env.envelope.messages,
                                        },
                                    )
                                } else {
                                    r == zone_resolution(env.result@, zone_name@)
                                }
                            },
                        }
                    }
                },
            }
        }),
{
    let env = match evaluate(fetched) {
        Ok(e) => e,
        Err(e) => {
            return Err(e);
        },
    };
    let zones = match open_envelope(env) {
        Ok(z) => z,
        Err(e) => {
            return Err(e);
        },
    };
    let ghost pred = |z: Zone| z.name@ == zone_name@;
    let mut count: usize = 0;
    let mut found_at: usize = 0;
    let mut i: usize = 0;
    while i < zones.len()
        invariant
            0 <= i <= zones@.len(),
            count == zones@.take(i as int).filter(pred).len(),
            count >= 1 ==> found_at < i && zones@[found_at as int] == zones@.take(
                i as int,
            ).filter(pred)[0],
        decreases zones@.len() - i,
    {
        proof {
            assert(zones@.take(i + 1).drop_last() =~= zones@.take(i as int));
            zones@.take(i as int).lemma_filter_push(zones@[i as int], pred);
            assert(zones@.take(i + 1) =~= zones@.take(i as int).push(zones@[i as int]));
        }
        if zones[i].name == *zone_name {
            if count == 0 {
                found_at = i;
            }
            count = count + 1;
        }
        i = i + 1;
    }
    proof {
        assert(zones@.take(zones@.len() as int) =~= zones@);
    }
    if count == 1 {
        let id = ZoneID(zones[found_at].id.0.clone());
        proof {
            assert(id == matching_zones(zones@, zone_name@)[0].id);
        }
        Ok(id)
    } else if count == 0 {
        Err(ApiError::NoMatch)
    } else {
        Err(ApiError::Ambiguous(count))
    }
}

/// The validated form of a wire record with the given address as its
/// content; every other field is carried over unchanged.
pub open spec fn validated(w: WireRecord, a: IpAddress) -> Record {
    Record {
        id: w.id,
        rtype: w.rtype,
        name: w.name,
        content: a,
        ttl: w.ttl,
        proxied: w.proxied,
    }
}

/// What `get_dns_record` owes once transport, decoding and envelope
/// have all succeeded: the single matching record with its content
/// parsed, a distinct failure when the content is not an address, and
/// the exact failure for zero or several matches.
pub open spec fn record_resolution(rs: Seq<WireRecord>, name: Seq<char>) -> Result<
    Record,
    ApiError,
> {
    let ms = matching_records(rs, name);
    if ms.len() == 1 {
        match spec_parse_ip(text_bytes(ms[0].content@)) {
            Some(a) => Ok(validated(ms[0], a)),
            None => Err(ApiError::BadContent(ms[0].content)),
        }
    } else if ms.len() == 0 {
        Err(ApiError::NoMatch)
    } else {
        Err(ApiError::Ambiguous(ms.len() as usize))
    }
}

/// Resolves a record name within a zone from the outcome of the record
/// list request. Exactly one record of that name must exist, and its
/// content must parse as an address; a content that does not parse is
/// a validation failure distinct from the match-count failures.
#[verifier::loop_isolation(false)]
pub fn get_dns_record(fetched: Fetched<Enveloped<Vec<WireRecord>>>, record_name: &String) -> (r:
    Result<Record, ApiError>)
    ensures
        ({
            match fetched {
                Fetched::Failed(m) => r == Err::<Record, ApiError>(ApiError::Transport(m)),
                Fetched::Reply(status, payload) => {
                    if !status_ok(status) {
                        r == Err::<Record, ApiError>(ApiError::Status(status))
                    } else {
                        match payload {
                            Err(d) => r == Err::<Record, ApiError>(ApiError::Decode(d)),
                            Ok(env) => {
                                if !env.envelope.success {
                                    r == Err::<Record, ApiError>(
                                        ApiError::Envelope {
                                            errors: env.envelope.errors,
                                            messages: env.envelope.messages,
                                        },
                                    )
                                } else {
                                    r == record_resolution(env.result@, record_name@)
                                }
                            },
                        }
                    }
                },
            }
        }),
{
    let env = match evaluate(fetched) {
        Ok(e) => e,
        Err(e) => {
            return Err(e);
        },
    };
    let records = match open_envelope(env) {
        Ok(z) => z,
        Err(e) => {
            return Err(e);
        },
    };
    let ghost pred = |w: WireRecord| w.name@ == record_name@;
    let mut count: usize = 0;
    let mut found_at: usize = 0;
    let mut i: usize = 0;
    while i < records.len()
        invariant
            0 <= i <= records@.len(),
            count == records@.take(i as int).filter(pred).len(),
            count >= 1 ==> found_at < i && records@[found_at as int] == records@.take(
                i as int,
            ).filter(pred)[0],
        decreases records@.len() - i,
    {
        proof {
            assert(records@.take(i + 1).drop_last() =~= records@.take(i as int));
            records@.take(i as int).lemma_filter_push(records@[i as int], pred);
            assert(records@.take(i + 1) =~= records@.take(i as int).push(records@[i as int]));
        }
        if records[i].name == *record_name {
            if count == 0 {
                found_at = i;
            }
            count = count + 1;
        }
        i = i + 1;
    }
    proof {
        assert(records@.take(records@.len() as int) =~= records@);
    }
    if count == 1 {
        let w = &records[found_at];
        proof {
            assert(*w == matching_records(records@, record_name@)[0]);
        }
        match parse_ip(w.content.as_str()) {
            Some(a) => Ok(
                Record {
                    id: RecordID(w.id.0.clone()),
                    rtype: w.rtype.clone(),
                    name: w.name.clone(),
                    content: a,
                    ttl: w.ttl,
                    proxied: w.proxied,
                },
            ),
            None => Err(ApiError::BadContent(w.content.clone())),
        }
    } else if count == 0 {
        Err(ApiError::NoMatch)
    } else {
        Err(ApiError::Ambiguous(count))
    }
}

/// Validates the reply to a record update. The update sends the whole
/// record and returns no payload of interest: success is HTTP success
/// plus a true envelope flag, under the same precedence as the reads.
pub fn check_put_reply(fetched: Fetched<Envelope>) -> (r: Result<(), ApiError>)
    ensures
        ({
            match fetched {
                Fetched::Failed(m) => r == Err::<(), ApiError>(ApiError::Transport(m)),
                Fetched::Reply(status, payload) => {
                    if !status_ok(status) {
                        r == Err::<(), ApiError>(ApiError::Status(status))
                    } else {
                        match payload {
                            Err(d) => r == Err::<(), ApiError>(ApiError::Decode(d)),
                            Ok(envelope) => {
                                if !envelope.success {
                                    r == Err::<(), ApiError>(
                                        ApiError::Envelope {
                                            errors: envelope.errors,
                                            messages: envelope.messages,
                                        },
                                    )
                                } else {
                                    r == Ok::<(), ApiError>(())
                                }
                            },
                        }
                    }
                },
            }
        }),
{
    let envelope = match evaluate(fetched) {
        Ok(e) => e,
        Err(e) => {
            return Err(e);
        },
    };
    if envelope.success {
        Ok(())
    } else {
        Err(ApiError::Envelope { errors: envelope.errors, messages: envelope.messages })
    }
}

/// A copy of a record with only the content replaced.
pub open spec fn with_address(rec: Record, a: IpAddress) -> Record {
    Record {
        id: rec.id,
        rtype: rec.rtype,
        name: rec.name,
        content: a,
        ttl: rec.ttl,
        proxied: rec.proxied,
    }
}

impl Record {
    /// The record's current address.
    pub fn ip(&self) -> (r: IpAddress)
        ensures
            r == self.content,
    {
        self.content
    }

    /// The record's identifier.
    pub fn id(&self) -> (r: &RecordID)
        ensures
            *r == self.id,
    {
        &self.id
    }

    /// Replaces the record's address; every other field is kept.
    pub fn set_ip(&mut self, a: IpAddress)
        ensures
            *final(self) == with_address(*old(self), a),
    {
        self.content = a;
    }
}

/// Decides the conditional update. A record that already carries the
/// discovered address needs no call at all; otherwise exactly one
/// update is due, carrying the original record unchanged except for
/// the address.
pub fn plan_update(current: &Record, discovered: IpAddress) -> (r: Option<Record>)
    ensures
        current.content == discovered ==> r is None,
        current.content != discovered ==> r == Some(with_address(*current, discovered)),
{
    if current.ip() == discovered {
        None
    } else {
        Some(
            Record {
                id: RecordID(current.id.0.clone()),
                rtype: current.rtype.clone(),
                name: current.name.clone(),
                content: discovered,
                ttl: current.ttl,
                proxied: current.proxied,
            },
        )
    }
}

} // verus!
