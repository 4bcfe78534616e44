//! Discovery of the caller's public IP address.
//!
//! A fixed, ordered list of echo providers is consulted one at a time;
//! the first body that, after trimming, parses as an address wins, and
//! no later provider is consulted. When every provider fails, the run
//! ends with one recorded failure per provider, in provider order, so
//! that each broken provider can be identified.
//!
//! The caller owns the network: it asks `Discovery` which provider to
//! consult next, performs the request, and hands the observable
//! outcome back to `observe`.

use vstd::prelude::*;

use crate::addr::{parse_ip_bytes, spec_parse_ip, text_bytes, IpAddress};
use crate::api::{status_ok, Fetched};
use crate::text::{trim_ascii, trim_bytes};

verus! {

/// Why one provider yielded no address.
#[derive(Debug, Clone, PartialEq, Eq)]
pub enum ProviderFailure {
    /// The request never produced an HTTP reply.
    Transport(String),
    /// The reply carried a non-success HTTP status.
    Status(u16),
    /// The body was not decodable text.
    Decode(String),
    /// The body, trimmed, did not parse as an address; carries the body.
    Parse(String),
}

/// The address one provider outcome yields: a success status whose
/// body, trimmed of surrounding whitespace, parses as an address.
pub open spec fn outcome_addr(o: Fetched<String>) -> Option<IpAddress> {
    match o {
        Fetched::Reply(status, payload) => match payload {
            Ok(body) => {
                if status_ok(status) {
                    spec_parse_ip(trim_bytes(text_bytes(body@)))
                } else {
                    None
                }
            },
            Err(d) => None,
        },
        Fetched::Failed(m) => None,
    }
}

/// The failure one provider outcome records when it yields no address.
pub open spec fn failure_of(o: Fetched<String>) -> ProviderFailure {
    match o {
        Fetched::Failed(m) => ProviderFailure::Transport(m),
        Fetched::Reply(status, payload) => {
            if !status_ok(status) {
                ProviderFailure::Status(status)
            } else {
                match payload {
                    Err(d) => ProviderFailure::Decode(d),
                    Ok(body) => ProviderFailure::Parse(body),
                }
            }
        },
    }
}

/// The incremental state of one discovery run: how many providers of
/// the fixed ordered list have been consulted, and the failure each of
/// them produced. Callers should only read the fields.
#[derive(Debug)]
pub struct Discovery {
    /// The ordered provider list, fixed at creation.
    pub providers: Vec<String>,
    /// How many providers have been consulted so far.
    pub next: usize,
    /// One failure per consulted provider, in provider order.
    pub failures: Vec<ProviderFailure>,
}

impl Discovery {
    /// The machine's invariant: at most one recorded failure per
    /// consulted provider (a successful consultation records none),
    /// and never more consultations than providers.
    pub open spec fn wf(&self) -> bool {
        self.next <= self.providers@.len() && self.failures@.len() <= self.next
    }

    /// A fresh run over the given ordered provider list.
    pub fn new(providers: Vec<String>) -> (d: Discovery)
        ensures
            d.wf(),
            d.providers@ == providers@,
            d.next == 0,
            d.failures@ == Seq::<ProviderFailure>::empty(),
    {
        Discovery { providers, next: 0, failures: Vec::new() }
    }

    /// The provider to consult next, if any remain.
    pub fn next_provider(&self) -> (r: Option<&String>)
        ensures
            match r {
                Some(p) => self.next < self.providers@.len() && *p == self.providers@[self.next as int],
                None => self.next >= self.providers@.len(),
            },
    {
        if self.next < self.providers.len() {
            Some(&self.providers[self.next])
        } else {
            None
        }
    }

    /// Consumes one provider's outcome, in provider order: the parsed
    /// address on success, or else `None` with the provider's failure
    /// appended to the record.
    pub fn observe(&mut self, outcome: Fetched<String>) -> (r: Option<IpAddress>)
        requires
            old(self).wf(),
            old(self).next < old(self).providers@.len(),
        ensures
            final(self).wf(),
            final(self).providers == old(self).providers,
            final(self).next == old(self).next + 1,
            r == outcome_addr(outcome),
            r is Some ==> final(self).failures == old(self).failures,
            r is None ==> final(self).failures@ == old(self).failures@.push(failure_of(outcome)),
    {
        // The length call bounds `next` so the increment cannot overflow.
        let _bound = self.providers.len();
        self.next = self.next + 1;
        match outcome {
            Fetched::Failed(m) => {
                self.failures.push(ProviderFailure::Transport(m));
                None
            },
            Fetched::Reply(status, payload) => {
                if status < 200 || status >= 300 {
                    self.failures.push(ProviderFailure::Status(status));
                    None
                } else {
                    match payload {
                        Err(d) => {
                            self.failures.push(ProviderFailure::Decode(d));
                            None
                        },
                        Ok(body) => {
                            let trimmed = trim_ascii(body.as_str().as_bytes());
                            match parse_ip_bytes(trimmed.as_slice()) {
                                Some(a) => Some(a),
                                None => {
                                    self.failures.push(ProviderFailure::Parse(body));
                                    None
                                },
                            }
                        },
                    }
                }
            },
        }
    }
}

/// The result of a whole discovery run over the outcomes the providers
/// would give, in provider order: the first outcome that yields an
/// address wins; otherwise one failure per provider.
pub open spec fn spec_discover(outcomes: Seq<Fetched<String>>) -> Result<
    IpAddress,
    Seq<ProviderFailure>,
>
    decreases outcomes.len(),
{
    if outcomes.len() == 0 {
        Err(Seq::<ProviderFailure>::empty())
    } else {
        match outcome_addr(outcomes[0]) {
            Some(a) => Ok(a),
            None => match spec_discover(outcomes.skip(1)) {
                Ok(a) => Ok(a),
                Err(fs) => Err(seq![failure_of(outcomes[0])] + fs),
            },
        }
    }
}

/// When some outcome yields an address and `i` is the first such
/// position, discovery returns exactly that address, and the outcomes
/// after position `i` play no part: the run over the list truncated
/// right after the first success returns the same result, so no later
/// provider need ever be consulted.
pub proof fn lemma_discovery_first_success(outcomes: Seq<Fetched<String>>, i: int)
    requires
        0 <= i < outcomes.len(),
        outcome_addr(outcomes[i]) is Some,
        forall|j: int| 0 <= j < i ==> outcome_addr(#[trigger] outcomes[j]) is None,
    ensures
        spec_discover(outcomes) == Ok::<IpAddress, Seq<ProviderFailure>>(
            outcome_addr(outcomes[i]).unwrap(),
        ),
        spec_discover(outcomes.take(i + 1)) == spec_discover(outcomes),
    decreases i,
{
    let t = outcomes.take(i + 1);
    if i == 0 {
        assert(t.len() == 1);
        assert(t[0] == outcomes[0]);
    } else {
        assert(outcome_addr(outcomes[0]) is None);
        assert(outcomes.skip(1)[i - 1] == outcomes[i]);
        assert(forall|j: int|
            0 <= j < i - 1 ==> outcome_addr(#[trigger] outcomes.skip(1)[j]) is None);
        lemma_discovery_first_success(outcomes.skip(1), i - 1);
        assert(t[0] == outcomes[0]);
        assert(t.skip(1) =~= outcomes.skip(1).take(i));
    }
}

/// When no outcome yields an address, discovery fails with exactly one
/// failure per provider, in the original provider order.
pub proof fn lemma_discovery_all_fail(outcomes: Seq<Fetched<String>>)
    requires
        forall|j: int| 0 <= j < outcomes.len() ==> outcome_addr(#[trigger] outcomes[j]) is None,
    ensures
        spec_discover(outcomes) matches Err(fs) && fs.len() == outcomes.len() && (forall|j: int|
            0 <= j < outcomes.len() ==> fs[j] == failure_of(#[trigger] outcomes[j])),
    decreases outcomes.len(),
{
    if outcomes.len() > 0 {
        assert(forall|j: int|
            0 <= j < outcomes.skip(1).len() ==> outcome_addr(#[trigger] outcomes.skip(1)[j])
                is None);
        lemma_discovery_all_fail(outcomes.skip(1));
        assert(forall|j: int|
            1 <= j < outcomes.len() ==> outcomes.skip(1)[j - 1] == #[trigger] outcomes[j]);
    }
}

proof fn lemma_run_success(all: Seq<Fetched<String>>, k: int, a: IpAddress)
    requires
        0 <= k < all.len(),
        forall|j: int| 0 <= j < k ==> outcome_addr(#[trigger] all[j]) is None,
        outcome_addr(all[k]) == Some(a),
    ensures
        spec_discover(all) == Ok::<IpAddress, Seq<ProviderFailure>>(a),
{
    lemma_discovery_first_success(all, k);
}

proof fn lemma_run_failure(all: Seq<Fetched<String>>, fs: Seq<ProviderFailure>)
    requires
        fs.len() == all.len(),
        forall|j: int| 0 <= j < all.len() ==> outcome_addr(#[trigger] all[j]) is None,
        forall|j: int| 0 <= j < all.len() ==> fs[j] == failure_of(#[trigger] all[j]),
    ensures
        spec_discover(all) == Err::<IpAddress, Seq<ProviderFailure>>(fs),
{
    lemma_discovery_all_fail(all);
    let gs = spec_discover(all)->Err_0;
    assert forall|j: int| 0 <= j < all.len() implies fs[j] == gs[j] by {
        assert(outcome_addr(all[j]) is None);
        assert(gs[j] == failure_of(all[j]));
    }
    assert(fs =~= gs);
}

/// Consults pre-gathered outcomes in provider order through a fresh
/// machine, stopping at the first success, exactly as the network loop
/// does.
#[verifier::rlimit(100)]
pub fn discover_from(providers: Vec<String>, outcomes: Vec<Fetched<String>>) -> (r: Result<
    IpAddress,
    Vec<ProviderFailure>,
>)
    requires
        providers@.len() == outcomes@.len(),
    ensures
        match r {
            Ok(a) => spec_discover(outcomes@) == Ok::<IpAddress, Seq<ProviderFailure>>(a),
            Err(fs) => spec_discover(outcomes@) == Err::<IpAddress, Seq<ProviderFailure>>(fs@),
        },
{
    let ghost all = outcomes@;
    let mut d = Discovery::new(providers);
    let mut rest = outcomes;
    while rest.len() > 0
        invariant
            d.wf(),
            all == outcomes@,
            d.providers@.len() == all.len(),
            d.next + rest@.len() == all.len(),
            rest@ == all.skip(d.next as int),
            d.failures@.len() == d.next,
            forall|j: int| 0 <= j < d.next ==> outcome_addr(#[trigger] all[j]) is None,
            forall|j: int| 0 <= j < d.next ==> d.failures@[j] == failure_of(#[trigger] all[j]),
        decreases rest@.len(),
    {
        let ghost k = d.next as int;
        let o = rest.remove(0);
        proof {
            assert(o == all[k]);
        }
        match d.observe(o) {
            Some(a) => {
                proof {
                    lemma_run_success(all, k, a);
                }
                return Ok(a);
            },
            None => {},
        }
        proof {
            assert(rest@ =~= all.skip(k + 1));
        }
    }
    proof {
        assert(d.next == all.len());
        lemma_run_failure(all, d.failures@);
    }
    Err(d.failures)
}

} // verus!
