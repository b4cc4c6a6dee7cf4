//! The sweep protocol: probe every usable host of a subnet in ascending
//! order, and for each host that responds, look up its link-layer address
//! and record it.
//!
//! Probing and resolution are I/O, so the sweep is a state machine: the
//! caller asks for the next action, performs it outside this crate, and
//! hands the outcome back.  The results vector only ever grows, one entry
//! per responding host, in probe order; hosts that do not respond leave
//! no entry, and a failed resolution records an absent link address.

use vstd::prelude::*;
use crate::hosts::{host_at, host_count, host_count_spec};
use crate::subnet::Subnet;

verus! {

/// One host that answered the liveness probe.  `link_address` is absent
/// when resolution found no mapping.
pub struct DiscoveredHost {
    pub address: u32,
    pub link_address: Option<String>,
}

/// What the driver of a sweep must do next.
pub enum SweepAction {
    /// Send one liveness probe to this address and report the outcome.
    Probe(u32),
    /// Look up the link-layer address of this responding host and report
    /// what was found.
    Resolve(u32),
    /// Every usable host has been handled; the results are complete.
    Done,
}

/// The indices at which `outcomes` holds `true`, in ascending order.
pub open spec fn true_indices(outcomes: Seq<bool>) -> Seq<int>
    decreases outcomes.len(),
{
    if outcomes.len() == 0 {
        Seq::empty()
    } else {
        let rest = true_indices(outcomes.drop_last());
        if outcomes.last() {
            rest.push(outcomes.len() - 1)
        } else {
            rest
        }
    }
}

pub proof fn lemma_true_indices_in_range(outcomes: Seq<bool>)
    ensures
        forall|k: int|
            0 <= k < true_indices(outcomes).len() ==> 0 <= #[trigger] true_indices(
                outcomes,
            )[k] < outcomes.len(),
    decreases outcomes.len(),
{
    if outcomes.len() > 0 {
        lemma_true_indices_in_range(outcomes.drop_last());
        let rest = true_indices(outcomes.drop_last());
        assert forall|k: int| 0 <= k < true_indices(outcomes).len() implies 0
            <= #[trigger] true_indices(outcomes)[k] < outcomes.len() by {
            if k < rest.len() {
                assert(true_indices(outcomes)[k] == rest[k]);
            }
        }
    }
}

/// The recorded indices ascend strictly, so the recorded addresses do too.
pub proof fn lemma_true_indices_ascending(outcomes: Seq<bool>)
    ensures
        forall|k1: int, k2: int|
            0 <= k1 < k2 < true_indices(outcomes).len() ==> #[trigger] true_indices(
                outcomes,
            )[k1] < #[trigger] true_indices(outcomes)[k2],
    decreases outcomes.len(),
{
    if outcomes.len() > 0 {
        lemma_true_indices_in_range(outcomes.drop_last());
        lemma_true_indices_ascending(outcomes.drop_last());
        let rest = true_indices(outcomes.drop_last());
        assert forall|k1: int, k2: int|
            0 <= k1 < k2 < true_indices(outcomes).len() implies #[trigger] true_indices(
            outcomes,
        )[k1] < #[trigger] true_indices(outcomes)[k2] by {
            assert(true_indices(outcomes)[k1] == rest[k1]);
            if k2 < rest.len() {
                assert(true_indices(outcomes)[k2] == rest[k2]);
            }
        }
    }
}

/// A host with a `false` outcome adds no index.
pub proof fn lemma_no_responders_no_indices(outcomes: Seq<bool>)
    requires
        forall|i: int| 0 <= i < outcomes.len() ==> !outcomes[i],
    ensures
        true_indices(outcomes).len() == 0,
    decreases outcomes.len(),
{
    if outcomes.len() > 0 {
        assert(!outcomes.last());
        lemma_no_responders_no_indices(outcomes.drop_last());
    }
}

/// A sweep in progress over one subnet.
///
/// `outcomes` records, per host index already probed, whether the host
/// responded; it is ghost state that ties the results to the probes.
pub struct SweepState {
    pub subnet: Subnet,
    pub probed: u32,
    pub pending: Option<u32>,
    pub results: Vec<DiscoveredHost>,
    pub outcomes: Ghost<Seq<bool>>,
}

impl SweepState {
    /// The host indices whose `DiscoveredHost` entry has been recorded:
    /// all responders so far, except one still awaiting resolution.
    pub open spec fn recorded(self) -> Seq<int> {
        if self.pending is Some {
            true_indices(self.outcomes@.drop_last())
        } else {
            true_indices(self.outcomes@)
        }
    }

    pub open spec fn wf(self) -> bool {
        &&& self.subnet.wf()
        &&& self.outcomes@.len() == self.probed
        &&& self.probed <= host_count_spec(self.subnet.prefix)
        &&& (self.pending matches Some(a) ==> {
            &&& self.probed >= 1
            &&& self.outcomes@.last()
            &&& a == self.subnet.network + self.probed
        })
        &&& self.results@.len() == self.recorded().len()
        &&& forall|k: int|
            0 <= k < self.results@.len() ==> #[trigger] self.results@[k].address
                == self.subnet.network + 1 + self.recorded()[k]
    }

    /// Begin a sweep of `subnet`: nothing probed, nothing recorded.
    pub fn begin(subnet: Subnet) -> (s: SweepState)
        requires
            subnet.wf(),
        ensures
            s.wf(),
            s.subnet == subnet,
            s.probed == 0,
            s.pending is None,
            s.results@.len() == 0,
            s.outcomes@.len() == 0,
    {
        proof {
            crate::hosts::lemma_host_count_nonneg(subnet.prefix);
        }
        SweepState {
            subnet,
            probed: 0,
            pending: None,
            results: Vec::new(),
            outcomes: Ghost(Seq::empty()),
        }
    }

    /// What to do next.  Resolution of a responder comes before the next
    /// probe; probes walk the usable hosts in ascending order; once every
    /// host is handled the sweep is done.
    pub fn next_action(&self) -> (a: SweepAction)
        requires
            self.wf(),
        ensures
            match a {
                SweepAction::Resolve(addr) => self.pending == Some(addr),
                SweepAction::Probe(addr) => self.pending is None && self.probed
                    < host_count_spec(self.subnet.prefix) && addr == self.subnet.network + 1
                    + self.probed,
                SweepAction::Done => self.pending is None && self.probed == host_count_spec(
                    self.subnet.prefix,
                ),
            },
    {
        match self.pending {
            Some(a) => SweepAction::Resolve(a),
            None => {
                if self.probed < host_count(&self.subnet) {
                    SweepAction::Probe(host_at(&self.subnet, self.probed))
                } else {
                    SweepAction::Done
                }
            },
        }
    }

    /// Record the outcome of the probe that `next_action` asked for.  A
    /// probe error counts as no response.  Earlier entries are untouched,
    /// whatever the outcome.
    pub fn record_probe(&mut self, responded: bool)
        requires
            old(self).wf(),
            old(self).pending is None,
            old(self).probed < host_count_spec(old(self).subnet.prefix),
        ensures
            final(self).wf(),
            final(self).subnet == old(self).subnet,
            final(self).probed == old(self).probed + 1,
            final(self).outcomes@ == old(self).outcomes@.push(responded),
            final(self).results@ == old(self).results@,
            final(self).pending == (if responded {
                Some((old(self).subnet.network + 1 + old(self).probed) as u32)
            } else {
                Option::<u32>::None
            }),
    {
        let addr = host_at(&self.subnet, self.probed);
        proof {
            self.outcomes@ = self.outcomes@.push(responded);
        }
        self.probed = self.probed + 1;
        if responded {
            self.pending = Some(addr);
        }
        proof {
            assert(self.outcomes@.drop_last() =~= old(self).outcomes@);
        }
    }

    /// Record what resolution returned for the pending responder: its
    /// entry is appended, present or absent link address alike, and
    /// earlier entries are untouched.
    pub fn record_resolution(&mut self, link: Option<String>)
        requires
            old(self).wf(),
            old(self).pending is Some,
        ensures
            final(self).wf(),
            final(self).subnet == old(self).subnet,
            final(self).probed == old(self).probed,
            final(self).outcomes@ == old(self).outcomes@,
            final(self).pending is None,
            final(self).results@ == old(self).results@.push(
                DiscoveredHost {
                    address: old(self).pending->Some_0,
                    link_address: link,
                },
            ),
    {
        let addr = match self.pending {
            Some(a) => a,
            None => 0,  // unreachable under the precondition
        };
        self.pending = None;
        self.results.push(DiscoveredHost { address: addr, link_address: link });
        proof {
            assert(self.outcomes@.drop_last().push(self.outcomes@.last()) =~= self.outcomes@);
        }
    }

    /// Whether the sweep is complete.
    pub fn is_finished(&self) -> (b: bool)
        requires
            self.wf(),
        ensures
            b == (self.pending is None && self.probed == host_count_spec(self.subnet.prefix)),
    {
        match self.pending {
            Some(_) => false,
            None => self.probed == host_count(&self.subnet),
        }
    }
}

/// Law: a sweep in which no probe has responded has recorded nothing.
pub proof fn lemma_silent_sweep_empty(s: SweepState)
    requires
        s.wf(),
        s.pending is None,
        forall|i: int| 0 <= i < s.outcomes@.len() ==> !s.outcomes@[i],
    ensures
        s.results@.len() == 0,
{
    lemma_no_responders_no_indices(s.outcomes@);
}

/// Law: the recorded entries stand in ascending address order.
pub proof fn lemma_results_ascending(s: SweepState)
    requires
        s.wf(),
    ensures
        forall|k1: int, k2: int|
            0 <= k1 < k2 < s.results@.len() ==> #[trigger] s.results@[k1].address
                < #[trigger] s.results@[k2].address,
{
    if s.pending is Some {
        lemma_true_indices_ascending(s.outcomes@.drop_last());
    } else {
        lemma_true_indices_ascending(s.outcomes@);
    }
}

} // verus!
