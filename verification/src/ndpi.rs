//! The detection state that the plugin keeps beside nDPI: the detection
//! module handle, and per flow, what nDPI has reported so far and whether
//! detection is over.
//!
//! nDPI itself (the dissector) runs outside this library: its results come in
//! as plain values, and each decision about what to do next is made here.
use vstd::prelude::*;

use crate::risk::{all_below, risk_bit, risk_bits, lemma_risk_bits_covered};
use crate::suricata::IPPROTO_UDP;

verus! {

/// An nDPI risk mask: bit `k` stands for risk number `k`.
pub type Risk = u64;

/// An nDPI protocol pair (`ndpi_master_app_protocol`).
#[derive(Clone, Copy, Debug, PartialEq, Eq, Structural)]
pub struct Protocol {
    pub master_protocol: u16,
    pub app_protocol: u16,
}

/// The all-zero protocol pair that a fresh flow starts with.
pub open spec fn zeroed_protocol() -> Protocol {
    Protocol { master_protocol: 0, app_protocol: 0 }
}

/// A ready nDPI detection module: a non-null handle whose initialisation
/// was finalised.
pub struct DetectionModule {
    ptr: usize,
}

/// The outcome of setting up a detection module.
pub enum ModuleInit {
    /// nDPI returned no module.
    NotCreated,
    /// nDPI returned a module but could not finalise it: it must be released.
    FinalizeFailed,
    /// The module is ready.
    Ready(DetectionModule),
}

impl DetectionModule {
    #[verifier::type_invariant]
    spec fn non_null(&self) -> bool {
        self.ptr != 0
    }

    /// The address of the nDPI module.
    pub closed spec fn handle(&self) -> usize {
        self.ptr
    }

    /// Whether the module nDPI returned at `handle` is to be finalised: only a
    /// module that exists (a null one is neither finalised nor released).
    pub fn needs_finalize(handle: usize) -> (r: bool)
        ensures
            r == (handle != 0),
    {
        handle != 0
    }

    /// Decides the outcome of creating a detection module from the address
    /// that nDPI returned (0 when none) and the status of finalising it.
    pub fn new(handle: usize, finalize_status: i32) -> (r: ModuleInit)
        ensures
            handle == 0 ==> r is NotCreated,
            handle != 0 && finalize_status != 0 ==> r is FinalizeFailed,
            handle != 0 && finalize_status == 0 ==> (r matches ModuleInit::Ready(m)
                && m.handle() == handle),
    {
        if handle == 0 {
            ModuleInit::NotCreated
        } else if finalize_status != 0 {
            ModuleInit::FinalizeFailed
        } else {
            ModuleInit::Ready(DetectionModule { ptr: handle })
        }
    }

    /// The address of the nDPI module, never 0.
    pub fn as_ptr(&self) -> (r: usize)
        ensures
            r == self.handle(),
            r != 0,
    {
        proof {
            use_type_invariant(self);
        }
        self.ptr
    }
}

/// What the plugin knows of a flow.
pub struct FlowView {
    /// The address of the nDPI flow.
    pub handle: usize,
    /// The protocol pair nDPI reported last.
    pub detected: Protocol,
    /// Whether detection is over for this flow.
    pub completed: bool,
    /// The flow's risk mask as nDPI left it.
    pub risk: Risk,
}

/// The detection state of one flow.
pub struct Flow {
    ptr: usize,
    detected_l7_protocol: Protocol,
    detection_completed: bool,
    risk: Risk,
}

/// What nDPI reported after dissecting one packet of a flow, as plain values.
#[derive(Clone, Copy, Debug)]
pub struct DissectionReport {
    /// The protocol pair of the returned `ndpi_protocol`.
    pub protocol: Protocol,
    /// `ndpi_is_protocol_detected` of the returned protocol.
    pub detected: bool,
    /// `ndpi_is_proto_unknown` of the returned protocol pair.
    pub unknown: bool,
    /// Whether the returned classification state is `NDPI_STATE_CLASSIFIED`.
    pub classified: bool,
    /// The flow's `num_extra_packets_checked`.
    pub extra_packets_checked: u32,
    /// The flow's `max_extra_packets_to_check`.
    pub max_extra_packets_to_check: u32,
    /// The flow's risk mask after the dissection.
    pub risk: Risk,
}

/// What to do after a packet was dissected.
#[derive(Clone, Copy, Debug, PartialEq, Eq, Structural)]
pub enum FlowAction {
    /// Nothing more for this packet.
    Continue,
    /// Give up on detection: ask nDPI for its best guess and stop.
    GiveUp,
}

/// How many packets a flow of layer-4 protocol `l4_proto` may show without a
/// detected protocol before detection is given up: 8 for UDP, 24 otherwise.
pub open spec fn giveup_packet_limit(l4_proto: u8) -> u32 {
    if l4_proto == IPPROTO_UDP {
        8
    } else {
        24
    }
}

/// Whether a dissection ends detection: a known protocol was detected and
/// either it is fully classified or no more extra packets will be checked.
pub open spec fn completes_detection(report: DissectionReport) -> bool {
    &&& report.detected
    &&& !report.unknown
    &&& (report.classified || report.extra_packets_checked >= report.max_extra_packets_to_check)
}

/// Whether a dissection calls for giving up: nothing was detected and the
/// flow has shown more packets than its limit.
pub open spec fn requires_giveup(report: DissectionReport, l4_proto: u8, packet_count: u32) -> bool {
    !report.detected && packet_count > giveup_packet_limit(l4_proto)
}

/// Whether a flow in state `f` hands a packet to nDPI.
pub open spec fn wants_packet_spec(f: FlowView, packet_present: bool, packet_len: u16) -> bool {
    !f.completed && packet_present && packet_len != 0
}

/// The state of a flow after a dissection.
pub open spec fn after_dissection(f: FlowView, report: DissectionReport) -> FlowView {
    FlowView {
        handle: f.handle,
        detected: report.protocol,
        completed: f.completed || completes_detection(report),
        risk: report.risk,
    }
}

/// The state of a flow after nDPI gave its final guess.
pub open spec fn after_giveup(f: FlowView, protocol: Protocol, risk: Risk) -> FlowView {
    FlowView { handle: f.handle, detected: protocol, completed: true, risk }
}

/// The result of a keyword, negated or not.
pub open spec fn keyword_result(matched: bool, negated: bool) -> bool {
    matched != negated
}

/// Whether a flow risk carries every risk of a mask.
pub open spec fn risk_covers(risk: Risk, mask: Risk) -> bool {
    (risk & mask) == mask
}

/// The packet limit of `giveup_packet_limit`.
pub fn max_packets_before_giveup(l4_proto: u8) -> (n: u32)
    ensures
        n == giveup_packet_limit(l4_proto),
{
    if l4_proto == IPPROTO_UDP {
        8
    } else {
        24
    }
}

impl View for Flow {
    type V = FlowView;

    closed spec fn view(&self) -> FlowView {
        FlowView {
            handle: self.ptr,
            detected: self.detected_l7_protocol,
            completed: self.detection_completed,
            risk: self.risk,
        }
    }
}

impl Flow {
    #[verifier::type_invariant]
    spec fn non_null(&self) -> bool {
        self.ptr != 0
    }

    /// A fresh flow for the zero-filled nDPI flow at `handle` (0 when the
    /// allocation failed, which gives `None`): no protocol, no risk, detection
    /// not over.
    pub fn new(handle: usize) -> (r: Option<Flow>)
        ensures
            r is Some <==> handle != 0,
            r matches Some(f) ==> f@ == (FlowView {
                handle,
                detected: zeroed_protocol(),
                completed: false,
                risk: 0,
            }),
    {
        if handle == 0 {
            None
        } else {
            Some(
                Flow {
                    ptr: handle,
                    detected_l7_protocol: Protocol { master_protocol: 0, app_protocol: 0 },
                    detection_completed: false,
                    risk: 0,
                },
            )
        }
    }

    /// The address of the nDPI flow, never 0.
    pub fn as_ptr(&self) -> (r: usize)
        ensures
            r == self@.handle,
            r != 0,
    {
        proof {
            use_type_invariant(self);
        }
        self.ptr
    }

    /// Whether detection is over for this flow.
    pub fn detection_completed(&self) -> (r: bool)
        ensures
            r == self@.completed,
    {
        self.detection_completed
    }

    /// The protocol pair nDPI reported last.
    pub fn detected_protocol(&self) -> (r: Protocol)
        ensures
            r == self@.detected,
    {
        self.detected_l7_protocol
    }

    /// Whether the nDPI flow at `handle` is to be zero-filled before use:
    /// only one that was allocated.
    pub fn needs_zero_fill(handle: usize) -> (r: bool)
        ensures
            r == (handle != 0),
    {
        handle != 0
    }

    /// Whether a packet goes to nDPI: only while detection is not over, and
    /// only a present, non-empty packet.
    pub fn wants_packet(&self, packet_present: bool, packet_len: u16) -> (r: bool)
        ensures
            r == wants_packet_spec(self@, packet_present, packet_len),
    {
        !self.detection_completed && packet_present && packet_len != 0
    }

    /// Takes in, while detection is not over, what nDPI reported for a packet of this flow, whose layer-4
    /// protocol is `l4_proto` and which is the flow's `packet_count`-th, and
    /// says whether detection must now be given up.
    pub fn process_packet(&mut self, report: DissectionReport, l4_proto: u8, packet_count: u32) -> (action: FlowAction)
        requires
            !old(self)@.completed,
        ensures
            final(self)@ == after_dissection(old(self)@, report),
            (action == FlowAction::GiveUp) == requires_giveup(report, l4_proto, packet_count),
    {
        proof {
            use_type_invariant(&*self);
        }
        self.detected_l7_protocol = report.protocol;
        self.risk = report.risk;
        if report.detected {
            if !report.unknown {
                let extra_done = report.extra_packets_checked >= report.max_extra_packets_to_check;
                if report.classified || extra_done {
                    self.detection_completed = true;
                }
            }
            FlowAction::Continue
        } else {
            let max_num_pkts = max_packets_before_giveup(l4_proto);
            if packet_count > max_num_pkts {
                FlowAction::GiveUp
            } else {
                FlowAction::Continue
            }
        }
    }

    /// Takes in nDPI's final guess after giving up, and ends detection; only
    /// while detection is not over.
    pub fn give_up(&mut self, protocol: Protocol, risk: Risk)
        requires
            !old(self)@.completed,
        ensures
            final(self)@ == after_giveup(old(self)@, protocol, risk),
    {
        proof {
            use_type_invariant(&*self);
        }
        self.detected_l7_protocol = protocol;
        self.risk = risk;
        self.detection_completed = true;
    }

    /// The arguments of nDPI's protocol comparison for the `ndpi-protocol`
    /// keyword: the detected protocol pair, the keyword's, and `false` (any
    /// match of master or application protocol counts, not only an exact one).
    pub fn protocol_query(&self, protocol: Protocol) -> (r: (Protocol, Protocol, bool))
        ensures
            r == (self@.detected, protocol, false),
    {
        (self.detected_l7_protocol, protocol, false)
    }

    /// The `ndpi-protocol` keyword: `protocol_equal` is whether nDPI finds the
    /// keyword's protocol equal to the detected one; `negated` inverts it.
    pub fn protocol_matches(&self, protocol_equal: bool, negated: bool) -> (r: bool)
        ensures
            r == keyword_result(protocol_equal, negated),
    {
        protocol_equal != negated
    }

    /// The `ndpi-risk` keyword: whether the flow carries every risk of
    /// `risk_mask`; `negated` inverts it.
    pub fn risk_matches(&self, risk_mask: Risk, negated: bool) -> (r: bool)
        ensures
            r == keyword_result(risk_covers(self@.risk, risk_mask), negated),
    {
        let matched = (self.risk & risk_mask) == risk_mask;
        matched != negated
    }
}

/// The protocol a keyword argument names, from what nDPI found for the name
/// and whether that is the unknown protocol: unknown names are refused.
pub fn parse_protocol(found: Protocol, unknown: bool) -> (r: Option<Protocol>)
    ensures
        r == (if unknown {
            None
        } else {
            Some(found)
        }),
{
    if unknown {
        None
    } else {
        Some(found)
    }
}

/// Once detection is over for a flow it stays over: the flow takes no more
/// packets, so neither a dissection report nor a give-up can follow (both
/// require detection not to be over), and either of them applied to an open
/// flow leaves it over whenever it ends detection.
pub proof fn lemma_completion_is_final(
    f: FlowView,
    packet_present: bool,
    packet_len: u16,
    report: DissectionReport,
    protocol: Protocol,
    risk: Risk,
)
    ensures
        f.completed ==> !wants_packet_spec(f, packet_present, packet_len),
        wants_packet_spec(f, packet_present, packet_len) ==> !f.completed,
        after_giveup(f, protocol, risk).completed,
        completes_detection(report) ==> after_dissection(f, report).completed,
{
}

/// A dissection never both ends detection and calls for giving up: giving up
/// is only for flows with nothing detected.
pub proof fn lemma_giveup_only_undetected(report: DissectionReport, l4_proto: u8, packet_count: u32)
    ensures
        requires_giveup(report, l4_proto, packet_count) ==> !completes_detection(report),
        completes_detection(report) ==> !requires_giveup(report, l4_proto, packet_count),
        report.detected ==> !requires_giveup(report, l4_proto, packet_count),
{
}

/// Giving up depends only on whether anything was detected, the packet count
/// and whether the flow is UDP: an undetected UDP flow is given up from its
/// 9th packet on, any other undetected flow from its 25th, and a flow with a
/// detected protocol never, whatever else nDPI reported.
pub proof fn lemma_giveup_rule(report: DissectionReport, l4_proto: u8, packet_count: u32)
    ensures
        report.detected ==> !requires_giveup(report, l4_proto, packet_count),
        !report.detected && l4_proto == 17 ==> (requires_giveup(report, l4_proto, packet_count)
            <==> packet_count >= 9),
        !report.detected && l4_proto != 17 ==> (requires_giveup(report, l4_proto, packet_count)
            <==> packet_count >= 25),
        forall|other: DissectionReport|
            other.detected == report.detected ==> (requires_giveup(other, l4_proto, packet_count)
                == requires_giveup(report, l4_proto, packet_count)),
{
}

/// Detection ends on a report exactly when nDPI detected a known protocol and
/// either classified it or checked all the extra packets it meant to.
pub proof fn lemma_completion_rule(report: DissectionReport)
    ensures
        completes_detection(report) <==> (report.detected && !report.unknown && (report.classified
            || report.extra_packets_checked >= report.max_extra_packets_to_check)),
{
}

/// Giving up adopts nDPI's final guess whole, protocol pair and risk, keeps
/// the flow's handle, and ends detection.
pub proof fn lemma_giveup_adopts_guess(f: FlowView, protocol: Protocol, risk: Risk)
    ensures
        after_giveup(f, protocol, risk).detected == protocol,
        after_giveup(f, protocol, risk).detected.master_protocol == protocol.master_protocol,
        after_giveup(f, protocol, risk).detected.app_protocol == protocol.app_protocol,
        after_giveup(f, protocol, risk).risk == risk,
        after_giveup(f, protocol, risk).handle == f.handle,
        after_giveup(f, protocol, risk).completed,
{
}

/// An open flow takes every present packet that is not empty, whatever its
/// length; a finished flow, a missing packet or an empty one is skipped.
pub proof fn lemma_packet_admission(f: FlowView, packet_present: bool, packet_len: u16, other_len: u16)
    ensures
        !f.completed && packet_present && packet_len != 0 ==> wants_packet_spec(
            f,
            packet_present,
            packet_len,
        ),
        f.completed || !packet_present || packet_len == 0 ==> !wants_packet_spec(
            f,
            packet_present,
            packet_len,
        ),
        packet_len != 0 && other_len != 0 ==> wants_packet_spec(f, packet_present, packet_len)
            == wants_packet_spec(f, packet_present, other_len),
        !f.completed ==> wants_packet_spec(f, true, 1),
{
}

/// A flow whose packets stay undetected past its limit is given up, and after
/// nDPI's final guess it takes no more packets.
pub proof fn lemma_undetected_flow_stops(
    f: FlowView,
    report: DissectionReport,
    l4_proto: u8,
    packet_count: u32,
    protocol: Protocol,
    risk: Risk,
    packet_present: bool,
    packet_len: u16,
)
    requires
        !report.detected,
        packet_count > giveup_packet_limit(l4_proto),
    ensures
        requires_giveup(report, l4_proto, packet_count),
        !wants_packet_spec(
            after_giveup(after_dissection(f, report), protocol, risk),
            packet_present,
            packet_len,
        ),
{
}

/// A dissection keeps the flow's handle, and takes the reported protocol and
/// risk as the flow's own.
pub proof fn lemma_dissection_adopts_report(f: FlowView, report: DissectionReport)
    ensures
        after_dissection(f, report).handle == f.handle,
        after_dissection(f, report).detected == report.protocol,
        after_dissection(f, report).risk == report.risk,
        !f.completed ==> (after_dissection(f, report).completed <==> (report.detected
            && !report.unknown && (report.classified || report.extra_packets_checked
            >= report.max_extra_packets_to_check))),
{
}

/// A negated keyword matches exactly when the plain one does not.
pub proof fn lemma_negation_inverts(matched: bool)
    ensures
        keyword_result(matched, true) == !keyword_result(matched, false),
        keyword_result(matched, false) == matched,
{
}

/// A plain risk keyword built from a list of risk numbers matches a flow
/// exactly when the flow carries every risk of the list.
pub proof fn lemma_risk_keyword_matches_listed(risk: Risk, ids: Seq<u32>)
    requires
        all_below(ids, 64),
    ensures
        keyword_result(risk_covers(risk, risk_bits(ids)), false) <==> (forall|i: int|
            0 <= i < ids.len() ==> (risk & risk_bit(#[trigger] ids[i])) != 0),
{
    lemma_risk_bits_covered(risk, ids);
}

/// A risk keyword with the empty mask matches every flow, and its negation
/// matches none.
pub proof fn lemma_empty_risk_mask(risk: Risk)
    ensures
        keyword_result(risk_covers(risk, 0), false),
        !keyword_result(risk_covers(risk, 0), true),
{
    assert(risk & 0u64 == 0u64) by (bit_vector);
}

} // verus!
