//! The rule model and policy engine: host predicates, compiled rules, their
//! specificity ordering, and the first-match decision over an ordered rule
//! list.

use crate::addrs::{render_ip, render_ip_spec, IpAddress, MacAddr};
use crate::domains::Resolved;
use crate::regexes::{regex_match, CompiledRegex};
use vstd::prelude::*;

verus! {

/// What the interceptor does with a matching flow.
#[derive(Debug, Clone, Copy, PartialEq, Eq, Structural)]
pub enum PacketAction {
    Reset,
    Monitor,
    Ignore,
}

/// A predicate over one endpoint of a flow.
pub enum HostFilter {
    WildCard,
    IncludeIPs(Vec<IpAddress>),
    ExcludeIPs(Vec<IpAddress>),
    IncludeMACs(Vec<MacAddr>),
    ExcludeMACs(Vec<MacAddr>),
    Regex(CompiledRegex),
}

/// One compiled rule: a predicate for each side and the action taken when
/// both hold.
pub struct Filter {
    pub src: HostFilter,
    pub dst: HostFilter,
    pub mode: PacketAction,
}

impl HostFilter {
    /// The specificity weight of this predicate: wildcard 0, IP-based 1,
    /// MAC-based 2, regex 4.
    pub open spec fn sort_val_spec(&self) -> int {
        match self {
            HostFilter::WildCard => 0,
            HostFilter::IncludeIPs(_) => 1,
            HostFilter::ExcludeIPs(_) => 1,
            HostFilter::IncludeMACs(_) => 2,
            HostFilter::ExcludeMACs(_) => 2,
            HostFilter::Regex(_) => 4,
        }
    }

    /// Computes the specificity weight; see [`Self::sort_val_spec`].
    pub fn get_sort_val(&self) -> (r: u8)
        ensures
            r as int == self.sort_val_spec(),
    {
        match self {
            HostFilter::WildCard => 0,
            HostFilter::IncludeIPs(_) => 1,
            HostFilter::ExcludeIPs(_) => 1,
            HostFilter::IncludeMACs(_) => 2,
            HostFilter::ExcludeMACs(_) => 2,
            HostFilter::Regex(_) => 4,
        }
    }
}

impl Filter {
    /// A rule's weight is the sum of its two predicate weights; rules are
    /// dispatched in ascending weight order, most general first.
    pub open spec fn weight(&self) -> int {
        self.src.sort_val_spec() + self.dst.sort_val_spec()
    }

    /// Computes the rule's weight; see [`Self::weight`].
    pub fn get_weight(&self) -> (r: u8)
        ensures
            r as int == self.weight(),
    {
        self.src.get_sort_val() + self.dst.get_sort_val()
    }
}

impl PartialEq for Filter {
    fn eq(&self, other: &Self) -> (r: bool) {
        self.src.get_sort_val() + self.dst.get_sort_val() == other.src.get_sort_val()
            + other.dst.get_sort_val()
    }
}

impl Eq for Filter {}

impl vstd::std_specs::cmp::PartialEqSpecImpl for Filter {
    open spec fn obeys_eq_spec() -> bool {
        true
    }

    open spec fn eq_spec(&self, other: &Self) -> bool {
        self.weight() == other.weight()
    }
}

impl PartialOrd for Filter {
    fn partial_cmp(&self, other: &Self) -> (r: Option<core::cmp::Ordering>) {
        let a = self.src.get_sort_val() + self.dst.get_sort_val();
        let b = other.src.get_sort_val() + other.dst.get_sort_val();
        if a < b {
            Some(core::cmp::Ordering::Less)
        } else if a == b {
            Some(core::cmp::Ordering::Equal)
        } else {
            Some(core::cmp::Ordering::Greater)
        }
    }
}

impl vstd::std_specs::cmp::PartialOrdSpecImpl for Filter {
    open spec fn obeys_partial_cmp_spec() -> bool {
        true
    }

    open spec fn partial_cmp_spec(&self, other: &Self) -> Option<core::cmp::Ordering> {
        if self.weight() < other.weight() {
            Some(core::cmp::Ordering::Less)
        } else if self.weight() == other.weight() {
            Some(core::cmp::Ordering::Equal)
        } else {
            Some(core::cmp::Ordering::Greater)
        }
    }
}

/// Some element of the list is the given IP.
pub open spec fn ip_in_list(l: Seq<IpAddress>, ip: IpAddress) -> bool {
    exists|i: int| 0 <= i < l.len() && (#[trigger] l[i]) == ip
}

/// Some element of the list differs from the given IP.  This is how the
/// exclusion predicate is evaluated: it holds for every IP whenever the
/// list has two or more distinct entries, and equals true exclusion only
/// for single-entry lists.
pub open spec fn any_ip_differs(l: Seq<IpAddress>, ip: IpAddress) -> bool {
    exists|i: int| 0 <= i < l.len() && (#[trigger] l[i]) != ip
}

/// Some element of the list is the given MAC.
pub open spec fn mac_in_list(l: Seq<MacAddr>, mac: Seq<u8>) -> bool {
    exists|i: int| 0 <= i < l.len() && (#[trigger] l[i])@ == mac
}

/// Whether a predicate accepts an endpoint, given the hostname (if any)
/// that the endpoint's IP resolves to.  A hostname regex first tries the
/// resolved name and then the rendered IP text; MAC exclusion is evaluated
/// exactly as MAC inclusion is.
pub open spec fn pred_matches(
    f: &HostFilter,
    ip: IpAddress,
    mac: Seq<u8>,
    name: Option<Seq<char>>,
) -> bool {
    match f {
        HostFilter::WildCard => true,
        HostFilter::IncludeIPs(l) => ip_in_list(l@, ip),
        HostFilter::ExcludeIPs(l) => any_ip_differs(l@, ip),
        HostFilter::IncludeMACs(l) => mac_in_list(l@, mac),
        HostFilter::ExcludeMACs(l) => mac_in_list(l@, mac),
        HostFilter::Regex(rx) => (name matches Some(n) && regex_match(rx.pattern_view(), n))
            || regex_match(rx.pattern_view(), render_ip_spec(ip)),
    }
}

/// Whether a reverse-lookup result for `ip` has been recorded.
pub open spec fn has_lookup(s: Seq<(IpAddress, Option<String>)>, ip: IpAddress) -> bool {
    exists|i: int| 0 <= i < s.len() && (#[trigger] s[i]).0 == ip
}

/// The first recorded reverse-lookup result for `ip`, if any.
pub open spec fn lookup_of(s: Seq<(IpAddress, Option<String>)>, ip: IpAddress) -> Option<
    Seq<char>,
>
    decreases s.len(),
{
    if s.len() == 0 {
        None
    } else if s[0].0 == ip {
        match s[0].1 {
            Some(n) => Some(n@),
            None => None,
        }
    } else {
        lookup_of(s.skip(1), ip)
    }
}

/// Whether the hostname for `ip` is settled: either the learner knows it or
/// a reverse lookup for it has been recorded (possibly as a miss).
pub open spec fn names_known(
    learner: Map<IpAddress, Seq<char>>,
    lookups: Seq<(IpAddress, Option<String>)>,
    ip: IpAddress,
) -> bool {
    learner.contains_key(ip) || has_lookup(lookups, ip)
}

/// The hostname an endpoint resolves to: the learner's entry if present,
/// else the recorded reverse-lookup result.
pub open spec fn name_for(
    learner: Map<IpAddress, Seq<char>>,
    lookups: Seq<(IpAddress, Option<String>)>,
    ip: IpAddress,
) -> Option<Seq<char>> {
    if learner.contains_key(ip) {
        Some(learner[ip])
    } else {
        lookup_of(lookups, ip)
    }
}

/// A TCP event as handed to the policy engine:
/// `(src_ip, src_port, src_mac, dst_ip, dst_port, dst_mac)`.
pub type TcpEndpoints = (IpAddress, u16, MacAddr, IpAddress, u16, MacAddr);

/// Whether a rule accepts an event: both its predicates hold of their side.
pub open spec fn rule_matches(
    f: &Filter,
    ev: TcpEndpoints,
    learner: Map<IpAddress, Seq<char>>,
    lookups: Seq<(IpAddress, Option<String>)>,
) -> bool {
    pred_matches(&f.src, ev.0, ev.2@, name_for(learner, lookups, ev.0)) && pred_matches(
        &f.dst,
        ev.3,
        ev.5@,
        name_for(learner, lookups, ev.3),
    )
}

/// The action for an event: the action of the first rule that matches, or
/// `Ignore` when none does.
pub open spec fn decide_spec(
    rules: Seq<Filter>,
    ev: TcpEndpoints,
    learner: Map<IpAddress, Seq<char>>,
    lookups: Seq<(IpAddress, Option<String>)>,
) -> PacketAction
    decreases rules.len(),
{
    if rules.len() == 0 {
        PacketAction::Ignore
    } else if rule_matches(&rules[0], ev, learner, lookups) {
        rules[0].mode
    } else {
        decide_spec(rules.skip(1), ev, learner, lookups)
    }
}

/// The policy engine's answer for one event: either an action together
/// with the index of the rule that decided it (the list's length when none
/// matched and the default `Ignore` applies), or the IP whose hostname must
/// be reverse-resolved before the decision can be made.
#[derive(Debug, Clone, Copy)]
pub enum Decision {
    Act(PacketAction, usize),
    NeedLookup(IpAddress),
}

/// The index of the first rule that matches the event, or the list's
/// length when none does.
pub open spec fn first_match_idx(
    rules: Seq<Filter>,
    ev: TcpEndpoints,
    learner: Map<IpAddress, Seq<char>>,
    lookups: Seq<(IpAddress, Option<String>)>,
) -> int
    decreases rules.len(),
{
    if rules.len() == 0 {
        0
    } else if rule_matches(&rules[0], ev, learner, lookups) {
        0
    } else {
        1 + first_match_idx(rules.skip(1), ev, learner, lookups)
    }
}

/// Whether the first-match scan stops at an unsettled hostname and asks
/// for `ip`: a rule's source regex is reached while the source hostname is
/// unsettled, or its source side holds and its destination regex is
/// reached while the destination hostname is unsettled, before any rule
/// matches.
pub open spec fn lookup_needed(
    rules: Seq<Filter>,
    ev: TcpEndpoints,
    learner: Map<IpAddress, Seq<char>>,
    lookups: Seq<(IpAddress, Option<String>)>,
    ip: IpAddress,
) -> bool
    decreases rules.len(),
{
    if rules.len() == 0 {
        false
    } else if rules[0].src is Regex && !names_known(learner, lookups, ev.0) {
        ip == ev.0
    } else if !pred_matches(&rules[0].src, ev.0, ev.2@, name_for(learner, lookups, ev.0)) {
        lookup_needed(rules.skip(1), ev, learner, lookups, ip)
    } else if rules[0].dst is Regex && !names_known(learner, lookups, ev.3) {
        ip == ev.3
    } else if pred_matches(&rules[0].dst, ev.3, ev.5@, name_for(learner, lookups, ev.3)) {
        false
    } else {
        lookup_needed(rules.skip(1), ev, learner, lookups, ip)
    }
}

/// No reverse lookup stands between the engine and its decision.
pub open spec fn no_lookup_needed(
    rules: Seq<Filter>,
    ev: TcpEndpoints,
    learner: Map<IpAddress, Seq<char>>,
    lookups: Seq<(IpAddress, Option<String>)>,
) -> bool {
    !lookup_needed(rules, ev, learner, lookups, ev.0) && !lookup_needed(
        rules,
        ev,
        learner,
        lookups,
        ev.3,
    )
}

/// What the policy engine promises of its answer: an action is the
/// first-match decision with the deciding rule's index, given only when no
/// reverse lookup stands in the way; a lookup request names the unsettled
/// event IP at which the scan stopped.
pub open spec fn decision_consistent(
    rules: Seq<Filter>,
    ev: TcpEndpoints,
    learner: Map<IpAddress, Seq<char>>,
    lookups: Seq<(IpAddress, Option<String>)>,
    r: Decision,
) -> bool {
    match r {
        Decision::Act(a, i) => a == decide_spec(rules, ev, learner, lookups) && i
            == first_match_idx(rules, ev, learner, lookups) && no_lookup_needed(
            rules,
            ev,
            learner,
            lookups,
        ),
        Decision::NeedLookup(ip) => (ip == ev.0 || ip == ev.3) && !names_known(
            learner,
            lookups,
            ip,
        ) && lookup_needed(rules, ev, learner, lookups, ip),
    }
}

/// The scan stops at one IP: any two lookup requests agree.
proof fn lemma_lookup_needed_unique(
    rules: Seq<Filter>,
    ev: TcpEndpoints,
    learner: Map<IpAddress, Seq<char>>,
    lookups: Seq<(IpAddress, Option<String>)>,
    ip1: IpAddress,
    ip2: IpAddress,
)
    requires
        lookup_needed(rules, ev, learner, lookups, ip1),
        lookup_needed(rules, ev, learner, lookups, ip2),
    ensures
        ip1 == ip2,
    decreases rules.len(),
{
    if rules.len() > 0 {
        if rules[0].src is Regex && !names_known(learner, lookups, ev.0) {
        } else if !pred_matches(&rules[0].src, ev.0, ev.2@, name_for(learner, lookups, ev.0)) {
            lemma_lookup_needed_unique(rules.skip(1), ev, learner, lookups, ip1, ip2);
        } else if rules[0].dst is Regex && !names_known(learner, lookups, ev.3) {
        } else if pred_matches(&rules[0].dst, ev.3, ev.5@, name_for(learner, lookups, ev.3)) {
        } else {
            lemma_lookup_needed_unique(rules.skip(1), ev, learner, lookups, ip1, ip2);
        }
    }
}

/// Determinism of the policy: any two answers the engine may give for the
/// same rules, event, learner state and recorded lookups are equal — the
/// same action when no lookup is needed, the same lookup request otherwise.
pub proof fn lemma_policy_deterministic(
    rules: Seq<Filter>,
    ev: TcpEndpoints,
    learner: Map<IpAddress, Seq<char>>,
    lookups: Seq<(IpAddress, Option<String>)>,
    r1: Decision,
    r2: Decision,
)
    requires
        decision_consistent(rules, ev, learner, lookups, r1),
        decision_consistent(rules, ev, learner, lookups, r2),
    ensures
        r1 == r2,
        no_lookup_needed(rules, ev, learner, lookups) ==> r1 == Decision::Act(
            decide_spec(rules, ev, learner, lookups),
            first_match_idx(rules, ev, learner, lookups) as usize,
        ),
{
    match (r1, r2) {
        (Decision::NeedLookup(a), Decision::NeedLookup(b)) => {
            lemma_lookup_needed_unique(rules, ev, learner, lookups, a, b);
        },
        _ => {},
    }
}

/// A first recorded lookup entry fixes `lookup_of`.
proof fn lemma_lookup_of_found(s: Seq<(IpAddress, Option<String>)>, i: int)
    requires
        0 <= i < s.len(),
        forall|j: int| 0 <= j < i ==> (#[trigger] s[j]).0 != s[i].0,
    ensures
        lookup_of(s, s[i].0) == match s[i].1 {
            Some(n) => Some(n@),
            None => None::<Seq<char>>,
        },
    decreases i,
{
    if i > 0 {
        assert(s.skip(1)[i - 1] == s[i]);
        lemma_lookup_of_found(s.skip(1), i - 1);
    }
}

/// The index of the first recorded lookup for `ip`, if any.
fn find_lookup(lookups: &Vec<(IpAddress, Option<String>)>, ip: &IpAddress) -> (r: Option<usize>)
    ensures
        match r {
            Some(at) => at < lookups@.len() && lookups@[at as int].0 == *ip && (forall|j: int|
                0 <= j < at ==> (#[trigger] lookups@[j]).0 != *ip),
            None => forall|j: int| 0 <= j < lookups@.len() ==> (#[trigger] lookups@[j]).0 != *ip,
        },
{
    let n = lookups.len();
    let mut k: usize = 0;
    while k < n
        invariant
            n == lookups@.len(),
            k <= n,
            forall|j: int| 0 <= j < k ==> (#[trigger] lookups@[j]).0 != *ip,
        decreases n - k,
    {
        if lookups[k].0 == *ip {
            return Some(k);
        }
        k = k + 1;
    }
    None
}

/// Evaluates one predicate against one endpoint, or reports the IP whose
/// hostname is still unresolved.
#[verifier::loop_isolation(false)]
fn eval_pred(
    f: &HostFilter,
    ip: &IpAddress,
    mac: &MacAddr,
    rd: &Resolved,
    lookups: &Vec<(IpAddress, Option<String>)>,
) -> (r: Result<bool, IpAddress>)
    ensures
        match r {
            Ok(b) => b == pred_matches(f, *ip, mac@, name_for(rd@, lookups@, *ip)) && !(f
                is Regex && !names_known(rd@, lookups@, *ip)),
            Err(e) => f is Regex && !names_known(rd@, lookups@, *ip) && e == *ip,
        },
{
    match f {
        HostFilter::WildCard => Ok(true),
        HostFilter::IncludeIPs(l) => {
            let n = l.len();
            let mut k: usize = 0;
            while k < n
                invariant
                    n == l@.len(),
                    k <= n,
                    forall|j: int| 0 <= j < k ==> l@[j] != *ip,
                decreases n - k,
            {
                if l[k] == *ip {
                    proof {
                        assert(l@[k as int] == *ip);
                        assert(ip_in_list(l@, *ip));
                    }
                    return Ok(true);
                }
                k = k + 1;
            }
            Ok(false)
        },
        HostFilter::ExcludeIPs(l) => {
            let n = l.len();
            let mut k: usize = 0;
            while k < n
                invariant
                    n == l@.len(),
                    k <= n,
                    forall|j: int| 0 <= j < k ==> l@[j] == *ip,
                decreases n - k,
            {
                if l[k] != *ip {
                    proof {
                        assert(l@[k as int] != *ip);
                    }
                    return Ok(true);
                }
                k = k + 1;
            }
            Ok(false)
        },
        HostFilter::IncludeMACs(l) => Ok(mac_list_scan(l, mac)),
        HostFilter::ExcludeMACs(l) => Ok(mac_list_scan(l, mac)),
        HostFilter::Regex(rx) => {
            match rd.get(ip) {
                Some(name) => {
                    if rx.is_match(name.as_str()) {
                        return Ok(true);
                    }
                },
                None => {
                    let found = find_lookup(lookups, ip);
                    let at: usize;
                    match found {
                        Some(a) => {
                            at = a;
                        },
                        None => {
                            return Err(*ip);
                        },
                    }
                    proof {
                        lemma_lookup_of_found(lookups@, at as int);
                    }
                    match &lookups[at].1 {
                        Some(name) => {
                            if rx.is_match(name.as_str()) {
                                return Ok(true);
                            }
                        },
                        None => {},
                    }
                },
            }
            let rendered = render_ip(ip);
            Ok(rx.is_match(rendered.as_str()))
        },
    }
}

/// Whether any MAC in the list equals the given one.
fn mac_list_scan(l: &Vec<MacAddr>, mac: &MacAddr) -> (r: bool)
    ensures
        r == mac_in_list(l@, mac@),
{
    let n = l.len();
    let mut k: usize = 0;
    while k < n
        invariant
            n == l@.len(),
            k <= n,
            forall|j: int| 0 <= j < k ==> (#[trigger] l@[j])@ != mac@,
        decreases n - k,
    {
        if l[k] == *mac {
            proof {
                assert(l@[k as int]@ == mac@);
            }
            return true;
        }
        k = k + 1;
    }
    false
}

/// The ordered rule list the policy engine dispatches over.
pub struct Blacklist {
    list: Vec<Filter>,
}

impl View for Blacklist {
    type V = Seq<Filter>;

    closed spec fn view(&self) -> Seq<Filter> {
        self.list@
    }
}

impl Blacklist {
    /// Wraps an already-ordered rule list.
    pub fn build(list: Vec<Filter>) -> (r: Self)
        ensures
            r@ == list@,
    {
        Blacklist { list }
    }

    /// Decides the action for one TCP event by scanning the rules in order
    /// and returning the action of the first whose source and destination
    /// predicates both hold, together with that rule's index; no match
    /// means `Ignore` under the list's length.  When a hostname regex is
    /// reached whose endpoint neither the learner nor `lookups` settles,
    /// the engine instead asks for that IP to be reverse-resolved.
    pub fn get_packet_action(
        &self,
        tcp_details: TcpEndpoints,
        rd: &Resolved,
        lookups: &Vec<(IpAddress, Option<String>)>,
    ) -> (r: Decision)
        ensures
            decision_consistent(self@, tcp_details, rd@, lookups@, r),
    {
        let (src, _src_port, src_mac, dst, _dst_port, dst_mac) = tcp_details;
        let ghost ev = tcp_details;
        let n = self.list.len();
        let mut i: usize = 0;
        proof {
            assert(self@.skip(0) =~= self@);
        }
        while i < n
            invariant
                n == self@.len(),
                i <= n,
                ev == tcp_details,
                src == ev.0 && src_mac == ev.2 && dst == ev.3 && dst_mac == ev.5,
                decide_spec(self@.skip(i as int), ev, rd@, lookups@) == decide_spec(
                    self@,
                    ev,
                    rd@,
                    lookups@,
                ),
                first_match_idx(self@, ev, rd@, lookups@) == i + first_match_idx(
                    self@.skip(i as int),
                    ev,
                    rd@,
                    lookups@,
                ),
                lookup_needed(self@, ev, rd@, lookups@, ev.0) == lookup_needed(
                    self@.skip(i as int),
                    ev,
                    rd@,
                    lookups@,
                    ev.0,
                ),
                lookup_needed(self@, ev, rd@, lookups@, ev.3) == lookup_needed(
                    self@.skip(i as int),
                    ev,
                    rd@,
                    lookups@,
                    ev.3,
                ),
            decreases n - i,
        {
            let fil = &self.list[i];
            proof {
                assert(self@.skip(i as int)[0] == self@[i as int]);
                assert(self@.skip(i as int).skip(1) =~= self@.skip(i as int + 1));
            }
            let src_res = eval_pred(&fil.src, &src, &src_mac, rd, lookups);
            match src_res {
                Err(ip) => {
                    proof {
                        assert(lookup_needed(self@.skip(i as int), ev, rd@, lookups@, ev.0));
                    }
                    return Decision::NeedLookup(ip);
                },
                Ok(true) => {
                    let dst_res = eval_pred(&fil.dst, &dst, &dst_mac, rd, lookups);
                    match dst_res {
                        Err(ip) => {
                            proof {
                                assert(lookup_needed(
                                    self@.skip(i as int),
                                    ev,
                                    rd@,
                                    lookups@,
                                    ev.3,
                                ));
                                if ev.0 != ev.3 {
                                    assert(!lookup_needed(
                                        self@.skip(i as int),
                                        ev,
                                        rd@,
                                        lookups@,
                                        ev.0,
                                    ));
                                }
                            }
                            return Decision::NeedLookup(ip);
                        },
                        Ok(true) => {
                            proof {
                                assert(rule_matches(&self@[i as int], ev, rd@, lookups@));
                                assert(first_match_idx(self@.skip(i as int), ev, rd@, lookups@)
                                    == 0);
                                assert(!lookup_needed(
                                    self@.skip(i as int),
                                    ev,
                                    rd@,
                                    lookups@,
                                    ev.0,
                                ));
                                assert(!lookup_needed(
                                    self@.skip(i as int),
                                    ev,
                                    rd@,
                                    lookups@,
                                    ev.3,
                                ));
                            }
                            return Decision::Act(fil.mode, i);
                        },
                        Ok(false) => {},
                    }
                },
                Ok(false) => {},
            }
            i = i + 1;
        }
        proof {
            assert(self@.skip(n as int) =~= Seq::<Filter>::empty());
        }
        Decision::Act(PacketAction::Ignore, n)
    }
}

/// Where a rule belongs in an ordered list: after every rule of equal or
/// lower weight, before the rest.
pub open spec fn insert_sorted(s: Seq<Filter>, f: Filter) -> Seq<Filter>
    decreases s.len(),
{
    if s.len() == 0 {
        seq![f]
    } else if s.last().weight() <= f.weight() {
        s.push(f)
    } else {
        insert_sorted(s.drop_last(), f).push(s.last())
    }
}

/// The stable ascending-weight ordering of a rule list: each rule inserted
/// in turn after the rules of equal or lower weight.
pub open spec fn sort_filters_spec(s: Seq<Filter>) -> Seq<Filter>
    decreases s.len(),
{
    if s.len() == 0 {
        Seq::empty()
    } else {
        insert_sorted(sort_filters_spec(s.drop_last()), s.last())
    }
}

/// Adjacent rules are in ascending weight order.
pub open spec fn sorted_by_weight(s: Seq<Filter>) -> bool {
    forall|k: int| 0 <= k < s.len() - 1 ==> (#[trigger] s[k]).weight() <= s[k + 1].weight()
}

/// In a weight-ordered list every earlier rule weighs at most any later one.
proof fn lemma_sorted_pairwise(s: Seq<Filter>, a: int, b: int)
    requires
        sorted_by_weight(s),
        0 <= a <= b < s.len(),
    ensures
        s[a].weight() <= s[b].weight(),
    decreases b - a,
{
    if a < b {
        lemma_sorted_pairwise(s, a, b - 1);
    }
}

/// Inserting into a weight-ordered list keeps it ordered, and the new last
/// rule weighs at most the heavier of the old last rule and the new one.
proof fn lemma_insert_sorted_sorted(s: Seq<Filter>, f: Filter)
    requires
        sorted_by_weight(s),
    ensures
        sorted_by_weight(insert_sorted(s, f)),
        insert_sorted(s, f).len() == s.len() + 1,
        insert_sorted(s, f).last().weight() <= vstd::math::max(
            f.weight(),
            if s.len() == 0 {
                f.weight()
            } else {
                s.last().weight()
            },
        ),
    decreases s.len(),
{
    if s.len() == 0 {
        assert(sorted_by_weight(seq![f]));
    } else if s.last().weight() <= f.weight() {
        let r = s.push(f);
        assert(forall|k: int| 0 <= k < s.len() ==> (#[trigger] r[k]) == s[k]);
        assert(sorted_by_weight(r));
    } else {
        assert(sorted_by_weight(s.drop_last())) by {
            assert(forall|k: int| 0 <= k < s.len() - 1 ==> (#[trigger] s.drop_last()[k]) == s[k]);
        }
        lemma_insert_sorted_sorted(s.drop_last(), f);
        let inner = insert_sorted(s.drop_last(), f);
        if s.len() >= 2 {
            lemma_sorted_pairwise(s, s.len() - 2, s.len() - 1);
            assert(s.drop_last().last() == s[s.len() - 2]);
        }
        assert(inner.last().weight() <= s.last().weight());
        let r = inner.push(s.last());
        assert(forall|k: int| 0 <= k < inner.len() ==> (#[trigger] r[k]) == inner[k]);
        assert(sorted_by_weight(r));
    }
}

/// The ordering law: a sorted rule list has ascending adjacent weights.
pub proof fn lemma_sort_filters_sorted(s: Seq<Filter>)
    ensures
        sorted_by_weight(sort_filters_spec(s)),
        sort_filters_spec(s).len() == s.len(),
    decreases s.len(),
{
    if s.len() > 0 {
        lemma_sort_filters_sorted(s.drop_last());
        lemma_insert_sorted_sorted(sort_filters_spec(s.drop_last()), s.last());
    }
}

/// Inserting at the first position whose rule outweighs `f` realises
/// [`insert_sorted`].
proof fn lemma_insert_sorted_at(s: Seq<Filter>, f: Filter, p: int)
    requires
        0 <= p <= s.len(),
        forall|j: int| 0 <= j < p ==> (#[trigger] s[j]).weight() <= f.weight(),
        forall|j: int| p <= j < s.len() ==> (#[trigger] s[j]).weight() > f.weight(),
    ensures
        insert_sorted(s, f) == s.insert(p, f),
    decreases s.len(),
{
    if s.len() == 0 {
        assert(insert_sorted(s, f) =~= s.insert(p, f));
    } else if s.last().weight() <= f.weight() {
        assert(p == s.len());
        assert(s.push(f) =~= s.insert(p, f));
    } else {
        assert(forall|j: int| 0 <= j < p ==> (#[trigger] s.drop_last()[j]) == s[j]);
        assert(forall|j: int|
            p <= j < s.len() - 1 ==> (#[trigger] s.drop_last()[j]) == s[j]);
        lemma_insert_sorted_at(s.drop_last(), f, p);
        assert(insert_sorted(s, f) =~= s.insert(p, f)) by {
            assert(insert_sorted(s, f) == s.drop_last().insert(p, f).push(s.last()));
        }
    }
}

/// Inserts one rule into a weight-ordered list, after every rule of equal
/// or lower weight, keeping the list ordered.
pub fn insert_filter_sorted(v: &mut Vec<Filter>, f: Filter)
    requires
        sorted_by_weight(old(v)@),
    ensures
        final(v)@ == insert_sorted(old(v)@, f),
        sorted_by_weight(final(v)@),
{
    let wf = f.get_weight();
    let n = v.len();
    let mut p: usize = 0;
    while p < n
        invariant_except_break
            n == v@.len(),
            p <= n,
            wf as int == f.weight(),
            forall|j: int| 0 <= j < p ==> (#[trigger] v@[j]).weight() <= wf,
        ensures
            n == v@.len(),
            p <= n,
            wf as int == f.weight(),
            forall|j: int| 0 <= j < p ==> (#[trigger] v@[j]).weight() <= wf,
            p == n || v@[p as int].weight() > wf,
        decreases n - p,
    {
        let w = v[p].get_weight();
        if w > wf {
            break ;
        }
        p = p + 1;
    }
    let ghost before = v@;
    proof {
        if p < n {
            assert forall|j: int| p <= j < before.len() implies (#[trigger] before[j]).weight()
                > f.weight() by {
                lemma_sorted_pairwise(before, p as int, j);
            }
        }
        lemma_insert_sorted_at(before, f, p as int);
        lemma_insert_sorted_sorted(before, f);
    }
    v.insert(p, f);
}

} // verus!
