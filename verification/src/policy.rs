//! Ingress policy: which connections and requests are let through.

use vstd::prelude::*;
use crate::configdb::{GenericRuleGress, General, IpRule, IpRuleView, RuleGress};
use crate::text::contains_str;

verus! {

/// The per-IP rule as plain values, if there is a rule.
pub open spec fn ip_rule_view(rule: Option<IpRule>) -> Option<IpRuleView> {
    match rule {
        Some(r) => Some(r@),
        None => None,
    }
}

/// The verdict of the per-IP rule, if there is a rule.
pub open spec fn ip_ingress(rule: Option<IpRuleView>) -> Option<RuleGress> {
    match rule {
        Some(r) => Some(r.ingress),
        None => None,
    }
}

/// Connection-level gate: an explicit per-IP verdict decides; without one
/// the global default does.
pub open spec fn admits(ip: Option<RuleGress>, default_ingress: GenericRuleGress) -> bool {
    match ip {
        Some(RuleGress::Allow) => true,
        Some(RuleGress::Deny) => false,
        _ => default_ingress == GenericRuleGress::Allow,
    }
}

/// Request-level gate of the per-location rule: `Deny` refuses, `GenericRule`
/// follows the global default, `Allow` and the absence of a rule let through.
pub open spec fn location_admits(
    location: Option<RuleGress>,
    default_ingress: GenericRuleGress,
) -> bool {
    match location {
        Some(RuleGress::Deny) => false,
        Some(RuleGress::GenericRule) => default_ingress == GenericRuleGress::Allow,
        _ => true,
    }
}

/// Request-level gate of the per-IP rule: the location must not be
/// blacklisted, and must be whitelisted if the whitelist is not empty.
pub open spec fn ip_admits_location(rule: Option<IpRuleView>, location: Seq<char>) -> bool {
    match rule {
        None => true,
        Some(r) => !r.blacklisted_locations.contains(location) && (r.whitelist_location.len() == 0
            || r.whitelist_location.contains(location)),
    }
}

/// Whether a new connection from the client with rule `ip_rule` is accepted.
pub fn admit_connection(ip_rule: &Option<IpRule>, general: &General) -> (b: bool)
    ensures
        b == admits(ip_ingress(ip_rule_view(*ip_rule)), general.ingress),
{
    let default_allows = match general.ingress {
        GenericRuleGress::Allow => true,
        GenericRuleGress::Deny => false,
    };
    match ip_rule {
        Some(rule) => match rule.ingress {
            RuleGress::Allow => true,
            RuleGress::Deny => false,
            RuleGress::GenericRule => default_allows,
        },
        None => default_allows,
    }
}

/// Whether the per-location verdict lets a request through.
pub fn admit_location(location: Option<RuleGress>, default_ingress: GenericRuleGress) -> (b: bool)
    ensures
        b == location_admits(location, default_ingress),
{
    match location {
        Some(RuleGress::Deny) => false,
        Some(RuleGress::GenericRule) => match default_ingress {
            GenericRuleGress::Allow => true,
            GenericRuleGress::Deny => false,
        },
        _ => true,
    }
}

/// Whether the per-IP rule lets a request for `location` through.
pub fn admit_ip_location(ip_rule: &Option<IpRule>, location: &str) -> (b: bool)
    ensures
        b == ip_admits_location(ip_rule_view(*ip_rule), location@),
{
    match ip_rule {
        None => true,
        Some(rule) => {
            if contains_str(&rule.blacklisted_locations, location) {
                false
            } else {
                rule.whitelist_location.len() == 0 || contains_str(
                    &rule.whitelist_location,
                    location,
                )
            }
        },
    }
}

/// Whether a request passes both gates that go by verdicts: that of its
/// connection and that of its location.
pub open spec fn permits(
    ip: Option<RuleGress>,
    location: Option<RuleGress>,
    default_ingress: GenericRuleGress,
) -> bool {
    admits(ip, default_ingress) && location_admits(location, default_ingress)
}

/// The checks that can refuse a request, from the highest priority down.
pub enum Check {
    /// The per-IP rule says `Deny`.
    IpDeny,
    /// The global default is `Deny` and the per-IP rule does not say `Allow`.
    DefaultDeny,
    /// The per-location rule says `Deny`.
    LocationDeny,
    /// The per-location rule defers to the global default, which is `Deny`.
    LocationDefault,
}

/// Whether `check` refuses.
pub open spec fn refuses(
    check: Check,
    ip: Option<RuleGress>,
    location: Option<RuleGress>,
    default_ingress: GenericRuleGress,
) -> bool {
    match check {
        Check::IpDeny => ip == Some(RuleGress::Deny),
        Check::DefaultDeny => default_ingress == GenericRuleGress::Deny && ip != Some(
            RuleGress::Allow,
        ),
        Check::LocationDeny => location == Some(RuleGress::Deny),
        Check::LocationDefault => location == Some(RuleGress::GenericRule) && default_ingress
            == GenericRuleGress::Deny,
    }
}

/// The checks in the order of their priority.
pub open spec fn priority_order() -> Seq<Check> {
    seq![Check::IpDeny, Check::DefaultDeny, Check::LocationDeny, Check::LocationDefault]
}

/// The verdict when the checks are made in the given order: the first check
/// that refuses decides, and a request that none refuses is let through.
pub open spec fn permitted_in_order(
    order: Seq<Check>,
    ip: Option<RuleGress>,
    location: Option<RuleGress>,
    default_ingress: GenericRuleGress,
) -> bool
    decreases order.len(),
{
    if order.len() == 0 {
        true
    } else if refuses(order[0], ip, location, default_ingress) {
        false
    } else {
        permitted_in_order(order.drop_first(), ip, location, default_ingress)
    }
}

/// A request is let through in a given order exactly if no check of that
/// order refuses it.
pub proof fn lemma_permitted_in_order(
    order: Seq<Check>,
    ip: Option<RuleGress>,
    location: Option<RuleGress>,
    default_ingress: GenericRuleGress,
)
    ensures
        permitted_in_order(order, ip, location, default_ingress) <==> forall|i: int|
            0 <= i < order.len() ==> !refuses(#[trigger] order[i], ip, location, default_ingress),
    decreases order.len(),
{
    if order.len() > 0 {
        let rest = order.drop_first();
        lemma_permitted_in_order(rest, ip, location, default_ingress);
        if permitted_in_order(order, ip, location, default_ingress) {
            assert forall|i: int| 0 <= i < order.len() implies !refuses(
                #[trigger] order[i],
                ip,
                location,
                default_ingress,
            ) by {
                if i > 0 {
                    assert(order[i] == rest[i - 1]);
                }
            }
        } else if !refuses(order[0], ip, location, default_ingress) {
            let i = choose|i: int|
                0 <= i < rest.len() && refuses(#[trigger] rest[i], ip, location, default_ingress);
        }
    }
}

/// Policy precedence: in whatever order the four checks are made, the verdict
/// is the one that the order of priority gives, which is that of the two
/// gates.
pub proof fn lemma_policy_precedence(
    order: Seq<Check>,
    ip: Option<RuleGress>,
    location: Option<RuleGress>,
    default_ingress: GenericRuleGress,
)
    requires
        forall|check: Check| order.contains(check),
    ensures
        permitted_in_order(order, ip, location, default_ingress) == permitted_in_order(
            priority_order(),
            ip,
            location,
            default_ingress,
        ),
        permitted_in_order(order, ip, location, default_ingress) == permits(
            ip,
            location,
            default_ingress,
        ),
{
    lemma_permitted_in_order(order, ip, location, default_ingress);
    lemma_permitted_in_order(priority_order(), ip, location, default_ingress);
    assert(order.contains(Check::IpDeny) && order.contains(Check::DefaultDeny) && order.contains(
        Check::LocationDeny,
    ) && order.contains(Check::LocationDefault));
}

} // verus!
