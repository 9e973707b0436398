//! The in-memory list of per-location rules.

use vstd::prelude::*;
use crate::configdb::{LocationRule, LocationRuleView};
use crate::text::str_eq;

verus! {

/// The rules that are in force, in the order in which they were loaded.
pub struct LocationRules {
    pub rules: Vec<LocationRule>,
}

impl View for LocationRules {
    type V = Seq<LocationRuleView>;

    open spec fn view(&self) -> Seq<LocationRuleView> {
        self.rules@.map_values(|r: LocationRule| r@)
    }
}

/// Whether `rule` is the rule for `(method, location)`.
pub open spec fn rule_matches(rule: LocationRuleView, method: Seq<char>, location: Seq<char>) -> bool {
    rule.method == method && rule.location == location
}

/// Index of the first rule for `(method, location)`, or the length of the
/// list when there is none.
pub open spec fn first_match(rules: Seq<LocationRuleView>, method: Seq<char>, location: Seq<char>) -> int
    decreases rules.len(),
{
    if rules.len() == 0 || rule_matches(rules[0], method, location) {
        0
    } else {
        1 + first_match(rules.drop_first(), method, location)
    }
}

/// The first rule for `(method, location)`, if any.
pub open spec fn location_rule_of(
    rules: Seq<LocationRuleView>,
    method: Seq<char>,
    location: Seq<char>,
) -> Option<LocationRuleView> {
    let i = first_match(rules, method, location);
    if 0 <= i < rules.len() {
        Some(rules[i])
    } else {
        None
    }
}

/// `first_match` is the least index of a matching rule.
pub proof fn lemma_first_match(rules: Seq<LocationRuleView>, method: Seq<char>, location: Seq<char>)
    ensures
        0 <= first_match(rules, method, location) <= rules.len(),
        forall|j: int|
            0 <= j < first_match(rules, method, location) ==> !rule_matches(
                #[trigger] rules[j],
                method,
                location,
            ),
        first_match(rules, method, location) < rules.len() ==> rule_matches(
            rules[first_match(rules, method, location)],
            method,
            location,
        ),
    decreases rules.len(),
{
    if rules.len() > 0 && !rule_matches(rules[0], method, location) {
        let t = rules.drop_first();
        lemma_first_match(t, method, location);
        assert forall|j: int| 0 <= j < first_match(rules, method, location) implies !rule_matches(
            #[trigger] rules[j],
            method,
            location,
        ) by {
            if j > 0 {
                assert(rules[j] == t[j - 1]);
            }
        }
    }
}

/// An index that matches, with none before it matching, is the first match.
pub proof fn lemma_first_match_is(
    rules: Seq<LocationRuleView>,
    method: Seq<char>,
    location: Seq<char>,
    i: int,
)
    requires
        0 <= i <= rules.len(),
        forall|j: int| 0 <= j < i ==> !rule_matches(#[trigger] rules[j], method, location),
        i < rules.len() ==> rule_matches(rules[i], method, location),
    ensures
        first_match(rules, method, location) == i,
{
    lemma_first_match(rules, method, location);
}

impl LocationRules {
    /// The empty list.
    pub fn new() -> (r: Self)
        ensures
            r.rules@ == Seq::<LocationRule>::empty(),
            r@ == Seq::<LocationRuleView>::empty(),
    {
        LocationRules { rules: Vec::new() }
    }
}

/// Looks up the rule for a request: the first rule whose method and location
/// both equal the arguments.
pub fn get_location_rule(list: &LocationRules, method: &str, location: &str) -> (res: Option<
    LocationRule,
>)
    ensures
        match res {
            Some(rule) => location_rule_of(list@, method@, location@) == Some(rule@),
            None => location_rule_of(list@, method@, location@) is None,
        },
{
    let mut i: usize = 0;
    while i < list.rules.len()
        invariant
            i <= list.rules.len(),
            forall|j: int| 0 <= j < i ==> !rule_matches(#[trigger] list@[j], method@, location@),
        decreases list.rules.len() - i,
    {
        let rule = &list.rules[i];
        if str_eq(rule.method.as_str(), method) && str_eq(rule.location.as_str(), location) {
            proof {
                lemma_first_match_is(list@, method@, location@, i as int);
            }
            return Some(rule.clone());
        }
        i += 1;
    }
    proof {
        lemma_first_match_is(list@, method@, location@, i as int);
    }
    None
}

/// Replaces the whole list by `rules`, in their order.
pub fn load_rules(list: &mut LocationRules, rules: Vec<LocationRule>)
    ensures
        final(list)@ == rules@.map_values(|r: LocationRule| r@),
{
    list.rules = rules;
}

} // verus!
