//! Policy and configuration records, with their mathematical views.

use vstd::prelude::*;

verus! {

/// Ingress verdict of a per-IP or per-location rule. `GenericRule` inherits
/// the global default.
#[derive(Debug, Clone, Copy, PartialEq, Eq, Structural)]
pub enum RuleGress {
    GenericRule,
    Allow,
    Deny,
}

impl Default for RuleGress {
    fn default() -> (r: Self)
        ensures
            r == RuleGress::GenericRule,
    {
        RuleGress::GenericRule
    }
}

/// Global default ingress verdict.
#[derive(Debug, Clone, Copy, PartialEq, Eq, Structural)]
pub enum GenericRuleGress {
    Allow,
    Deny,
}

impl Default for GenericRuleGress {
    fn default() -> (r: Self)
        ensures
            r == GenericRuleGress::Allow,
    {
        GenericRuleGress::Allow
    }
}

/// View of a list of strings: the list of their character sequences.
pub open spec fn strings_view(v: Seq<String>) -> Seq<Seq<char>> {
    v.map_values(|s: String| s@)
}

/// A copy of a list of strings.
pub fn clone_strings(v: &Vec<String>) -> (r: Vec<String>)
    ensures
        strings_view(r@) == strings_view(v@),
{
    let mut r: Vec<String> = Vec::new();
    let mut i: usize = 0;
    while i < v.len()
        invariant
            i <= v.len(),
            r@.len() == i,
            forall|j: int| 0 <= j < i ==> (#[trigger] r@[j])@ == v@[j]@,
        decreases v.len() - i,
    {
        r.push(v[i].clone());
        i += 1;
    }
    r
}

/// Rule for one client IP.
#[derive(Debug)]
pub struct IpRule {
    pub ip: String,
    pub ingress: RuleGress,
    pub bypass_protection: bool,
    pub limit_rate: usize,
    pub blacklisted_locations: Vec<String>,
    pub whitelist_location: Vec<String>,
}

/// An `IpRule` as plain values.
pub struct IpRuleView {
    pub ip: Seq<char>,
    pub ingress: RuleGress,
    pub bypass_protection: bool,
    pub limit_rate: usize,
    pub blacklisted_locations: Seq<Seq<char>>,
    pub whitelist_location: Seq<Seq<char>>,
}

impl View for IpRule {
    type V = IpRuleView;

    open spec fn view(&self) -> IpRuleView {
        IpRuleView {
            ip: self.ip@,
            ingress: self.ingress,
            bypass_protection: self.bypass_protection,
            limit_rate: self.limit_rate,
            blacklisted_locations: strings_view(self.blacklisted_locations@),
            whitelist_location: strings_view(self.whitelist_location@),
        }
    }
}

impl Clone for IpRule {
    fn clone(&self) -> (r: Self)
        ensures
            r@ == self@,
    {
        IpRule {
            ip: self.ip.clone(),
            ingress: self.ingress,
            bypass_protection: self.bypass_protection,
            limit_rate: self.limit_rate,
            blacklisted_locations: clone_strings(&self.blacklisted_locations),
            whitelist_location: clone_strings(&self.whitelist_location),
        }
    }
}

impl Default for IpRule {
    fn default() -> (r: Self)
        ensures
            r@ == (IpRuleView {
                ip: Seq::empty(),
                ingress: RuleGress::GenericRule,
                bypass_protection: false,
                limit_rate: 0,
                blacklisted_locations: Seq::empty(),
                whitelist_location: Seq::empty(),
            }),
    {
        let r = IpRule {
            ip: String::new(),
            ingress: RuleGress::GenericRule,
            bypass_protection: false,
            limit_rate: 0,
            blacklisted_locations: Vec::new(),
            whitelist_location: Vec::new(),
        };
        assert(r@.whitelist_location =~= Seq::empty());
        r
    }
}

/// Rule for one `(method, location)` pair.
#[derive(Debug)]
pub struct LocationRule {
    pub method: String,
    pub location: String,
    pub ingress: RuleGress,
    pub bypass: bool,
}

/// A `LocationRule` as plain values.
pub struct LocationRuleView {
    pub method: Seq<char>,
    pub location: Seq<char>,
    pub ingress: RuleGress,
    pub bypass: bool,
}

impl View for LocationRule {
    type V = LocationRuleView;

    open spec fn view(&self) -> LocationRuleView {
        LocationRuleView {
            method: self.method@,
            location: self.location@,
            ingress: self.ingress,
            bypass: self.bypass,
        }
    }
}

impl Clone for LocationRule {
    fn clone(&self) -> (r: Self)
        ensures
            r@ == self@,
    {
        LocationRule {
            method: self.method.clone(),
            location: self.location.clone(),
            ingress: self.ingress,
            bypass: self.bypass,
        }
    }
}

impl Default for LocationRule {
    fn default() -> (r: Self)
        ensures
            r@ == (LocationRuleView {
                method: Seq::empty(),
                location: Seq::empty(),
                ingress: RuleGress::GenericRule,
                bypass: false,
            }),
    {
        LocationRule {
            method: String::new(),
            location: String::new(),
            ingress: RuleGress::GenericRule,
            bypass: false,
        }
    }
}

/// Descriptor of one edge server. `conn_count` is carried as configured; the
/// live counter is kept by the registry, not here.
#[derive(Debug)]
pub struct Edge {
    pub destination: String,
    pub destination_port: u16,
    pub resolve_name: String,
    pub maximum_number_of_conn: usize,
    pub conn_count: usize,
    pub requests_per_second: usize,
    pub https: bool,
}

/// An `Edge` as plain values.
pub struct EdgeView {
    pub destination: Seq<char>,
    pub destination_port: u16,
    pub resolve_name: Seq<char>,
    pub maximum_number_of_conn: usize,
    pub conn_count: usize,
    pub requests_per_second: usize,
    pub https: bool,
}

impl View for Edge {
    type V = EdgeView;

    open spec fn view(&self) -> EdgeView {
        EdgeView {
            destination: self.destination@,
            destination_port: self.destination_port,
            resolve_name: self.resolve_name@,
            maximum_number_of_conn: self.maximum_number_of_conn,
            conn_count: self.conn_count,
            requests_per_second: self.requests_per_second,
            https: self.https,
        }
    }
}

impl Clone for Edge {
    fn clone(&self) -> (r: Self)
        ensures
            r@ == self@,
    {
        Edge {
            destination: self.destination.clone(),
            destination_port: self.destination_port,
            resolve_name: self.resolve_name.clone(),
            maximum_number_of_conn: self.maximum_number_of_conn,
            conn_count: self.conn_count,
            requests_per_second: self.requests_per_second,
            https: self.https,
        }
    }
}

impl Default for Edge {
    fn default() -> (r: Self)
        ensures
            r@ == (EdgeView {
                destination: Seq::empty(),
                destination_port: 0,
                resolve_name: Seq::empty(),
                maximum_number_of_conn: 0,
                conn_count: 0,
                requests_per_second: 0,
                https: false,
            }),
    {
        Edge {
            destination: String::new(),
            destination_port: 0,
            resolve_name: String::new(),
            maximum_number_of_conn: 0,
            conn_count: 0,
            requests_per_second: 0,
            https: false,
        }
    }
}

/// Listener settings and the global default verdict.
#[derive(Debug)]
pub struct General {
    pub listen_address: String,
    pub listen_port: u16,
    pub maximum_connections: usize,
    pub https: bool,
    pub ssl_certificate: String,
    pub ssl_certificate_key: String,
    pub ingress: GenericRuleGress,
}

/// A `General` as plain values.
pub struct GeneralView {
    pub listen_address: Seq<char>,
    pub listen_port: u16,
    pub maximum_connections: usize,
    pub https: bool,
    pub ssl_certificate: Seq<char>,
    pub ssl_certificate_key: Seq<char>,
    pub ingress: GenericRuleGress,
}

impl View for General {
    type V = GeneralView;

    open spec fn view(&self) -> GeneralView {
        GeneralView {
            listen_address: self.listen_address@,
            listen_port: self.listen_port,
            maximum_connections: self.maximum_connections,
            https: self.https,
            ssl_certificate: self.ssl_certificate@,
            ssl_certificate_key: self.ssl_certificate_key@,
            ingress: self.ingress,
        }
    }
}

impl Clone for General {
    fn clone(&self) -> (r: Self)
        ensures
            r@ == self@,
    {
        General {
            listen_address: self.listen_address.clone(),
            listen_port: self.listen_port,
            maximum_connections: self.maximum_connections,
            https: self.https,
            ssl_certificate: self.ssl_certificate.clone(),
            ssl_certificate_key: self.ssl_certificate_key.clone(),
            ingress: self.ingress,
        }
    }
}

impl Default for General {
    fn default() -> (r: Self)
        ensures
            r@ == (GeneralView {
                listen_address: Seq::empty(),
                listen_port: 0,
                maximum_connections: 0,
                https: false,
                ssl_certificate: Seq::empty(),
                ssl_certificate_key: Seq::empty(),
                ingress: GenericRuleGress::Allow,
            }),
    {
        General {
            listen_address: String::new(),
            listen_port: 0,
            maximum_connections: 0,
            https: false,
            ssl_certificate: String::new(),
            ssl_certificate_key: String::new(),
            ingress: GenericRuleGress::Allow,
        }
    }
}

} // verus!
