//! Per-IP rules: where the rule of a client is kept, and what the attempt to
//! read it amounts to.

use vstd::prelude::*;
use vstd::string::StringExecFns;
use crate::configdb::IpRule;

verus! {

/// What reading the rule file of a client gave.
pub enum RuleFile {
    /// There is no file for the client.
    Missing,
    /// The file is there but could not be read.
    Unreadable,
    /// The file was read but does not hold a rule.
    Invalid,
    /// The rule that the file holds.
    Loaded(IpRule),
}

/// Name of the rule file of the client `ip` in the directory `dir`.
pub open spec fn rule_path(dir: Seq<char>, ip: Seq<char>) -> Seq<char> {
    dir + "/"@ + ip + ".yaml"@
}

/// Name of the rule file of the client `ip` in the directory `dir`.
pub fn rule_filename(dir: &str, ip: &str) -> (name: String)
    ensures
        name@ == rule_path(dir@, ip@),
{
    let mut name = String::from_str(dir);
    name.append("/");
    name.append(ip);
    name.append(".yaml");
    name
}

/// The rule of a client, given what reading its rule file gave, and whether
/// the failure deserves a warning. A client without a file has no rule, and
/// that is no failure; a file that cannot be read or understood counts as no
/// rule, with a warning.
pub fn get_ip_rule(file: RuleFile) -> (res: (Option<IpRule>, bool))
    ensures
        res.0 == (match file {
            RuleFile::Loaded(rule) => Some(rule),
            _ => None,
        }),
        res.1 == (file is Unreadable || file is Invalid),
{
    match file {
        RuleFile::Loaded(rule) => (Some(rule), false),
        RuleFile::Missing => (None, false),
        RuleFile::Unreadable => (None, true),
        RuleFile::Invalid => (None, true),
    }
}

} // verus!
