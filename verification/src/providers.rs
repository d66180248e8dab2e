//! The provider registry: which normalization rules each known mailbox
//! provider applies, and the MX domain suffixes that identify it.
use vstd::prelude::*;

verus! {

use vstd::string::StringExecFns;

/// A single normalization rule a provider may apply.
#[derive(Copy, Clone, PartialEq, Eq, Structural, Debug, Hash)]
pub enum Rules {
    DashAddressing,
    PlusAddressing,
    LocalPartAsHostName,
    StripPeriods,
}

/// The set of rules a provider applies, one flag per rule. The engine
/// applies present rules in one fixed order, not in any set order.
#[derive(Copy, Clone, PartialEq, Eq, Structural, Debug)]
pub struct RuleSet {
    pub dash_addressing: bool,
    pub plus_addressing: bool,
    pub local_part_as_host_name: bool,
    pub strip_periods: bool,
}

impl RuleSet {
    /// Whether rule `r` is in the set.
    pub open spec fn spec_contains(self, r: Rules) -> bool {
        match r {
            Rules::DashAddressing => self.dash_addressing,
            Rules::PlusAddressing => self.plus_addressing,
            Rules::LocalPartAsHostName => self.local_part_as_host_name,
            Rules::StripPeriods => self.strip_periods,
        }
    }

    /// The empty rule set.
    pub fn empty() -> (s: RuleSet)
        ensures
            s == (RuleSet {
                dash_addressing: false,
                plus_addressing: false,
                local_part_as_host_name: false,
                strip_periods: false,
            }),
    {
        RuleSet {
            dash_addressing: false,
            plus_addressing: false,
            local_part_as_host_name: false,
            strip_periods: false,
        }
    }

    /// The set with rule `r` added.
    pub fn with(self, r: Rules) -> (s: RuleSet)
        ensures
            s.dash_addressing == (r == Rules::DashAddressing || self.dash_addressing),
            s.plus_addressing == (r == Rules::PlusAddressing || self.plus_addressing),
            s.local_part_as_host_name == (r == Rules::LocalPartAsHostName
                || self.local_part_as_host_name),
            s.strip_periods == (r == Rules::StripPeriods || self.strip_periods),
    {
        let mut s = self;
        match r {
            Rules::DashAddressing => {
                s.dash_addressing = true;
            },
            Rules::PlusAddressing => {
                s.plus_addressing = true;
            },
            Rules::LocalPartAsHostName => {
                s.local_part_as_host_name = true;
            },
            Rules::StripPeriods => {
                s.strip_periods = true;
            },
        }
        s
    }

    /// Membership test for rule `r`.
    pub fn contains(&self, r: Rules) -> (b: bool)
        ensures
            b == self.spec_contains(r),
    {
        match r {
            Rules::DashAddressing => self.dash_addressing,
            Rules::PlusAddressing => self.plus_addressing,
            Rules::LocalPartAsHostName => self.local_part_as_host_name,
            Rules::StripPeriods => self.strip_periods,
        }
    }
}

/// A mailbox provider: its name, the rules it applies, and the MX domain
/// suffixes (each matched on a label boundary) that identify it.
#[derive(Debug)]
pub struct Provider {
    pub rules: RuleSet,
    pub mx_domains: Vec<String>,
    pub name: String,
}

fn make_provider(name: &str, domains: Vec<String>, rules: RuleSet) -> (p: Provider)
    ensures
        p.name@ == name@,
        p.mx_domains == domains,
        p.rules == rules,
{
    Provider { rules, mx_domains: domains, name: name.to_owned() }
}

fn one_domain(d: &str) -> (v: Vec<String>)
    ensures
        v@.len() == 1,
        v@[0]@ == d@,
{
    let mut v: Vec<String> = Vec::new();
    v.push(d.to_owned());
    v
}

/// Exactly the built-in registry: nine providers, in registration
/// order, each with its rules and MX domain suffixes.
pub open spec fn is_default_registry(ps: Seq<Provider>) -> bool {
    &&& ps.len() == 9
    &&& ps[0].name@ == "APPLE"@
    &&& ps[0].rules == (RuleSet {
        dash_addressing: false,
        plus_addressing: true,
        local_part_as_host_name: false,
        strip_periods: false,
    })
    &&& ps[0].mx_domains@.len() == 1
    &&& ps[0].mx_domains@[0]@ == "icloud.com"@
    &&& ps[1].name@ == "FAST_MAIL"@
    &&& ps[1].rules == (RuleSet {
        dash_addressing: false,
        plus_addressing: true,
        local_part_as_host_name: true,
        strip_periods: false,
    })
    &&& ps[1].mx_domains@.len() == 1
    &&& ps[1].mx_domains@[0]@ == "messagingengine.com"@
    &&& ps[2].name@ == "GOOGLE"@
    &&& ps[2].rules == (RuleSet {
        dash_addressing: false,
        plus_addressing: true,
        local_part_as_host_name: false,
        strip_periods: true,
    })
    &&& ps[2].mx_domains@.len() == 1
    &&& ps[2].mx_domains@[0]@ == "google.com"@
    &&& ps[3].name@ == "MICROSOFT"@
    &&& ps[3].rules == (RuleSet {
        dash_addressing: false,
        plus_addressing: true,
        local_part_as_host_name: false,
        strip_periods: false,
    })
    &&& ps[3].mx_domains@.len() == 1
    &&& ps[3].mx_domains@[0]@ == "outlook.com"@
    &&& ps[4].name@ == "PROTONMAIL"@
    &&& ps[4].rules == (RuleSet {
        dash_addressing: false,
        plus_addressing: true,
        local_part_as_host_name: false,
        strip_periods: false,
    })
    &&& ps[4].mx_domains@.len() == 1
    &&& ps[4].mx_domains@[0]@ == "protonmail.ch"@
    &&& ps[5].name@ == "RACKSPACE"@
    &&& ps[5].rules == (RuleSet {
        dash_addressing: false,
        plus_addressing: true,
        local_part_as_host_name: false,
        strip_periods: false,
    })
    &&& ps[5].mx_domains@.len() == 1
    &&& ps[5].mx_domains@[0]@ == "emailsrvr.com"@
    &&& ps[6].name@ == "YAHOO"@
    &&& ps[6].rules == (RuleSet {
        dash_addressing: true,
        plus_addressing: false,
        local_part_as_host_name: false,
        strip_periods: true,
    })
    &&& ps[6].mx_domains@.len() == 1
    &&& ps[6].mx_domains@[0]@ == "yahoodns.net"@
    &&& ps[7].name@ == "YANDEX"@
    &&& ps[7].rules == (RuleSet {
        dash_addressing: false,
        plus_addressing: true,
        local_part_as_host_name: false,
        strip_periods: false,
    })
    &&& ps[7].mx_domains@.len() == 2
    &&& ps[7].mx_domains@[0]@ == "mx.yandex.net"@
    &&& ps[7].mx_domains@[1]@ == "yandex.ru"@
    &&& ps[8].name@ == "ZOHOO"@
    &&& ps[8].rules == (RuleSet {
        dash_addressing: false,
        plus_addressing: true,
        local_part_as_host_name: false,
        strip_periods: false,
    })
    &&& ps[8].mx_domains@.len() == 1
    &&& ps[8].mx_domains@[0]@ == "zoho.com"@
}

/// The built-in registry, in registration order. Registration order is
/// the classification tie-break: the earliest matching provider wins.
pub fn default_providers() -> (r: Vec<Provider>)
    ensures
        is_default_registry(r@),
{
    let plus_only = RuleSet::empty().with(Rules::PlusAddressing);
    let mut r: Vec<Provider> = Vec::new();
    r.push(make_provider("APPLE", one_domain("icloud.com"), plus_only));
    r.push(
        make_provider(
            "FAST_MAIL",
            one_domain("messagingengine.com"),
            plus_only.with(Rules::LocalPartAsHostName),
        ),
    );
    r.push(make_provider("GOOGLE", one_domain("google.com"), plus_only.with(Rules::StripPeriods)));
    r.push(make_provider("MICROSOFT", one_domain("outlook.com"), plus_only));
    r.push(make_provider("PROTONMAIL", one_domain("protonmail.ch"), plus_only));
    r.push(make_provider("RACKSPACE", one_domain("emailsrvr.com"), plus_only));
    r.push(
        make_provider(
            "YAHOO",
            one_domain("yahoodns.net"),
            RuleSet::empty().with(Rules::DashAddressing).with(Rules::StripPeriods),
        ),
    );
    let mut yandex_domains = one_domain("mx.yandex.net");
    yandex_domains.push(String::from_str("yandex.ru"));
    r.push(make_provider("YANDEX", yandex_domains, plus_only));
    r.push(make_provider("ZOHOO", one_domain("zoho.com"), plus_only));
    r
}

} // verus!
