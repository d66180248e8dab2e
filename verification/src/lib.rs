//! Classifies an email address's mailbox provider by resolving the
//! domain's MX records against a known-provider registry, then applies
//! the provider's normalization rules (alias stripping, dot stripping,
//! host-as-local-part folding) to produce a canonical address usable
//! for deduplication. MX lookups are memoized in a TTL cache with
//! bounded least-recently-used eviction; the DNS transport itself is a
//! collaborator the caller supplies as a resolve function.
use vstd::prelude::*;

pub mod cache;
pub mod classify;
pub mod engine;
pub mod providers;
pub mod text;

verus! {

use vstd::string::StringExecFns;

use crate::cache::{
    cache_touched, find_domain, has_fresh, store_post, value_model, MxCache, MxValue, ResolveError,
};
use crate::classify::classify_spec;
use crate::engine::{apply_rules, apply_rules_spec};
use crate::providers::{default_providers, is_default_registry, Provider, RuleSet};
use crate::text::{
    chars_of, count_char, count_in, find_in, first_index_of, is_folded, lemma_count_concat,
    lemma_count_zero_iff, lemma_first_index_props, lemma_first_index_unique, lemma_lower_concat,
    lemma_lower_count_at, lemma_lower_idem, lemma_lower_is_folded, lemma_lower_noop,
    lemma_prefix_absent, lemma_remove_folded, lemma_remove_preserves_absent, lemma_skip_absent,
    lemma_subrange_folded, lower_char, lower_chars, lower_seq, remove_char, string_of, sub_chars,
    truncate_at,
};
use crate::engine::lemma_apply_rules_idempotent;

/// One MX record as the resolver reports it: `(priority, exchange)`.
pub type MxRecord = (u16, String);

/// The mathematical model of a record list: each exchange as its
/// character sequence.
pub open spec fn records_model(s: Seq<MxRecord>) -> Seq<(u16, Seq<char>)> {
    s.map_values(|m: MxRecord| (m.0, m.1@))
}

/// The terminal output of a `normalize` call.
#[derive(Debug)]
pub struct LookupResult {
    pub address: String,
    pub normalized_address: String,
    pub mailbox_provider: Option<String>,
    pub mx_records: Vec<MxRecord>,
}

/// The failures `normalize` can surface: a malformed address, rejected
/// before any resolution, or a resolver failure passed through.
#[derive(Debug)]
pub enum NormalizerError {
    InvalidEmailAt { email: String },
    DnsResolution { domain: String, message: String },
}

/// Cache configuration for a `Normalizer` instance. TTLs and timestamps
/// share one unit (the caller's clock, typically seconds).
#[derive(Copy, Clone, PartialEq, Eq, Structural, Debug)]
pub struct NormalizerConfig {
    pub cache_enabled: bool,
    pub cache_capacity: u32,
    pub success_ttl: u64,
    pub failure_ttl: u64,
    pub cache_failures: bool,
}

pub const DEFAULT_CACHE_CAPACITY: u32 = 128;

pub const DEFAULT_SUCCESS_TTL: u64 = 300;

pub const DEFAULT_FAILURE_TTL: u64 = 30;

/// The lowercased local part of an address with a single `@`.
pub open spec fn local_model(s: Seq<char>) -> Seq<char> {
    lower_seq(s.take(first_index_of(s, '@')))
}

/// The lowercased domain part of an address with a single `@`.
pub open spec fn domain_model(s: Seq<char>) -> Seq<char> {
    lower_seq(s.skip(first_index_of(s, '@') + 1))
}

/// `local@domain` as one character sequence.
pub open spec fn joined(l: Seq<char>, d: Seq<char>) -> Seq<char> {
    l + seq!['@'] + d
}

/// How a lookup's result `r` reflects the outcome model `got` for
/// domain `d`: records are handed through on success, and a failure
/// becomes the typed resolution error for `d`.
pub open spec fn lookup_result_matches(
    r: Result<Vec<MxRecord>, NormalizerError>,
    got: Result<Seq<(u16, Seq<char>)>, Seq<char>>,
    d: Seq<char>,
) -> bool {
    match got {
        Ok(m) => r matches Ok(v) && records_model(v@) == m,
        Err(msg) => r matches Err(e) && (e matches NormalizerError::DnsResolution {
            domain,
            message,
        } && domain@ == d && message@ == msg),
    }
}

/// The resolve function, called on the lowercased domain `d`, may have
/// produced an outcome whose model is `got`.
pub open spec fn resolver_gave<F: Fn(String) -> Result<Vec<MxRecord>, ResolveError>>(
    resolve: F,
    d: Seq<char>,
    got: Result<Seq<(u16, Seq<char>)>, Seq<char>>,
) -> bool {
    exists|s: String, v: MxValue|
        s@ == d && #[trigger] call_ensures(resolve, (s,), v) && value_model(v) == got
}

/// How `normalize`'s result `r` reflects the records or failure `got`
/// obtained for the address `addr`: a failure passes through as the
/// typed error; on records, the first-match provider's rules rewrite
/// the lowercased parts, and an unmatched address is returned
/// lowercased but otherwise unchanged.
pub open spec fn normalize_outcome(
    providers: Seq<Provider>,
    addr: Seq<char>,
    got: Result<Seq<(u16, Seq<char>)>, Seq<char>>,
    r: Result<LookupResult, NormalizerError>,
) -> bool {
    let ll = local_model(addr);
    let dl = domain_model(addr);
    match got {
        Err(msg) => r matches Err(e) && (e matches NormalizerError::DnsResolution {
            domain,
            message,
        } && domain@ == dl && message@ == msg),
        Ok(recs) => r matches Ok(lr) && {
            &&& lr.address@ == addr
            &&& records_model(lr.mx_records@) == recs
            &&& match classify_spec(providers, recs) {
                Some(i) => {
                    &&& lr.mailbox_provider matches Some(n) && n@ == providers[i].name@
                    &&& lr.normalized_address@ == joined(
                        apply_rules_spec(ll, dl, providers[i].rules).0,
                        apply_rules_spec(ll, dl, providers[i].rules).1,
                    )
                },
                None => lr.mailbox_provider is None && lr.normalized_address@ == joined(ll, dl),
            }
        },
    }
}

/// The model of a resolution outcome: record models or the failure
/// message.
pub type MxModel = Result<Seq<(u16, Seq<char>)>, Seq<char>>;

/// How the cache moves on a miss: the fresh outcome is stored when
/// caching is on, and nothing changes when it is off.
pub open spec fn miss_update(
    pre: MxCache,
    post: MxCache,
    cache_enabled: bool,
    dl: Seq<char>,
    got: Result<Seq<(u16, Seq<char>)>, Seq<char>>,
    now: u64,
) -> bool {
    &&& cache_enabled ==> store_post(pre, post, dl, got, now)
    &&& !cache_enabled ==> post == pre
}

/// A cache miss in `mx_records`: some outcome the resolve function may
/// produce for `dl` explains the result, and the cache moved as a miss
/// moves it.
pub open spec fn resolved_lookup<F: Fn(String) -> Result<Vec<MxRecord>, ResolveError>>(
    resolve: F,
    pre: Normalizer,
    post: Normalizer,
    dl: Seq<char>,
    now: u64,
    r: Result<Vec<MxRecord>, NormalizerError>,
) -> bool {
    exists|got: MxModel|
        #[trigger] resolver_gave(resolve, dl, got) && lookup_result_matches(r, got, dl)
            && miss_update(pre.cache, post.cache, pre.cache_enabled, dl, got, now)
}

/// A cache miss in `normalize`: some outcome the resolve function may
/// produce for the address's domain explains the result, and the cache
/// moved as a miss moves it.
pub open spec fn resolved_normalize<F: Fn(String) -> Result<Vec<MxRecord>, ResolveError>>(
    resolve: F,
    pre: Normalizer,
    post: Normalizer,
    addr: Seq<char>,
    now: u64,
    r: Result<LookupResult, NormalizerError>,
) -> bool {
    exists|got: MxModel|
        #[trigger] resolver_gave(resolve, domain_model(addr), got) && normalize_outcome(
            pre.providers@,
            addr,
            got,
            r,
        ) && miss_update(pre.cache, post.cache, pre.cache_enabled, domain_model(addr), got, now)
}

/// A freshly configured instance: the given cache settings and an empty
/// cache.
pub open spec fn configured(n: Normalizer, c: NormalizerConfig) -> bool {
    &&& n.cache_enabled == c.cache_enabled
    &&& n.cache.entries@.len() == 0
    &&& n.cache.capacity == c.cache_capacity
    &&& n.cache.success_ttl == c.success_ttl
    &&& n.cache.failure_ttl == c.failure_ttl
    &&& n.cache.cache_failures == c.cache_failures
}

/// The normalizer facade: the provider registry, the MX cache, and the
/// switch that bypasses the cache entirely.
pub struct Normalizer {
    pub providers: Vec<Provider>,
    pub cache: MxCache,
    pub cache_enabled: bool,
}

impl Normalizer {
    /// The default instance: the built-in registry and a caching
    /// configuration with the default TTLs.
    pub fn new() -> (n: Normalizer)
        ensures
            is_default_registry(n.providers@),
            n.cache_enabled,
            n.cache.entries@.len() == 0,
            n.cache.capacity == DEFAULT_CACHE_CAPACITY,
            n.cache.success_ttl == DEFAULT_SUCCESS_TTL,
            n.cache.failure_ttl == DEFAULT_FAILURE_TTL,
            n.cache.cache_failures,
    {
        Normalizer {
            providers: default_providers(),
            cache: MxCache::new(
                DEFAULT_CACHE_CAPACITY,
                DEFAULT_SUCCESS_TTL,
                DEFAULT_FAILURE_TTL,
                true,
            ),
            cache_enabled: true,
        }
    }

    /// The built-in registry under the given cache configuration.
    pub fn with_config(config: NormalizerConfig) -> (n: Normalizer)
        ensures
            is_default_registry(n.providers@),
            configured(n, config),
    {
        Normalizer {
            providers: default_providers(),
            cache: MxCache::new(
                config.cache_capacity,
                config.success_ttl,
                config.failure_ttl,
                config.cache_failures,
            ),
            cache_enabled: config.cache_enabled,
        }
    }

    /// A substitute registry under the given cache configuration.
    pub fn with_providers(config: NormalizerConfig, providers: Vec<Provider>) -> (n: Normalizer)
        ensures
            n.providers == providers,
            configured(n, config),
    {
        Normalizer {
            providers,
            cache: MxCache::new(
                config.cache_capacity,
                config.success_ttl,
                config.failure_ttl,
                config.cache_failures,
            ),
            cache_enabled: config.cache_enabled,
        }
    }

    /// Splits an address at its single `@` and lowercases both halves;
    /// an address with zero or two or more `@` characters is rejected
    /// before any resolution. For a valid address, rejoining the parts
    /// with `@` reproduces the lowercased original.
    pub fn get_local_and_domain(email_address: &str) -> (r: Result<
        (String, String),
        NormalizerError,
    >)
        ensures
            r is Ok <==> count_char(email_address@, '@') == 1,
            r matches Ok(p) ==> ({
                let s = email_address@;
                &&& p.0@ == local_model(s)
                &&& p.1@ == domain_model(s)
                &&& lower_seq(s) == joined(p.0@, p.1@)
                &&& count_char(p.0@, '@') == 0
                &&& count_char(p.1@, '@') == 0
            }),
            r matches Err(e) ==> e matches NormalizerError::InvalidEmailAt { email } && email@
                == email_address@,
    {
        let v = chars_of(email_address);
        let cnt = count_in(&v, '@');
        if cnt != 1 {
            Err(NormalizerError::InvalidEmailAt { email: email_address.to_owned() })
        } else {
            let fi = find_in(&v, '@');
            proof {
                lemma_first_index_props(v@, '@');
                if fi as int == v@.len() {
                    lemma_count_zero_iff(v@, '@');
                }
                assert((fi as int) < v@.len());
            }
            let vn = v.len();
            let head = sub_chars(&v, 0, fi);
            let tail = sub_chars(&v, fi + 1, vn);
            let head_low = lower_chars(&head);
            let tail_low = lower_chars(&tail);
            let local = string_of(&head_low);
            let domain = string_of(&tail_low);
            proof {
                let s = email_address@;
                let fis = first_index_of(s, '@');
                assert(head@ =~= s.take(fis));
                assert(tail@ =~= s.skip(fis + 1));
                assert(s.take(fis + 1) =~= s.take(fis).push(s[fis]));
                assert(s =~= s.take(fis + 1) + s.skip(fis + 1));
                assert(s.take(fis + 1) =~= s.take(fis) + seq![s[fis]]);
                assert(s =~= s.take(fis) + (seq!['@'] + s.skip(fis + 1)));
                lemma_lower_concat(s.take(fis), seq!['@'] + s.skip(fis + 1));
                lemma_lower_concat(seq!['@'], s.skip(fis + 1));
                assert(seq!['@'].drop_last() =~= Seq::<char>::empty());
                assert(seq!['@'].last() == '@');
                assert(lower_char('@') == '@');
                assert(lower_seq(Seq::<char>::empty()) =~= Seq::<char>::empty());
                assert(lower_seq(seq!['@']) =~= seq!['@']);
                assert(lower_seq(s) == joined(local@, domain@));
                // No `@` survives in either half.
                assert forall|k: int| 0 <= k < s.take(fis).len() implies s.take(fis)[k]
                    != '@' by {
                    assert(s.take(fis)[k] == s[k]);
                }
                lemma_count_zero_iff(s.take(fis), '@');
                assert(s.take(fis + 1).drop_last() =~= s.take(fis));
                assert(count_char(s.take(fis + 1), '@') == 1);
                lemma_count_concat(s.take(fis + 1), s.skip(fis + 1), '@');
                assert(count_char(s.skip(fis + 1), '@') == 0);
                lemma_lower_count_at(s.take(fis));
                lemma_lower_count_at(s.skip(fis + 1));
            }
            Ok((local, domain))
        }
    }

    /// Reinterprets a deep subdomain as the mailbox identity: when the
    /// domain has more than two labels, the first label becomes the
    /// local part and the rest the domain; otherwise both parts pass
    /// through unchanged.
    pub fn local_part_as_hostname(local_part: &str, domain_part: &str) -> (r: (String, String))
        ensures
            count_char(domain_part@, '.') >= 2 ==> r.0@ == truncate_at(domain_part@, '.') && r.1@
                == domain_part@.skip(first_index_of(domain_part@, '.') + 1),
            count_char(domain_part@, '.') < 2 ==> r.0@ == local_part@ && r.1@ == domain_part@,
    {
        let d = chars_of(domain_part);
        let dots = count_in(&d, '.');
        if dots >= 2 {
            let fi = find_in(&d, '.');
            proof {
                lemma_first_index_props(d@, '.');
                if fi as int == d@.len() {
                    lemma_count_zero_iff(d@, '.');
                }
                assert((fi as int) < d@.len());
            }
            let dn = d.len();
            let head = sub_chars(&d, 0, fi);
            let tail = sub_chars(&d, fi + 1, dn);
            proof {
                assert(head@ =~= truncate_at(domain_part@, '.'));
                assert(tail@ =~= domain_part@.skip(first_index_of(domain_part@, '.') + 1));
            }
            (string_of(&head), string_of(&tail))
        } else {
            (local_part.to_owned(), domain_part.to_owned())
        }
    }

    /// The provider classification assigns to `mx_records`, as a
    /// reference into this instance's registry.
    pub fn lookup_provider<'a>(&'a self, mx_records: &[MxRecord]) -> (r: Option<&'a Provider>)
        ensures
            match r {
                Some(p) => classify_spec(self.providers@, records_model(mx_records@)) matches Some(
                    i,
                ) && *p == self.providers@[i],
                None => classify_spec(self.providers@, records_model(mx_records@)) is None,
            },
    {
        match crate::classify::find_provider(&self.providers, mx_records) {
            Some(i) => Some(&self.providers[i]),
            None => None,
        }
    }

    /// The MX records of `domain_name` (lowercased first): served from
    /// the cache while a stored entry is fresh — the resolve function
    /// is not consulted — and resolved anew otherwise, with the fresh
    /// outcome stored as `store_post` states. With caching disabled
    /// every call resolves and the cache is untouched.
    pub fn mx_records<F: Fn(String) -> Result<Vec<MxRecord>, ResolveError>>(
        &mut self,
        domain_name: &str,
        resolve: F,
        now: u64,
    ) -> (r: Result<Vec<MxRecord>, NormalizerError>)
        requires
            forall|s: String| call_requires(resolve, (s,)),
        ensures
            final(self).providers == old(self).providers,
            final(self).cache_enabled == old(self).cache_enabled,
            ({
                let dl = lower_seq(domain_name@);
                &&& (old(self).cache_enabled && has_fresh(old(self).cache, dl, now)) ==> ({
                    let i = find_domain(old(self).cache.entries@, dl);
                    &&& lookup_result_matches(
                        r,
                        value_model(old(self).cache.entries@[i].value),
                        dl,
                    )
                    &&& cache_touched(old(self).cache, final(self).cache, dl, now)
                })
                &&& !(old(self).cache_enabled && has_fresh(old(self).cache, dl, now))
                    ==> resolved_lookup(resolve, *old(self), *final(self), dl, now, r)
            }),
    {
        let dc = chars_of(domain_name);
        let dlc = lower_chars(&dc);
        let dl = string_of(&dlc);
        let ghost dls = lower_seq(domain_name@);
        if self.cache_enabled {
            let got = self.cache.get(&dl, now);
            match got {
                Some(v) => {
                    return match v {
                        Ok(recs) => Ok(recs),
                        Err(e) => Err(
                            NormalizerError::DnsResolution { domain: dl, message: e.message },
                        ),
                    };
                },
                None => {},
            }
        }
        let dl_err = dl.clone();
        let arg = dl.clone();
        let ghost arg_snap = arg;
        let out = resolve(arg);
        let ghost out_snap = out;
        let ghost got = value_model(out);
        let ret = crate::cache::dup_value(&out);
        if self.cache_enabled {
            self.cache.store(dl, out, now);
        }
        proof {
            assert(arg_snap@ == dls && call_ensures(resolve, (arg_snap,), out_snap) && value_model(
                out_snap,
            ) == got);
            assert(resolver_gave(resolve, dls, got));
        }
        match ret {
            Ok(recs) => Ok(recs),
            Err(e) => Err(NormalizerError::DnsResolution { domain: dl_err, message: e.message }),
        }
    }

    /// Normalizes an address: split and lowercase, look up the domain's
    /// MX records through the cache, classify the provider, and apply
    /// its rules. A malformed address fails before any resolution and
    /// leaves the instance untouched; a resolver failure is surfaced as
    /// an error, never as a best-effort unnormalized result.
    pub fn normalize<F: Fn(String) -> Result<Vec<MxRecord>, ResolveError>>(
        &mut self,
        email_address: &str,
        resolve: F,
        now: u64,
    ) -> (r: Result<LookupResult, NormalizerError>)
        requires
            forall|s: String| call_requires(resolve, (s,)),
        ensures
            count_char(email_address@, '@') != 1 ==> (r matches Err(e) && (
            e matches NormalizerError::InvalidEmailAt { email } && email@ == email_address@)
                && *final(self) == *old(self)),
            count_char(email_address@, '@') == 1 ==> ({
                let dl = domain_model(email_address@);
                &&& final(self).providers == old(self).providers
                &&& final(self).cache_enabled == old(self).cache_enabled
                &&& (old(self).cache_enabled && has_fresh(old(self).cache, dl, now)) ==> ({
                    let i = find_domain(old(self).cache.entries@, dl);
                    &&& normalize_outcome(
                        old(self).providers@,
                        email_address@,
                        value_model(old(self).cache.entries@[i].value),
                        r,
                    )
                    &&& cache_touched(old(self).cache, final(self).cache, dl, now)
                })
                &&& !(old(self).cache_enabled && has_fresh(old(self).cache, dl, now))
                    ==> resolved_normalize(resolve, *old(self), *final(self), email_address@, now, r)
            }),
    {
        let split = Self::get_local_and_domain(email_address);
        match split {
            Err(e) => Err(e),
            Ok((local, domain)) => {
                proof {
                    lemma_lower_idem(
                        email_address@.skip(first_index_of(email_address@, '@') + 1),
                    );
                }
                let mxr = self.mx_records(domain.as_str(), resolve, now);
                match mxr {
                    Err(e) => Err(e),
                    Ok(records) => {
                        let popt = crate::classify::find_provider(
                            &self.providers,
                            records.as_slice(),
                        );
                        match popt {
                            Some(j) => {
                                let p = &self.providers[j];
                                let name = p.name.clone();
                                let rules = p.rules;
                                let parts = apply_rules(local.as_str(), domain.as_str(), &rules);
                                let normalized = parts.0.concat("@").concat(parts.1.as_str());
                                proof {
                                    reveal_strlit("@");
                                    assert("@"@ =~= seq!['@']);
                                }
                                Ok(
                                    LookupResult {
                                        address: email_address.to_owned(),
                                        normalized_address: normalized,
                                        mailbox_provider: Some(name),
                                        mx_records: records,
                                    },
                                )
                            },
                            None => {
                                let normalized = local.concat("@").concat(domain.as_str());
                                proof {
                                    reveal_strlit("@");
                                    assert("@"@ =~= seq!['@']);
                                }
                                Ok(
                                    LookupResult {
                                        address: email_address.to_owned(),
                                        normalized_address: normalized,
                                        mailbox_provider: None,
                                        mx_records: records,
                                    },
                                )
                            },
                        }
                    },
                }
            },
        }
    }
}

/// Idempotence: normalizing an already-normalized address yields the
/// same address. Concretely: for lowercased, `@`-free parts `ll` and
/// `dl` of a valid address, the address a provider's rule set produces
/// splits back into exactly its two parts, and applying the same rule
/// set to them changes nothing. When the set holds host-name folding,
/// this asks that `dl` have at most three labels: a deeper subdomain
/// leaves another label to fold on the second pass.
pub proof fn lemma_normalize_idempotent(ll: Seq<char>, dl: Seq<char>, rules: RuleSet)
    requires
        count_char(ll, '@') == 0,
        count_char(dl, '@') == 0,
        is_folded(ll),
        is_folded(dl),
        rules.local_part_as_host_name ==> count_char(dl, '.') <= 2,
    ensures
        ({
            let p = apply_rules_spec(ll, dl, rules);
            let out = joined(p.0, p.1);
            &&& count_char(out, '@') == 1
            &&& local_model(out) == p.0
            &&& domain_model(out) == p.1
            &&& joined(
                apply_rules_spec(local_model(out), domain_model(out), rules).0,
                apply_rules_spec(local_model(out), domain_model(out), rules).1,
            ) == out
        }),
{
    let folding = rules.local_part_as_host_name && count_char(dl, '.') >= 2;
    let fd = first_index_of(dl, '.');
    let l1 = if folding {
        truncate_at(dl, '.')
    } else {
        ll
    };
    let d1 = if folding {
        dl.skip(fd + 1)
    } else {
        dl
    };
    let l2 = if rules.dash_addressing {
        truncate_at(l1, '-')
    } else {
        l1
    };
    let l3 = if rules.plus_addressing {
        truncate_at(l2, '+')
    } else {
        l2
    };
    let l4 = if rules.strip_periods {
        remove_char(l3, '.')
    } else {
        l3
    };
    let p = apply_rules_spec(ll, dl, rules);
    assert(p == (l4, d1));
    // Neither part of the output holds an `@`, and both stay folded.
    if folding {
        lemma_first_index_props(dl, '.');
        if fd == dl.len() {
            lemma_count_zero_iff(dl, '.');
        }
        lemma_prefix_absent(dl, fd, '@');
        lemma_skip_absent(dl, fd + 1, '@');
        assert(dl.take(fd) =~= dl.subrange(0, fd));
        lemma_subrange_folded(dl, 0, fd);
        assert(dl.skip(fd + 1) =~= dl.subrange(fd + 1, dl.len() as int));
        lemma_subrange_folded(dl, fd + 1, dl.len() as int);
    }
    assert(count_char(l1, '@') == 0);
    assert(is_folded(l1));
    if rules.dash_addressing {
        lemma_first_index_props(l1, '-');
        lemma_prefix_absent(l1, first_index_of(l1, '-'), '@');
        assert(l1.take(first_index_of(l1, '-')) =~= l1.subrange(0, first_index_of(l1, '-')));
        lemma_subrange_folded(l1, 0, first_index_of(l1, '-'));
    }
    if rules.plus_addressing {
        lemma_first_index_props(l2, '+');
        lemma_prefix_absent(l2, first_index_of(l2, '+'), '@');
        assert(l2.take(first_index_of(l2, '+')) =~= l2.subrange(0, first_index_of(l2, '+')));
        lemma_subrange_folded(l2, 0, first_index_of(l2, '+'));
    }
    if rules.strip_periods {
        lemma_remove_preserves_absent(l3, '.', '@');
        lemma_remove_folded(l3, '.');
    }
    assert(count_char(l4, '@') == 0);
    assert(is_folded(l4));
    assert(count_char(d1, '@') == 0);
    assert(is_folded(d1));
    // The output has exactly one `@`, at the boundary between the parts.
    let out = joined(l4, d1);
    assert(seq!['@'].drop_last() =~= Seq::<char>::empty());
    assert(seq!['@'].last() == '@');
    assert(count_char(Seq::<char>::empty(), '@') == 0);
    assert(count_char(seq!['@'], '@') == 1);
    lemma_count_concat(seq!['@'], d1, '@');
    lemma_count_concat(l4, seq!['@'] + d1, '@');
    assert(out =~= l4 + (seq!['@'] + d1));
    assert(count_char(out, '@') == 1);
    lemma_count_zero_iff(l4, '@');
    assert(out[l4.len() as int] == '@');
    assert forall|k: int| 0 <= k < l4.len() implies out[k] != '@' by {
        assert(out[k] == l4[k]);
    }
    lemma_first_index_unique(out, '@', l4.len() as int);
    // Splitting the output gives back exactly the two folded parts.
    assert(out.take(l4.len() as int) =~= l4);
    assert(out.skip(l4.len() as int + 1) =~= d1);
    lemma_lower_noop(l4);
    lemma_lower_noop(d1);
    assert(local_model(out) == l4);
    assert(domain_model(out) == d1);
    // A second application of the same rules is a no-op.
    lemma_apply_rules_idempotent(ll, dl, rules);
    assert(apply_rules_spec(l4, d1, rules) == p);
}

/// Idempotence, stated on the address itself: for a valid address, the
/// parts `get_local_and_domain` yields satisfy what
/// `lemma_normalize_idempotent` asks, so the address a rule set
/// produces re-normalizes to itself under the same rule set.
pub proof fn lemma_normalize_idempotent_for_address(addr: Seq<char>, rules: RuleSet)
    requires
        count_char(addr, '@') == 1,
        rules.local_part_as_host_name ==> count_char(domain_model(addr), '.') <= 2,
    ensures
        ({
            let p = apply_rules_spec(local_model(addr), domain_model(addr), rules);
            let out = joined(p.0, p.1);
            &&& local_model(out) == p.0
            &&& domain_model(out) == p.1
            &&& joined(
                apply_rules_spec(local_model(out), domain_model(out), rules).0,
                apply_rules_spec(local_model(out), domain_model(out), rules).1,
            ) == out
        }),
{
    let fi = first_index_of(addr, '@');
    lemma_first_index_props(addr, '@');
    if fi == addr.len() {
        lemma_count_zero_iff(addr, '@');
    }
    assert(fi < addr.len());
    assert forall|k: int| 0 <= k < addr.take(fi).len() implies addr.take(fi)[k] != '@' by {
        assert(addr.take(fi)[k] == addr[k]);
    }
    lemma_count_zero_iff(addr.take(fi), '@');
    assert(addr.take(fi + 1) =~= addr.take(fi).push(addr[fi]));
    assert(addr.take(fi + 1).drop_last() =~= addr.take(fi));
    assert(count_char(addr.take(fi + 1), '@') == 1);
    assert(addr =~= addr.take(fi + 1) + addr.skip(fi + 1));
    lemma_count_concat(addr.take(fi + 1), addr.skip(fi + 1), '@');
    assert(count_char(addr.skip(fi + 1), '@') == 0);
    lemma_lower_count_at(addr.take(fi));
    lemma_lower_count_at(addr.skip(fi + 1));
    lemma_lower_is_folded(addr.take(fi));
    lemma_lower_is_folded(addr.skip(fi + 1));
    lemma_normalize_idempotent(local_model(addr), domain_model(addr), rules);
}

impl Default for Normalizer {
    /// The same instance `new` builds.
    fn default() -> (n: Self)
        ensures
            is_default_registry(n.providers@),
            n.cache_enabled,
            n.cache.entries@.len() == 0,
            n.cache.cache_failures,
    {
        Normalizer::new()
    }
}

} // verus!
