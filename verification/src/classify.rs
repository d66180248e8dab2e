//! The provider classifier: decides which registered provider, if any,
//! owns a resolved MX record set. Matching is first-match over records
//! in resolver order, then providers in registration order.
use vstd::prelude::*;

use crate::providers::Provider;
use crate::text::{chars_of, lower_chars, lower_seq, sub_chars};
use crate::{records_model, MxRecord};

verus! {

/// `suf` is a suffix of `s`.
pub open spec fn ends_with(s: Seq<char>, suf: Seq<char>) -> bool {
    s.len() >= suf.len() && s.skip(s.len() - suf.len()) == suf
}

/// `s` with a trailing dot ensured, so a fully qualified exchange name
/// and one written without the root dot compare alike.
pub open spec fn with_trailing_dot(s: Seq<char>) -> Seq<char> {
    if s.len() > 0 && s.last() == '.' {
        s
    } else {
        s.push('.')
    }
}

/// The lowercased exchange host `ex_low` lies under the MX domain `mx`:
/// with trailing dots ensured, `mx` is a suffix of the exchange aligned
/// on a label boundary, so `evilgoogle.com` does not lie under
/// `google.com`.
pub open spec fn mx_suffix_match(ex_low: Seq<char>, mx: Seq<char>) -> bool {
    let e = with_trailing_dot(ex_low);
    let m = mx.push('.');
    ends_with(e, m) && (e.len() == m.len() || e[e.len() - m.len() - 1] == '.')
}

/// Some MX domain of `p` matches the lowercased exchange `ex_low`.
pub open spec fn provider_matches(ex_low: Seq<char>, p: Provider) -> bool {
    exists|j: int| 0 <= j < p.mx_domains@.len() && mx_suffix_match(ex_low, p.mx_domains@[j]@)
}

/// Index of the first provider matching `ex_low`, or `providers.len()`
/// when none matches.
pub open spec fn first_provider_match(providers: Seq<Provider>, ex_low: Seq<char>) -> int
    decreases providers.len(),
{
    if providers.len() == 0 {
        0
    } else if provider_matches(ex_low, providers[0]) {
        0
    } else {
        1 + first_provider_match(providers.skip(1), ex_low)
    }
}

/// First-match classification over modelled records: for the first
/// record whose exchange matches some provider, the index of the
/// earliest matching provider in registration order; `None` when no
/// record matches any provider.
pub open spec fn classify_spec(providers: Seq<Provider>, records: Seq<(u16, Seq<char>)>) -> Option<
    int,
>
    decreases records.len(),
{
    if records.len() == 0 {
        None
    } else {
        let f = first_provider_match(providers, lower_seq(records[0].1));
        if f < providers.len() {
            Some(f)
        } else {
            classify_spec(providers, records.skip(1))
        }
    }
}

/// `first_provider_match` is the unique index that matches with no
/// match before it.
pub proof fn lemma_first_provider_unique(providers: Seq<Provider>, ex_low: Seq<char>, i: int)
    requires
        0 <= i < providers.len(),
        provider_matches(ex_low, providers[i]),
        forall|m: int| 0 <= m < i ==> !provider_matches(ex_low, providers[m]),
    ensures
        first_provider_match(providers, ex_low) == i,
    decreases providers.len(),
{
    if i == 0 {
    } else {
        assert(!provider_matches(ex_low, providers[0]));
        assert(providers.skip(1)[i - 1] == providers[i]);
        assert forall|m: int| 0 <= m < i - 1 implies !provider_matches(
            ex_low,
            providers.skip(1)[m],
        ) by {
            assert(providers.skip(1)[m] == providers[m + 1]);
        }
        lemma_first_provider_unique(providers.skip(1), ex_low, i - 1);
    }
}

/// When no provider matches, `first_provider_match` is `providers.len()`.
pub proof fn lemma_first_provider_absent(providers: Seq<Provider>, ex_low: Seq<char>)
    requires
        forall|m: int| 0 <= m < providers.len() ==> !provider_matches(ex_low, providers[m]),
    ensures
        first_provider_match(providers, ex_low) == providers.len(),
    decreases providers.len(),
{
    if providers.len() > 0 {
        assert forall|m: int| 0 <= m < providers.skip(1).len() implies !provider_matches(
            ex_low,
            providers.skip(1)[m],
        ) by {
            assert(providers.skip(1)[m] == providers[m + 1]);
        }
        lemma_first_provider_absent(providers.skip(1), ex_low);
    }
}

/// Whether the lowercased exchange `ex_low` lies under the MX domain
/// `mx`, executable form.
#[verifier::loop_isolation(false)]
fn exchange_in_domain(ex_low: &Vec<char>, mx: &str) -> (b: bool)
    ensures
        b == mx_suffix_match(ex_low@, mx@),
{
    let mut e: Vec<char> = sub_chars(ex_low, 0, ex_low.len());
    proof {
        assert(e@ =~= ex_low@);
    }
    if e.len() == 0 || e[e.len() - 1] != '.' {
        e.push('.');
    }
    proof {
        assert(e@ == with_trailing_dot(ex_low@));
    }
    let mut m: Vec<char> = chars_of(mx);
    m.push('.');
    if e.len() < m.len() {
        return false;
    }
    let off: usize = e.len() - m.len();
    let mut k: usize = 0;
    while k < m.len()
        invariant
            k <= m@.len(),
            off == e@.len() - m@.len(),
            e@.len() >= m@.len(),
            forall|t: int| 0 <= t < k ==> e@[off + t] == m@[t],
        decreases m@.len() - k,
    {
        if e[off + k] != m[k] {
            proof {
                assert(e@.skip(off as int)[k as int] == e@[off + k]);
            }
            return false;
        }
        k += 1;
    }
    proof {
        assert(e@.skip(off as int) =~= m@);
    }
    if off == 0 {
        true
    } else {
        e[off - 1] == '.'
    }
}

/// The index of the provider classification assigns to `mx_records`
/// under the registry `providers`, or `None` when no record's exchange
/// lies under any registered MX domain.
#[verifier::loop_isolation(false)]
pub fn find_provider(providers: &Vec<Provider>, mx_records: &[MxRecord]) -> (r: Option<usize>)
    ensures
        match r {
            Some(i) => i < providers@.len() && classify_spec(
                providers@,
                records_model(mx_records@),
            ) == Some(i as int),
            None => classify_spec(providers@, records_model(mx_records@)) is None,
        },
{
    let ghost rm = records_model(mx_records@);
    proof {
        assert(rm.skip(0) =~= rm);
    }
    let mut i: usize = 0;
    while i < mx_records.len()
        invariant
            i <= rm.len(),
            classify_spec(providers@, rm) == classify_spec(providers@, rm.skip(i as int)),
        decreases rm.len() - i,
    {
        let record = vstd::slice::slice_index_get(mx_records, i);
        let ex_chars = chars_of(record.1.as_str());
        let ex_low = lower_chars(&ex_chars);
        let ghost exl = lower_seq(rm[i as int].1);
        let mut j: usize = 0;
        while j < providers.len()
            invariant
                j <= providers@.len(),
                ex_low@ == exl,
                forall|m: int| 0 <= m < j ==> !provider_matches(exl, providers@[m]),
            decreases providers@.len() - j,
        {
            let p = &providers[j];
            let mut k: usize = 0;
            while k < p.mx_domains.len()
                invariant
                    k <= p.mx_domains@.len(),
                    p == providers@[j as int],
                    j < providers@.len(),
                    forall|t: int| 0 <= t < k ==> !mx_suffix_match(exl, p.mx_domains@[t]@),
                decreases p.mx_domains@.len() - k,
            {
                if exchange_in_domain(&ex_low, p.mx_domains[k].as_str()) {
                    proof {
                        assert(provider_matches(exl, providers@[j as int]));
                        lemma_first_provider_unique(providers@, exl, j as int);
                        assert(rm.skip(i as int)[0] == rm[i as int]);
                    }
                    return Some(j);
                }
                k += 1;
            }
            proof {
                assert(!provider_matches(exl, providers@[j as int]));
            }
            j += 1;
        }
        proof {
            lemma_first_provider_absent(providers@, exl);
            assert(rm.skip(i as int)[0] == rm[i as int]);
            assert(rm.skip(i as int).skip(1) =~= rm.skip(i as int + 1));
        }
        i += 1;
    }
    proof {
        assert(rm.skip(i as int).len() == 0);
    }
    None
}

/// Classification determinism: when the records at hand match only two
/// providers' domain sets, each record matching one exactly when it
/// matches the other, the provider earlier in registration order is
/// returned — whatever order the records come in.
pub proof fn lemma_classification_deterministic(
    providers: Seq<Provider>,
    records: Seq<(u16, Seq<char>)>,
    i: int,
    j: int,
)
    requires
        0 <= i < j < providers.len(),
        forall|k: int, m: int|
            0 <= k < records.len() && 0 <= m < providers.len() && provider_matches(
                lower_seq(records[k].1),
                providers[m],
            ) ==> (m == i || m == j),
        forall|k: int|
            0 <= k < records.len() ==> (provider_matches(lower_seq(records[k].1), providers[i])
                <==> provider_matches(lower_seq(records[k].1), providers[j])),
        exists|k: int| 0 <= k < records.len() && provider_matches(
            lower_seq(records[k].1),
            providers[i],
        ),
    ensures
        classify_spec(providers, records) == Some(i),
    decreases records.len(),
{
    let ex0 = lower_seq(records[0].1);
    if provider_matches(ex0, providers[i]) {
        assert forall|m: int| 0 <= m < i implies !provider_matches(ex0, providers[m]) by {}
        lemma_first_provider_unique(providers, ex0, i);
    } else {
        assert(!provider_matches(ex0, providers[j]));
        assert forall|m: int| 0 <= m < providers.len() implies !provider_matches(
            ex0,
            providers[m],
        ) by {}
        lemma_first_provider_absent(providers, ex0);
        let k0 = choose|k: int|
            0 <= k < records.len() && provider_matches(lower_seq(records[k].1), providers[i]);
        assert(k0 > 0);
        assert forall|k: int, m: int|
            0 <= k < records.skip(1).len() && 0 <= m < providers.len() && provider_matches(
                lower_seq(records.skip(1)[k].1),
                providers[m],
            ) implies (m == i || m == j) by {
            assert(records.skip(1)[k] == records[k + 1]);
        }
        assert forall|k: int| 0 <= k < records.skip(1).len() implies (provider_matches(
            lower_seq(records.skip(1)[k].1),
            providers[i],
        ) <==> provider_matches(lower_seq(records.skip(1)[k].1), providers[j])) by {
            assert(records.skip(1)[k] == records[k + 1]);
        }
        assert(records.skip(1)[k0 - 1] == records[k0]);
        assert(0 <= k0 - 1 < records.skip(1).len() && provider_matches(
            lower_seq(records.skip(1)[k0 - 1].1),
            providers[i],
        ));
        lemma_classification_deterministic(providers, records.skip(1), i, j);
    }
}

} // verus!
