//! The normalization rule engine: applies a provider's rule set to a
//! lowercased `(local, domain)` pair in one fixed order, independent of
//! how the rules were declared on the provider.
use vstd::prelude::*;

use crate::providers::RuleSet;
use crate::text::{
    chars_of, count_char, count_in, find_in, first_index_of, lemma_count_concat,
    lemma_count_zero_iff, lemma_first_index_props, lemma_prefix_absent, lemma_remove_absent,
    lemma_remove_noop, lemma_remove_preserves_absent, lemma_take_succ, lemma_truncate_absent,
    lemma_truncate_noop, remove_all, remove_char, string_of, sub_chars, truncate_at,
};

verus! {

/// The rules of `r`, applied to `(l, d)` in the fixed canonical order:
/// host-name folding first, then dash stripping, then plus stripping,
/// then period removal. Rules absent from `r` are skipped; later rules
/// see the output of earlier ones.
pub open spec fn apply_rules_spec(l: Seq<char>, d: Seq<char>, r: RuleSet) -> (Seq<char>, Seq<char>) {
    let folded = r.local_part_as_host_name && count_char(d, '.') >= 2;
    let l1 = if folded {
        truncate_at(d, '.')
    } else {
        l
    };
    let d1 = if folded {
        d.skip(first_index_of(d, '.') + 1)
    } else {
        d
    };
    let l2 = if r.dash_addressing {
        truncate_at(l1, '-')
    } else {
        l1
    };
    let l3 = if r.plus_addressing {
        truncate_at(l2, '+')
    } else {
        l2
    };
    let l4 = if r.strip_periods {
        remove_char(l3, '.')
    } else {
        l3
    };
    (l4, d1)
}

/// Truncating a sequence at a separator leaves a sequence free of it,
/// and every later prefix-taking or removal step keeps it free.
proof fn lemma_pipeline_keeps_absent(s: Seq<char>, c: char)
    requires
        count_char(s, c) == 0,
    ensures
        count_char(truncate_at(s, '-'), c) == 0,
        count_char(truncate_at(s, '+'), c) == 0,
        count_char(remove_char(s, '.'), c) == 0,
{
    lemma_first_index_props(s, '-');
    lemma_prefix_absent(s, first_index_of(s, '-'), c);
    lemma_first_index_props(s, '+');
    lemma_prefix_absent(s, first_index_of(s, '+'), c);
    lemma_remove_preserves_absent(s, '.', c);
}

/// Applying a provider's rule set to its own output changes nothing,
/// provided host-name folding (when present in the set) has no deeper
/// subdomain left to fold — that is, the once-folded domain has at most
/// two labels.
pub proof fn lemma_apply_rules_idempotent(l: Seq<char>, d: Seq<char>, r: RuleSet)
    requires
        r.local_part_as_host_name ==> count_char(d, '.') <= 2,
    ensures
        apply_rules_spec(apply_rules_spec(l, d, r).0, apply_rules_spec(l, d, r).1, r)
            == apply_rules_spec(l, d, r),
{
    let folded = r.local_part_as_host_name && count_char(d, '.') >= 2;
    let l1 = if folded {
        truncate_at(d, '.')
    } else {
        l
    };
    let d1 = if folded {
        d.skip(first_index_of(d, '.') + 1)
    } else {
        d
    };
    let l2 = if r.dash_addressing {
        truncate_at(l1, '-')
    } else {
        l1
    };
    let l3 = if r.plus_addressing {
        truncate_at(l2, '+')
    } else {
        l2
    };
    let l4 = if r.strip_periods {
        remove_char(l3, '.')
    } else {
        l3
    };
    // The once-folded domain has at most one dot, so a second folding
    // finds nothing to fold.
    if folded {
        let fi = first_index_of(d, '.');
        lemma_first_index_props(d, '.');
        if fi == d.len() {
            lemma_count_zero_iff(d, '.');
        }
        assert(fi < d.len());
        assert(d =~= d.take(fi + 1) + d.skip(fi + 1));
        lemma_count_concat(d.take(fi + 1), d.skip(fi + 1), '.');
        lemma_take_succ(d, fi);
        lemma_truncate_absent(d, '.');
        assert(d.take(fi + 1).drop_last() =~= d.take(fi));
        assert(count_char(d.take(fi + 1), '.') == 1);
        assert(count_char(d1, '.') == count_char(d, '.') - 1);
    }
    assert(r.local_part_as_host_name ==> count_char(d1, '.') < 2);
    // Each local-part rule, once applied, has nothing left to do: the
    // dash rule's output is dash-free and stays so through the plus and
    // period rules, and likewise for the other rules.
    if r.dash_addressing {
        lemma_truncate_absent(l1, '-');
        if r.plus_addressing {
            lemma_pipeline_keeps_absent(l2, '-');
        }
        if r.strip_periods {
            lemma_pipeline_keeps_absent(l3, '-');
        }
        assert(count_char(l4, '-') == 0);
        lemma_truncate_noop(l4, '-');
    }
    if r.plus_addressing {
        lemma_truncate_absent(l2, '+');
        if r.strip_periods {
            lemma_pipeline_keeps_absent(l3, '+');
        }
        assert(count_char(l4, '+') == 0);
        lemma_truncate_noop(l4, '+');
    }
    if r.strip_periods {
        lemma_remove_absent(l3, '.');
        lemma_remove_noop(l4, '.');
    }
}

/// Applies the rules in `rules` to the already-lowercased parts `local`
/// and `domain`, in the fixed canonical order, returning the rewritten
/// `(local, domain)` pair.
pub fn apply_rules(local: &str, domain: &str, rules: &RuleSet) -> (r: (String, String))
    ensures
        r.0@ == apply_rules_spec(local@, domain@, *rules).0,
        r.1@ == apply_rules_spec(local@, domain@, *rules).1,
{
    let mut l: Vec<char> = chars_of(local);
    let mut d: Vec<char> = chars_of(domain);
    if rules.local_part_as_host_name {
        let dots = count_in(&d, '.');
        if dots >= 2 {
            let fi = find_in(&d, '.');
            proof {
                lemma_first_index_props(d@, '.');
                if fi as int == d@.len() {
                    lemma_count_zero_iff(d@, '.');
                }
                assert((fi as int) < d@.len());
            }
            let dn: usize = d.len();
            let new_l = sub_chars(&d, 0, fi);
            let new_d = sub_chars(&d, fi + 1, dn);
            proof {
                assert(new_l@ =~= truncate_at(d@, '.'));
                assert(new_d@ =~= d@.skip(first_index_of(d@, '.') + 1));
            }
            l = new_l;
            d = new_d;
        }
    }
    if rules.dash_addressing {
        let fi = find_in(&l, '-');
        proof {
            lemma_first_index_props(l@, '-');
        }
        let new_l = sub_chars(&l, 0, fi);
        proof {
            assert(new_l@ =~= truncate_at(l@, '-'));
        }
        l = new_l;
    }
    if rules.plus_addressing {
        let fi = find_in(&l, '+');
        proof {
            lemma_first_index_props(l@, '+');
        }
        let new_l = sub_chars(&l, 0, fi);
        proof {
            assert(new_l@ =~= truncate_at(l@, '+'));
        }
        l = new_l;
    }
    if rules.strip_periods {
        l = remove_all(&l, '.');
    }
    (string_of(&l), string_of(&d))
}

} // verus!
