//! Character-sequence model and verified text helpers: ASCII lowercase
//! folding, counting and locating separator characters, prefix/suffix
//! extraction and character removal, with the lemmas the rest of the
//! crate needs about them.
use vstd::prelude::*;

verus! {

use vstd::string::StrSliceExecFns;

/// ASCII case folding of a single character: `A`..`Z` map to `a`..`z`,
/// every other character is unchanged.
pub open spec fn lower_char(c: char) -> char {
    match c {
        'A' => 'a',
        'B' => 'b',
        'C' => 'c',
        'D' => 'd',
        'E' => 'e',
        'F' => 'f',
        'G' => 'g',
        'H' => 'h',
        'I' => 'i',
        'J' => 'j',
        'K' => 'k',
        'L' => 'l',
        'M' => 'm',
        'N' => 'n',
        'O' => 'o',
        'P' => 'p',
        'Q' => 'q',
        'R' => 'r',
        'S' => 's',
        'T' => 't',
        'U' => 'u',
        'V' => 'v',
        'W' => 'w',
        'X' => 'x',
        'Y' => 'y',
        'Z' => 'z',
        _ => c,
    }
}

/// ASCII case folding of a whole character sequence.
pub open spec fn lower_seq(s: Seq<char>) -> Seq<char>
    decreases s.len(),
{
    if s.len() == 0 {
        Seq::empty()
    } else {
        lower_seq(s.drop_last()).push(lower_char(s.last()))
    }
}

/// How many times `c` occurs in `s`.
pub open spec fn count_char(s: Seq<char>, c: char) -> nat
    decreases s.len(),
{
    if s.len() == 0 {
        0
    } else {
        count_char(s.drop_last(), c) + (if s.last() == c {
            1nat
        } else {
            0nat
        })
    }
}

/// Index of the first occurrence of `c` in `s`, or `s.len()` if absent.
pub open spec fn first_index_of(s: Seq<char>, c: char) -> int
    decreases s.len(),
{
    if s.len() == 0 {
        0
    } else if s[0] == c {
        0
    } else {
        1 + first_index_of(s.skip(1), c)
    }
}

/// `s` with every occurrence of `c` removed.
pub open spec fn remove_char(s: Seq<char>, c: char) -> Seq<char>
    decreases s.len(),
{
    if s.len() == 0 {
        Seq::empty()
    } else if s.last() == c {
        remove_char(s.drop_last(), c)
    } else {
        remove_char(s.drop_last(), c).push(s.last())
    }
}

/// The prefix of `s` up to (excluding) the first occurrence of `c`;
/// the whole of `s` when `c` does not occur.
pub open spec fn truncate_at(s: Seq<char>, c: char) -> Seq<char> {
    s.take(first_index_of(s, c))
}

pub proof fn lemma_take_succ<T>(s: Seq<T>, i: int)
    requires
        0 <= i < s.len(),
    ensures
        s.take(i + 1) == s.take(i).push(s[i]),
{
    assert(s.take(i + 1) =~= s.take(i).push(s[i]));
}

/// `first_index_of` is in bounds, lands on `c` when `c` occurs, and
/// nothing before it equals `c`.
pub proof fn lemma_first_index_props(s: Seq<char>, c: char)
    ensures
        0 <= first_index_of(s, c) <= s.len(),
        first_index_of(s, c) < s.len() ==> s[first_index_of(s, c)] == c,
        forall|k: int| 0 <= k < first_index_of(s, c) ==> s[k] != c,
    decreases s.len(),
{
    if s.len() == 0 {
    } else if s[0] == c {
    } else {
        lemma_first_index_props(s.skip(1), c);
        assert forall|k: int| 0 <= k < first_index_of(s, c) implies s[k] != c by {
            if k > 0 {
                assert(s.skip(1)[k - 1] == s[k]);
            }
        }
        if first_index_of(s, c) < s.len() {
            assert(s.skip(1)[first_index_of(s, c) - 1] == s[first_index_of(s, c)]);
        }
    }
}

/// `first_index_of` is the unique index with `c` at it and no `c` before it.
pub proof fn lemma_first_index_unique(s: Seq<char>, c: char, i: int)
    requires
        0 <= i < s.len(),
        s[i] == c,
        forall|k: int| 0 <= k < i ==> s[k] != c,
    ensures
        first_index_of(s, c) == i,
    decreases s.len(),
{
    if i == 0 {
    } else {
        assert(s[0] != c);
        assert(s.skip(1)[i - 1] == s[i]);
        assert forall|k: int| 0 <= k < i - 1 implies s.skip(1)[k] != c by {
            assert(s.skip(1)[k] == s[k + 1]);
        }
        lemma_first_index_unique(s.skip(1), c, i - 1);
    }
}

/// When `c` does not occur in `s`, `first_index_of` is `s.len()`.
pub proof fn lemma_first_index_absent(s: Seq<char>, c: char)
    requires
        forall|k: int| 0 <= k < s.len() ==> s[k] != c,
    ensures
        first_index_of(s, c) == s.len(),
    decreases s.len(),
{
    if s.len() > 0 {
        assert forall|k: int| 0 <= k < s.skip(1).len() implies s.skip(1)[k] != c by {
            assert(s.skip(1)[k] == s[k + 1]);
        }
        lemma_first_index_absent(s.skip(1), c);
    }
}

/// Counting distributes over concatenation.
pub proof fn lemma_count_concat(a: Seq<char>, b: Seq<char>, c: char)
    ensures
        count_char(a + b, c) == count_char(a, c) + count_char(b, c),
    decreases b.len(),
{
    if b.len() == 0 {
        assert(a + b =~= a);
    } else {
        lemma_count_concat(a, b.drop_last(), c);
        assert((a + b).drop_last() =~= a + b.drop_last());
    }
}

/// A count of zero means no position holds `c`, and conversely.
pub proof fn lemma_count_zero_iff(s: Seq<char>, c: char)
    ensures
        count_char(s, c) == 0 <==> (forall|k: int| 0 <= k < s.len() ==> s[k] != c),
    decreases s.len(),
{
    if s.len() > 0 {
        lemma_count_zero_iff(s.drop_last(), c);
        if count_char(s, c) == 0 {
            assert forall|k: int| 0 <= k < s.len() implies s[k] != c by {
                if k < s.len() - 1 {
                    assert(s.drop_last()[k] == s[k]);
                }
            }
        } else {
            if forall|k: int| 0 <= k < s.len() ==> s[k] != c {
                assert forall|k: int| 0 <= k < s.drop_last().len() implies s.drop_last()[k] != c by {
                    assert(s.drop_last()[k] == s[k]);
                }
            }
        }
    }
}

/// Every character of `s` is its own case folding.
pub open spec fn is_folded(s: Seq<char>) -> bool {
    forall|k: int| 0 <= k < s.len() ==> lower_char(#[trigger] s[k]) == s[k]
}

/// Case folding keeps the length and acts pointwise.
pub proof fn lemma_lower_props(s: Seq<char>)
    ensures
        lower_seq(s).len() == s.len(),
        forall|k: int| 0 <= k < s.len() ==> lower_seq(s)[k] == lower_char(#[trigger] s[k]),
    decreases s.len(),
{
    if s.len() > 0 {
        lemma_lower_props(s.drop_last());
        assert forall|k: int| 0 <= k < s.len() implies lower_seq(s)[k] == lower_char(
            #[trigger] s[k],
        ) by {
            if k < s.len() - 1 {
                assert(s.drop_last()[k] == s[k]);
                assert(lower_seq(s)[k] == lower_seq(s.drop_last())[k]);
            }
        }
    }
}

/// A folded sequence folds to itself.
pub proof fn lemma_lower_noop(s: Seq<char>)
    requires
        is_folded(s),
    ensures
        lower_seq(s) == s,
{
    lemma_lower_props(s);
    assert(lower_seq(s) =~= s);
}

/// What case folding produces is folded.
pub proof fn lemma_lower_is_folded(s: Seq<char>)
    ensures
        is_folded(lower_seq(s)),
{
    lemma_lower_props(s);
    assert forall|k: int| 0 <= k < lower_seq(s).len() implies lower_char(
        #[trigger] lower_seq(s)[k],
    ) == lower_seq(s)[k] by {
        assert(lower_seq(s)[k] == lower_char(s[k]));
        assert(lower_char(lower_char(s[k])) == lower_char(s[k]));
    }
}

/// Foldedness survives removal.
pub proof fn lemma_remove_folded(s: Seq<char>, c: char)
    requires
        is_folded(s),
    ensures
        is_folded(remove_char(s, c)),
    decreases s.len(),
{
    if s.len() > 0 {
        assert forall|k: int| 0 <= k < s.drop_last().len() implies lower_char(
            #[trigger] s.drop_last()[k],
        ) == s.drop_last()[k] by {
            assert(s.drop_last()[k] == s[k]);
        }
        lemma_remove_folded(s.drop_last(), c);
        if s.last() != c {
            assert forall|k: int| 0 <= k < remove_char(s, c).len() implies lower_char(
                #[trigger] remove_char(s, c)[k],
            ) == remove_char(s, c)[k] by {
                if k < remove_char(s, c).len() - 1 {
                    assert(remove_char(s, c)[k] == remove_char(s.drop_last(), c)[k]);
                } else {
                    assert(remove_char(s, c)[k] == s.last());
                    assert(s.last() == s[s.len() - 1]);
                }
            }
        }
    }
}

/// Foldedness survives taking a subrange.
pub proof fn lemma_subrange_folded(s: Seq<char>, from: int, to: int)
    requires
        is_folded(s),
        0 <= from <= to <= s.len(),
    ensures
        is_folded(s.subrange(from, to)),
{
    assert forall|k: int| 0 <= k < s.subrange(from, to).len() implies lower_char(
        #[trigger] s.subrange(from, to)[k],
    ) == s.subrange(from, to)[k] by {
        assert(s.subrange(from, to)[k] == s[from + k]);
    }
}

/// No occurrence of `c` survives in a suffix of a sequence free of it.
pub proof fn lemma_skip_absent(s: Seq<char>, i: int, c: char)
    requires
        count_char(s, c) == 0,
        0 <= i <= s.len(),
    ensures
        count_char(s.skip(i), c) == 0,
{
    lemma_count_zero_iff(s, c);
    assert forall|k: int| 0 <= k < s.skip(i).len() implies s.skip(i)[k] != c by {
        assert(s.skip(i)[k] == s[i + k]);
    }
    lemma_count_zero_iff(s.skip(i), c);
}

/// Case folding distributes over concatenation.
pub proof fn lemma_lower_concat(a: Seq<char>, b: Seq<char>)
    ensures
        lower_seq(a + b) == lower_seq(a) + lower_seq(b),
    decreases b.len(),
{
    if b.len() == 0 {
        assert(a + b =~= a);
        assert(lower_seq(a) + lower_seq(b) =~= lower_seq(a));
    } else {
        lemma_lower_concat(a, b.drop_last());
        assert((a + b).drop_last() =~= a + b.drop_last());
        assert((a + b).last() == b.last());
        assert(lower_seq(a + b) =~= lower_seq(a) + lower_seq(b));
    }
}

/// Case folding is idempotent.
pub proof fn lemma_lower_idem(s: Seq<char>)
    ensures
        lower_seq(lower_seq(s)) == lower_seq(s),
    decreases s.len(),
{
    if s.len() > 0 {
        lemma_lower_idem(s.drop_last());
        assert(lower_seq(s).drop_last() =~= lower_seq(s.drop_last()));
        assert(lower_seq(lower_seq(s)) =~= lower_seq(s));
    }
}

/// Case folding neither creates nor destroys occurrences of a character
/// that folds to itself and that no other character folds to, such as `@`.
pub proof fn lemma_lower_count_at(s: Seq<char>)
    ensures
        count_char(lower_seq(s), '@') == count_char(s, '@'),
    decreases s.len(),
{
    if s.len() > 0 {
        lemma_lower_count_at(s.drop_last());
        assert(lower_seq(s).drop_last() =~= lower_seq(s.drop_last()));
        assert(lower_char(s.last()) == '@' <==> s.last() == '@');
    }
}

/// Removal leaves no occurrence behind.
pub proof fn lemma_remove_absent(s: Seq<char>, c: char)
    ensures
        count_char(remove_char(s, c), c) == 0,
    decreases s.len(),
{
    if s.len() > 0 {
        lemma_remove_absent(s.drop_last(), c);
        if s.last() != c {
            assert(remove_char(s, c).drop_last() =~= remove_char(s.drop_last(), c));
        }
    }
}

/// Removing a character that does not occur is a no-op.
pub proof fn lemma_remove_noop(s: Seq<char>, c: char)
    requires
        count_char(s, c) == 0,
    ensures
        remove_char(s, c) == s,
    decreases s.len(),
{
    if s.len() > 0 {
        lemma_remove_noop(s.drop_last(), c);
        assert(remove_char(s, c) =~= s);
    }
}

/// Removing one character cannot introduce another.
pub proof fn lemma_remove_preserves_absent(s: Seq<char>, c: char, d: char)
    requires
        count_char(s, d) == 0,
    ensures
        count_char(remove_char(s, c), d) == 0,
    decreases s.len(),
{
    if s.len() > 0 {
        assert(count_char(s.drop_last(), d) == 0);
        lemma_remove_preserves_absent(s.drop_last(), c, d);
        if s.last() != c {
            assert(remove_char(s, c).drop_last() =~= remove_char(s.drop_last(), c));
        }
    }
}

/// No prefix of a sequence free of `c` holds `c`.
pub proof fn lemma_prefix_absent(s: Seq<char>, i: int, c: char)
    requires
        count_char(s, c) == 0,
        0 <= i <= s.len(),
    ensures
        count_char(s.take(i), c) == 0,
{
    lemma_count_zero_iff(s, c);
    assert forall|k: int| 0 <= k < s.take(i).len() implies s.take(i)[k] != c by {
        assert(s.take(i)[k] == s[k]);
    }
    lemma_count_zero_iff(s.take(i), c);
}

/// The truncated prefix is free of the separator.
pub proof fn lemma_truncate_absent(s: Seq<char>, c: char)
    ensures
        count_char(truncate_at(s, c), c) == 0,
{
    lemma_first_index_props(s, c);
    assert forall|k: int| 0 <= k < truncate_at(s, c).len() implies truncate_at(s, c)[k] != c by {
        assert(truncate_at(s, c)[k] == s[k]);
    }
    lemma_count_zero_iff(truncate_at(s, c), c);
}

/// Truncating at a character that does not occur is a no-op.
pub proof fn lemma_truncate_noop(s: Seq<char>, c: char)
    requires
        count_char(s, c) == 0,
    ensures
        truncate_at(s, c) == s,
{
    lemma_count_zero_iff(s, c);
    lemma_first_index_absent(s, c);
    assert(truncate_at(s, c) =~= s);
}

/// The characters of `s`, in order, as a vector.
pub fn chars_of(s: &str) -> (v: Vec<char>)
    ensures
        v@ == s@,
{
    let n: usize = s.unicode_len();
    let mut v: Vec<char> = Vec::new();
    let mut i: usize = 0;
    while i < n
        invariant
            i <= n,
            n == s@.len(),
            v@ == s@.take(i as int),
        decreases n - i,
    {
        let c = s.get_char(i);
        proof {
            lemma_take_succ(s@, i as int);
        }
        v.push(c);
        i += 1;
    }
    proof {
        assert(s@.take(n as int) =~= s@);
    }
    v
}

/// Relies on `String::push`: appends the given character to the end of
/// the string.
#[verifier::external_body]
fn push_char(s: &mut String, c: char)
    ensures
        final(s)@ == old(s)@.push(c),
{
    s.push(c);
}

/// A string holding exactly the characters of `v`, in order.
pub fn string_of(v: &Vec<char>) -> (r: String)
    ensures
        r@ == v@,
{
    let mut r = String::new();
    let mut i: usize = 0;
    while i < v.len()
        invariant
            i <= v.len(),
            r@ == v@.take(i as int),
        decreases v.len() - i,
    {
        proof {
            lemma_take_succ(v@, i as int);
        }
        push_char(&mut r, v[i]);
        i += 1;
    }
    proof {
        assert(v@.take(v@.len() as int) =~= v@);
    }
    r
}

/// ASCII case folding of a single character, executable form.
pub fn to_lower_char(c: char) -> (r: char)
    ensures
        r == lower_char(c),
{
    match c {
        'A' => 'a',
        'B' => 'b',
        'C' => 'c',
        'D' => 'd',
        'E' => 'e',
        'F' => 'f',
        'G' => 'g',
        'H' => 'h',
        'I' => 'i',
        'J' => 'j',
        'K' => 'k',
        'L' => 'l',
        'M' => 'm',
        'N' => 'n',
        'O' => 'o',
        'P' => 'p',
        'Q' => 'q',
        'R' => 'r',
        'S' => 's',
        'T' => 't',
        'U' => 'u',
        'V' => 'v',
        'W' => 'w',
        'X' => 'x',
        'Y' => 'y',
        'Z' => 'z',
        _ => c,
    }
}

/// ASCII case folding of a whole vector of characters.
pub fn lower_chars(v: &Vec<char>) -> (r: Vec<char>)
    ensures
        r@ == lower_seq(v@),
{
    let mut r: Vec<char> = Vec::new();
    let mut i: usize = 0;
    while i < v.len()
        invariant
            i <= v.len(),
            r@ == lower_seq(v@.take(i as int)),
        decreases v.len() - i,
    {
        proof {
            lemma_take_succ(v@, i as int);
            assert(v@.take(i as int + 1).drop_last() =~= v@.take(i as int));
        }
        r.push(to_lower_char(v[i]));
        i += 1;
    }
    proof {
        assert(v@.take(v@.len() as int) =~= v@);
    }
    r
}

/// How many times `c` occurs in `v`.
pub fn count_in(v: &Vec<char>, c: char) -> (n: usize)
    ensures
        n as nat == count_char(v@, c),
{
    let mut n: usize = 0;
    let mut i: usize = 0;
    while i < v.len()
        invariant
            i <= v.len(),
            n <= i,
            n as nat == count_char(v@.take(i as int), c),
        decreases v.len() - i,
    {
        proof {
            lemma_take_succ(v@, i as int);
            assert(v@.take(i as int + 1).drop_last() =~= v@.take(i as int));
        }
        if v[i] == c {
            n += 1;
        }
        i += 1;
    }
    proof {
        assert(v@.take(v@.len() as int) =~= v@);
    }
    n
}

/// Index of the first occurrence of `c` in `v`, or `v.len()` if absent.
pub fn find_in(v: &Vec<char>, c: char) -> (i: usize)
    ensures
        i as int == first_index_of(v@, c),
{
    let mut i: usize = 0;
    while i < v.len()
        invariant
            i <= v.len(),
            forall|k: int| 0 <= k < i ==> v@[k] != c,
        decreases v.len() - i,
    {
        if v[i] == c {
            proof {
                lemma_first_index_unique(v@, c, i as int);
            }
            return i;
        }
        i += 1;
    }
    proof {
        lemma_first_index_absent(v@, c);
    }
    i
}

/// The characters of `v` from `from` (inclusive) to `to` (exclusive).
pub fn sub_chars(v: &Vec<char>, from: usize, to: usize) -> (r: Vec<char>)
    requires
        from <= to <= v@.len(),
    ensures
        r@ == v@.subrange(from as int, to as int),
{
    let mut r: Vec<char> = Vec::new();
    let mut i: usize = from;
    while i < to
        invariant
            from <= i <= to <= v@.len(),
            r@ == v@.subrange(from as int, i as int),
        decreases to - i,
    {
        proof {
            assert(v@.subrange(from as int, i as int + 1) =~= v@.subrange(
                from as int,
                i as int,
            ).push(v@[i as int]));
        }
        r.push(v[i]);
        i += 1;
    }
    r
}

/// `v` with every occurrence of `c` removed.
pub fn remove_all(v: &Vec<char>, c: char) -> (r: Vec<char>)
    ensures
        r@ == remove_char(v@, c),
{
    let mut r: Vec<char> = Vec::new();
    let mut i: usize = 0;
    while i < v.len()
        invariant
            i <= v.len(),
            r@ == remove_char(v@.take(i as int), c),
        decreases v.len() - i,
    {
        proof {
            lemma_take_succ(v@, i as int);
            assert(v@.take(i as int + 1).drop_last() =~= v@.take(i as int));
        }
        if v[i] != c {
            r.push(v[i]);
        }
        i += 1;
    }
    proof {
        assert(v@.take(v@.len() as int) =~= v@);
    }
    r
}

} // verus!
