//! The space of term lists that the exhaustive search goes through, and the
//! proof that it goes through exactly that space.
use crate::bignum::{abs, gcd};
use crate::exact::{
    all_pairs, angle_matches, children, choice_coefficient, contribution, direction, exact_formulas,
    formula_angle, formula_product, lemma_direction_scale, lemma_matching_product_diagonal,
    lemma_product_concat, pair_matches, pairs_for, states, subtree, target_direction,
};
use crate::formula::{gmul, gpow, lemma_gcd_divides, lemma_gcd_scale, Term};
use vstd::prelude::*;

verus! {

/// `terms` takes its denominators from `dens` at the strictly increasing
/// `positions`, all at `start` or later, and its coefficients from
/// `1..=limit` in absolute value.
pub open spec fn placed(dens: Seq<u64>, limit: nat, terms: Seq<Term>, positions: Seq<int>, start: int) -> bool {
    &&& positions.len() == terms.len()
    &&& forall|j: int|
        0 <= j < terms.len() ==> start <= #[trigger] positions[j] < dens.len() && terms[j].denominator
            == dens[positions[j]] && 1 <= abs(terms[j].coefficient as int) <= limit
    &&& forall|j: int, k: int| 0 <= j < k < terms.len() ==> #[trigger] positions[j] < #[trigger] positions[k]
}

/// A term list of the search space: at most `max_terms` terms, denominators
/// from `dens` in their order, each used at most once, coefficients from
/// `1..=limit` in absolute value.
pub open spec fn in_space(dens: Seq<u64>, limit: nat, max_terms: nat, terms: Seq<Term>) -> bool {
    &&& terms.len() <= max_terms
    &&& exists|positions: Seq<int>| placed(dens, limit, terms, positions, 0)
}

/// The position of a coefficient in the order `1, -1, 2, -2, ...`.
spec fn choice_index(c: int) -> nat {
    if c > 0 {
        (2 * (c - 1)) as nat
    } else {
        (2 * (-c - 1) + 1) as nat
    }
}

proof fn lemma_choice_index(k: nat)
    ensures
        choice_index(choice_coefficient(k)) == k,
        1 <= abs(choice_coefficient(k)) <= k / 2 + 1,
{
}

proof fn lemma_choice_index_bound(c: int, limit: nat)
    requires
        1 <= abs(c) <= limit,
    ensures
        choice_index(c) < 2 * limit,
        choice_coefficient(choice_index(c)) == c,
{
}

/// `s` is `prefix` followed by terms placed at `start` or later.
spec fn extends_from(dens: Seq<u64>, limit: nat, prefix: Seq<Term>, start: int, s: Seq<Term>) -> bool {
    &&& prefix.len() <= s.len()
    &&& s.take(prefix.len() as int) == prefix
    &&& exists|positions: Seq<int>| placed(dens, limit, s.skip(prefix.len() as int), positions, start)
}

/// `s` is `prefix` followed by at least one term placed at `index` or later,
/// whose first term, when it sits at `index`, has choice `k` or later.
spec fn extends_after(dens: Seq<u64>, limit: nat, prefix: Seq<Term>, index: int, k: nat, s: Seq<Term>) -> bool {
    &&& prefix.len() < s.len()
    &&& s.take(prefix.len() as int) == prefix
    &&& exists|positions: Seq<int>|
        placed(dens, limit, s.skip(prefix.len() as int), positions, index) && (positions[0] > index
            || choice_index(s[prefix.len() as int].coefficient as int) >= k)
}

proof fn lemma_contains_concat<A>(a: Seq<A>, b: Seq<A>, x: A)
    ensures
        (a + b).contains(x) <==> a.contains(x) || b.contains(x),
{
    if (a + b).contains(x) {
        let i = choose|i: int| 0 <= i < (a + b).len() && (a + b)[i] == x;
        if i < a.len() {
            assert(a[i] == x);
        } else {
            assert(b[i - a.len()] == x);
        }
    }
    if a.contains(x) {
        let i = choose|i: int| 0 <= i < a.len() && a[i] == x;
        assert((a + b)[i] == x);
    }
    if b.contains(x) {
        let i = choose|i: int| 0 <= i < b.len() && b[i] == x;
        assert((a + b)[i + a.len()] == x);
    }
}

/// Placed terms stay placed from any earlier start.
proof fn lemma_placed_from_earlier(dens: Seq<u64>, limit: nat, terms: Seq<Term>, positions: Seq<int>, start: int, earlier: int)
    requires
        placed(dens, limit, terms, positions, start),
        earlier <= start,
    ensures
        placed(dens, limit, terms, positions, earlier),
{
}

/// Placed terms whose first position is past `start` are placed from `start + 1`.
proof fn lemma_placed_later(dens: Seq<u64>, limit: nat, terms: Seq<Term>, positions: Seq<int>, start: int)
    requires
        placed(dens, limit, terms, positions, start),
        terms.len() > 0 ==> positions[0] > start,
    ensures
        placed(dens, limit, terms, positions, start + 1),
{
    assert forall|j: int| 0 <= j < terms.len() implies start + 1 <= #[trigger] positions[j] by {
        if j > 0 {
            assert(positions[0] < positions[j]);
        }
    }
}

/// One placed term at `index` in front of terms placed after it.
proof fn lemma_placed_cons(
    dens: Seq<u64>,
    limit: nat,
    first: Term,
    rest: Seq<Term>,
    positions: Seq<int>,
    index: int,
)
    requires
        placed(dens, limit, rest, positions, index + 1),
        0 <= index < dens.len(),
        first.denominator == dens[index],
        1 <= abs(first.coefficient as int) <= limit,
    ensures
        placed(dens, limit, seq![first] + rest, seq![index] + positions, index),
{
    let terms = seq![first] + rest;
    let all = seq![index] + positions;
    assert forall|j: int| 0 <= j < terms.len() implies index <= #[trigger] all[j] < dens.len()
        && terms[j].denominator == dens[all[j]] && 1 <= abs(terms[j].coefficient as int) <= limit by {
        if j > 0 {
            assert(terms[j] == rest[j - 1]);
            assert(all[j] == positions[j - 1]);
        }
    }
    assert forall|j: int, k: int| 0 <= j < k < terms.len() implies #[trigger] all[j] < #[trigger] all[k] by {
        assert(all[k] == positions[k - 1]);
        if j > 0 {
            assert(all[j] == positions[j - 1]);
        }
    }
}

/// The terms after the first one, with their positions.
proof fn lemma_placed_tail(dens: Seq<u64>, limit: nat, terms: Seq<Term>, positions: Seq<int>, index: int)
    requires
        placed(dens, limit, terms, positions, index),
        terms.len() > 0,
        positions[0] == index,
    ensures
        placed(dens, limit, terms.drop_first(), positions.drop_first(), index + 1),
{
    assert forall|j: int| 0 <= j < terms.len() - 1 implies index + 1 <= #[trigger] positions.drop_first()[j] by {
        assert(positions[0] < positions[j + 1]);
    }
    assert forall|j: int, k: int|
        0 <= j < k < terms.len() - 1 implies #[trigger] positions.drop_first()[j]
        < #[trigger] positions.drop_first()[k] by {
        assert(positions[j + 1] < positions[k + 1]);
    }
}

/// The members of a subtree are the term lists that extend its prefix with
/// placed terms, up to `max_terms` terms.
proof fn lemma_subtree_members(dens: Seq<u64>, limit: nat, max_terms: nat, prefix: Seq<Term>, start: nat)
    requires
        prefix.len() <= max_terms,
        start <= dens.len(),
        limit <= u32::MAX,
    ensures
        forall|s: Seq<Term>|
            #[trigger] subtree(dens, limit, max_terms, prefix, start).contains(s) <==> s.len() <= max_terms
                && extends_from(dens, limit, prefix, start as int, s),
    decreases dens.len() - start, 2 * limit + 1,
{
    let tree = subtree(dens, limit, max_terms, prefix, start);
    assert(placed(dens, limit, Seq::<Term>::empty(), Seq::<int>::empty(), start as int));
    if prefix.len() >= max_terms {
        assert forall|s: Seq<Term>| #[trigger] tree.contains(s) <==> s.len() <= max_terms && extends_from(
            dens,
            limit,
            prefix,
            start as int,
            s,
        ) by {
            if tree.contains(s) {
                assert(tree[0] == prefix);
                assert(s == prefix);
                assert(s.take(prefix.len() as int) =~= prefix);
                assert(s.skip(prefix.len() as int) =~= Seq::<Term>::empty());
            }
            if s.len() <= max_terms && extends_from(dens, limit, prefix, start as int, s) {
                assert(s =~= s.take(prefix.len() as int));
                assert(tree[0] == s);
            }
        }
    } else {
        lemma_children_members(dens, limit, max_terms, prefix, start, 0);
        let rest = children(dens, limit, max_terms, prefix, start, 0);
        assert(tree == seq![prefix] + rest);
        assert forall|s: Seq<Term>| #[trigger] tree.contains(s) <==> s.len() <= max_terms && extends_from(
            dens,
            limit,
            prefix,
            start as int,
            s,
        ) by {
            lemma_contains_concat(seq![prefix], rest, s);
            assert(seq![prefix].contains(s) <==> s == prefix) by {
                if seq![prefix].contains(s) {
                    assert(seq![prefix][0] == prefix);
                }
                if s == prefix {
                    assert(seq![prefix][0] == s);
                }
            }
            if s == prefix {
                assert(s.take(prefix.len() as int) =~= prefix);
                assert(s.skip(prefix.len() as int) =~= Seq::<Term>::empty());
            }
            if s.len() <= max_terms && extends_from(dens, limit, prefix, start as int, s) {
                if s.len() == prefix.len() {
                    assert(s =~= s.take(prefix.len() as int));
                } else {
                    let positions = choose|positions: Seq<int>|
                        placed(dens, limit, s.skip(prefix.len() as int), positions, start as int);
                    assert(placed(dens, limit, s.skip(prefix.len() as int), positions, start as int)
                        && (positions[0] > start || choice_index(
                        s[prefix.len() as int].coefficient as int,
                    ) >= 0));
                    assert(extends_after(dens, limit, prefix, start as int, 0, s));
                }
            }
            if rest.contains(s) {
                assert(extends_after(dens, limit, prefix, start as int, 0, s));
                let positions = choose|positions: Seq<int>|
                    placed(dens, limit, s.skip(prefix.len() as int), positions, start as int) && (
                    positions[0] > start || choice_index(s[prefix.len() as int].coefficient as int) >= 0);
                assert(extends_from(dens, limit, prefix, start as int, s));
            }
        }
    }
}

/// The members of `children(prefix, index, k)` are the term lists that extend
/// `prefix` by placed terms starting with choice `k` or later at `index`.
proof fn lemma_children_members(
    dens: Seq<u64>,
    limit: nat,
    max_terms: nat,
    prefix: Seq<Term>,
    index: nat,
    k: nat,
)
    requires
        prefix.len() < max_terms,
        index <= dens.len(),
        k <= 2 * limit,
        limit <= u32::MAX,
    ensures
        forall|s: Seq<Term>|
            #[trigger] children(dens, limit, max_terms, prefix, index, k).contains(s) <==> s.len()
                <= max_terms && extends_after(dens, limit, prefix, index as int, k, s),
    decreases dens.len() - index, 2 * limit - k,
{
    let here = children(dens, limit, max_terms, prefix, index, k);
    let n = prefix.len() as int;
    let next: int = index as int + 1;
    if index >= dens.len() {
        assert forall|s: Seq<Term>| #[trigger] here.contains(s) <==> s.len() <= max_terms && extends_after(
            dens,
            limit,
            prefix,
            index as int,
            k,
            s,
        ) by {
            if extends_after(dens, limit, prefix, index as int, k, s) {
                let positions = choose|positions: Seq<int>|
                    placed(dens, limit, s.skip(n), positions, index as int) && (positions[0] > index
                        || choice_index(s[n].coefficient as int) >= k);
                assert(s.skip(n).len() > 0);
                assert(index <= positions[0] < dens.len());
            }
        }
    } else if k >= 2 * limit {
        lemma_children_members(dens, limit, max_terms, prefix, index + 1, 0);
        assert(here == children(dens, limit, max_terms, prefix, index + 1, 0));
        assert forall|s: Seq<Term>| #[trigger] here.contains(s) <==> s.len() <= max_terms && extends_after(
            dens,
            limit,
            prefix,
            index as int,
            k,
            s,
        ) by {
            if extends_after(dens, limit, prefix, index as int, k, s) {
                let positions = choose|positions: Seq<int>|
                    placed(dens, limit, s.skip(n), positions, index as int) && (positions[0] > index
                        || choice_index(s[n].coefficient as int) >= k);
                assert(s.skip(n)[0] == s[n]);
                assert(index <= positions[0] < dens.len());
                assert(1 <= abs(s[n].coefficient as int) <= limit);
                lemma_choice_index_bound(s[n].coefficient as int, limit);
                assert(positions[0] > index);
                lemma_placed_later(dens, limit, s.skip(n), positions, index as int);
                assert(extends_after(dens, limit, prefix, next, 0, s));
            }
            if extends_after(dens, limit, prefix, next, 0, s) {
                let positions = choose|positions: Seq<int>|
                    placed(dens, limit, s.skip(n), positions, next) && (positions[0] > index + 1
                        || choice_index(s[n].coefficient as int) >= 0);
                lemma_placed_from_earlier(dens, limit, s.skip(n), positions, next, index as int);
                assert(s.skip(n).len() > 0);
                assert(positions[0] > index);
            }
        }
    } else {
        let term = Term { coefficient: choice_coefficient(k) as i64, denominator: dens[index as int] };
        let longer = prefix.push(term);
        lemma_choice_index(k);
        assert(term.coefficient as int == choice_coefficient(k));
        lemma_subtree_members(dens, limit, max_terms, longer, index + 1);
        lemma_children_members(dens, limit, max_terms, prefix, index, k + 1);
        let first = subtree(dens, limit, max_terms, longer, index + 1);
        let rest = children(dens, limit, max_terms, prefix, index, k + 1);
        assert(here == first + rest);
        assert forall|s: Seq<Term>| #[trigger] here.contains(s) <==> s.len() <= max_terms && extends_after(
            dens,
            limit,
            prefix,
            index as int,
            k,
            s,
        ) by {
            lemma_contains_concat(first, rest, s);
            if first.contains(s) {
                assert(extends_from(dens, limit, longer, next, s));
                let tail = s.skip(n + 1);
                let positions = choose|positions: Seq<int>| placed(dens, limit, tail, positions, next);
                assert(s.take(n + 1) == longer);
                assert(s.take(n) =~= prefix) by {
                    assert(s.take(n) =~= s.take(n + 1).take(n));
                }
                assert(s[n] == term) by {
                    assert(s.take(n + 1)[n] == s[n]);
                }
                assert(s.skip(n) =~= seq![term] + s.skip(n + 1));
                lemma_placed_cons(dens, limit, term, s.skip(n + 1), positions, index as int);
                let all = seq![index as int] + positions;
                assert(placed(dens, limit, s.skip(n), all, index as int) && (all[0] > index
                    || choice_index(s[n].coefficient as int) >= k));
            }
            if rest.contains(s) {
                let positions = choose|positions: Seq<int>|
                    placed(dens, limit, s.skip(n), positions, index as int) && (positions[0] > index
                        || choice_index(s[n].coefficient as int) >= k + 1);
                assert(placed(dens, limit, s.skip(n), positions, index as int) && (positions[0] > index
                    || choice_index(s[n].coefficient as int) >= k));
            }
            if s.len() <= max_terms && extends_after(dens, limit, prefix, index as int, k, s) {
                let positions = choose|positions: Seq<int>|
                    placed(dens, limit, s.skip(n), positions, index as int) && (positions[0] > index
                        || choice_index(s[n].coefficient as int) >= k);
                assert(s.skip(n)[0] == s[n]);
                if positions[0] > index || choice_index(s[n].coefficient as int) >= k + 1 {
                    assert(extends_after(dens, limit, prefix, index as int, k + 1, s));
                } else {
                    lemma_choice_index_bound(s[n].coefficient as int, limit);
                    assert(s[n] == term);
                    assert(s.take(n + 1) =~= longer);
                    lemma_placed_tail(dens, limit, s.skip(n), positions, index as int);
                    assert(s.skip(n).drop_first() =~= s.skip(n + 1));
                    assert(extends_from(dens, limit, longer, next, s));
                }
            }
        }
    }
}

/// The exhaustive search goes through exactly the term lists of its space:
/// a term list is among the states over `dens` if and only if it has at most
/// `max_terms` terms, takes its denominators from `dens` in their order, each
/// position at most once, and its coefficients from `1..=limit` in absolute value.
pub proof fn states_are_the_space(dens: Seq<u64>, max_terms: nat, limit: nat, terms: Seq<Term>)
    requires
        limit <= u32::MAX,
    ensures
        states(dens, max_terms, limit).contains(terms) <==> in_space(dens, limit, max_terms, terms),
{
    lemma_subtree_members(dens, limit, max_terms, Seq::empty(), 0);
    assert(terms.take(0) =~= Seq::<Term>::empty());
    assert(terms.skip(0) =~= terms);
}

proof fn lemma_concat_distinct<A>(a: Seq<A>, b: Seq<A>)
    requires
        a.no_duplicates(),
        b.no_duplicates(),
        forall|x: A| a.contains(x) ==> !b.contains(x),
    ensures
        (a + b).no_duplicates(),
{
    let c = a + b;
    assert forall|i: int, j: int| 0 <= i < c.len() && 0 <= j < c.len() && i != j implies c[i] != c[j] by {
        if i < a.len() && j < a.len() {
            assert(c[i] == a[i] && c[j] == a[j]);
        } else if i >= a.len() && j >= a.len() {
            assert(c[i] == b[i - a.len()] && c[j] == b[j - a.len()]);
        } else if i < a.len() {
            assert(c[i] == a[i] && c[j] == b[j - a.len()]);
            assert(a.contains(a[i]));
            if c[i] == c[j] {
                assert(b.contains(b[j - a.len()]));
            }
        } else {
            assert(c[j] == a[j] && c[i] == b[i - a.len()]);
            assert(a.contains(a[j]));
            if c[i] == c[j] {
                assert(b.contains(b[i - a.len()]));
            }
        }
    }
}

proof fn lemma_subtree_distinct(dens: Seq<u64>, limit: nat, max_terms: nat, prefix: Seq<Term>, start: nat)
    requires
        prefix.len() <= max_terms,
        start <= dens.len(),
        limit <= u32::MAX,
        dens.no_duplicates(),
    ensures
        subtree(dens, limit, max_terms, prefix, start).no_duplicates(),
    decreases dens.len() - start, 2 * limit + 1,
{
    if prefix.len() < max_terms {
        lemma_children_distinct(dens, limit, max_terms, prefix, start, 0);
        lemma_children_members(dens, limit, max_terms, prefix, start, 0);
        let kids = children(dens, limit, max_terms, prefix, start, 0);
        assert forall|x: Seq<Term>| seq![prefix].contains(x) implies !kids.contains(x) by {
            assert(x == seq![prefix][0]);
        }
        lemma_concat_distinct(seq![prefix], kids);
    }
}

proof fn lemma_children_distinct(
    dens: Seq<u64>,
    limit: nat,
    max_terms: nat,
    prefix: Seq<Term>,
    index: nat,
    k: nat,
)
    requires
        prefix.len() < max_terms,
        index <= dens.len(),
        k <= 2 * limit,
        limit <= u32::MAX,
        dens.no_duplicates(),
    ensures
        children(dens, limit, max_terms, prefix, index, k).no_duplicates(),
    decreases dens.len() - index, 2 * limit - k,
{
    if index < dens.len() {
        if k >= 2 * limit {
            lemma_children_distinct(dens, limit, max_terms, prefix, index + 1, 0);
        } else {
            let n = prefix.len() as int;
            let t = Term { coefficient: choice_coefficient(k) as i64, denominator: dens[index as int] };
            let first = subtree(dens, limit, max_terms, prefix.push(t), index + 1);
            let rest = children(dens, limit, max_terms, prefix, index, k + 1);
            lemma_subtree_distinct(dens, limit, max_terms, prefix.push(t), index + 1);
            lemma_children_distinct(dens, limit, max_terms, prefix, index, k + 1);
            lemma_subtree_members(dens, limit, max_terms, prefix.push(t), index + 1);
            lemma_children_members(dens, limit, max_terms, prefix, index, k + 1);
            lemma_choice_index(k);
            assert forall|x: Seq<Term>| first.contains(x) implies !rest.contains(x) by {
                assert(x.take(n + 1) == prefix.push(t));
                assert(x[n] == x.take(n + 1)[n]);
                assert(x[n] == t);
                if rest.contains(x) {
                    let positions = choose|positions: Seq<int>|
                        placed(dens, limit, x.skip(n), positions, index as int) && (positions[0] > index
                            || choice_index(x[n].coefficient as int) >= k + 1);
                    assert(x.skip(n)[0] == x[n]);
                    assert(dens[positions[0]] == dens[index as int]);
                    assert(positions[0] == index);
                    assert(t.coefficient as int == choice_coefficient(k));
                }
            }
            lemma_concat_distinct(first, rest);
        }
    }
}

/// With distinct denominators, the enumeration of partial states lists no
/// state twice.
pub proof fn states_are_distinct(dens: Seq<u64>, max_terms: nat, limit: nat)
    requires
        limit <= u32::MAX,
        dens.no_duplicates(),
    ensures
        states(dens, max_terms, limit).no_duplicates(),
{
    lemma_subtree_distinct(dens, limit, max_terms, Seq::empty(), 0);
}

/// Every term of `terms` has its denominator in `set`.
spec fn denominators_in(terms: Seq<Term>, set: Set<u64>) -> bool {
    forall|j: int| 0 <= j < terms.len() ==> set.contains(#[trigger] terms[j].denominator)
}

/// No term of `terms` has its denominator in `set`.
spec fn denominators_outside(terms: Seq<Term>, set: Set<u64>) -> bool {
    forall|j: int| 0 <= j < terms.len() ==> !set.contains(#[trigger] terms[j].denominator)
}

/// A term list made of a left part over `set` and a right part outside it
/// splits in only one way.
proof fn lemma_split_unique(l1: Seq<Term>, r1: Seq<Term>, l2: Seq<Term>, r2: Seq<Term>, set: Set<u64>)
    requires
        denominators_in(l1, set),
        denominators_in(l2, set),
        denominators_outside(r1, set),
        denominators_outside(r2, set),
        l1 + r1 == l2 + r2,
    ensures
        l1 == l2,
        r1 == r2,
{
    let f = l1 + r1;
    if l1.len() < l2.len() {
        let n = l1.len() as int;
        assert(f.len() == l2.len() + r2.len());
        assert(r1.len() > 0);
        assert(f[n] == r1[0]);
        assert(f[n] == l2[n]);
        assert(set.contains(l2[n].denominator));
        assert(!set.contains(r1[0].denominator));
    } else if l2.len() < l1.len() {
        let n = l2.len() as int;
        assert(r2.len() > 0);
        assert(f[n] == r2[0]);
        assert(f[n] == l1[n]);
        assert(set.contains(l1[n].denominator));
        assert(!set.contains(r2[0].denominator));
    } else {
        assert(l1 =~= f.take(l1.len() as int));
        assert(l2 =~= f.take(l1.len() as int));
        assert(r1 =~= f.skip(l1.len() as int));
        assert(r2 =~= f.skip(l1.len() as int));
    }
}

proof fn lemma_pairs_for_distinct(left: Seq<Term>, rights: Seq<Seq<Term>>, max_terms: nat)
    requires
        rights.no_duplicates(),
    ensures
        pairs_for(left, rights, max_terms).no_duplicates(),
    decreases rights.len(),
{
    if rights.len() > 0 {
        let d = rights.drop_last();
        assert forall|i: int, j: int| 0 <= i < d.len() && 0 <= j < d.len() && i != j implies d[i] != d[j] by {
            assert(d[i] == rights[i] && d[j] == rights[j]);
        }
        lemma_pairs_for_distinct(left, d, max_terms);
        let rest = pairs_for(left, d, max_terms);
        if pair_matches(left, rights.last(), max_terms) {
            let x = left + rights.last();
            lemma_pairs_for_members(left, d, max_terms);
            if rest.contains(x) {
                let r = choose|r: Seq<Term>| d.contains(r) && pair_matches(left, r, max_terms) && x == left + r;
                assert(r =~= x.skip(left.len() as int));
                assert(rights.last() =~= x.skip(left.len() as int));
                let i = choose|i: int| 0 <= i < d.len() && d[i] == r;
                assert(rights[i] == rights[rights.len() - 1]);
            }
            lemma_concat_distinct(rest, seq![x]);
            assert(rest.push(x) =~= rest + seq![x]);
        }
    }
}

proof fn lemma_all_pairs_distinct(lefts: Seq<Seq<Term>>, rights: Seq<Seq<Term>>, max_terms: nat, set: Set<u64>)
    requires
        lefts.no_duplicates(),
        rights.no_duplicates(),
        forall|i: int| 0 <= i < lefts.len() ==> denominators_in(#[trigger] lefts[i], set),
        forall|i: int| 0 <= i < rights.len() ==> denominators_outside(#[trigger] rights[i], set),
    ensures
        all_pairs(lefts, rights, max_terms).no_duplicates(),
    decreases lefts.len(),
{
    if lefts.len() > 0 {
        let d = lefts.drop_last();
        let last = lefts.last();
        assert forall|i: int, j: int| 0 <= i < d.len() && 0 <= j < d.len() && i != j implies d[i] != d[j] by {
            assert(d[i] == lefts[i] && d[j] == lefts[j]);
        }
        assert forall|i: int| 0 <= i < d.len() implies denominators_in(#[trigger] d[i], set) by {
            assert(d[i] == lefts[i]);
        }
        lemma_all_pairs_distinct(d, rights, max_terms, set);
        lemma_pairs_for_distinct(last, rights, max_terms);
        let before = all_pairs(d, rights, max_terms);
        let here = pairs_for(last, rights, max_terms);
        lemma_all_pairs_members(d, rights, max_terms);
        lemma_pairs_for_members(last, rights, max_terms);
        assert(denominators_in(last, set));
        assert forall|x: Seq<Term>| before.contains(x) implies !here.contains(x) by {
            let (l, r) = choose|l: Seq<Term>, r: Seq<Term>|
                d.contains(l) && rights.contains(r) && pair_matches(l, r, max_terms) && x == l + r;
            let i = choose|i: int| 0 <= i < d.len() && d[i] == l;
            let j = choose|j: int| 0 <= j < rights.len() && rights[j] == r;
            assert(denominators_in(d[i], set));
            assert(denominators_outside(rights[j], set));
            if here.contains(x) {
                let r2 = choose|r2: Seq<Term>| rights.contains(r2) && pair_matches(last, r2, max_terms) && x
                    == last + r2;
                let j2 = choose|j2: int| 0 <= j2 < rights.len() && rights[j2] == r2;
                assert(denominators_outside(rights[j2], set));
                lemma_split_unique(l, r, last, r2, set);
                assert(lefts[i] == lefts[lefts.len() - 1]);
            }
        }
        lemma_concat_distinct(before, here);
    }
}

/// With distinct denominators, the exhaustive search reports no formula
/// twice.
pub proof fn exact_formulas_are_distinct(dens: Seq<u64>, max_terms: nat, limit: nat)
    requires
        limit <= u32::MAX,
        dens.no_duplicates(),
    ensures
        exact_formulas(dens, max_terms, limit).no_duplicates(),
{
    let h = (dens.len() / 2) as int;
    let left_dens = dens.subrange(0, h);
    let right_dens = dens.subrange(h, dens.len() as int);
    let set = left_dens.to_set();
    assert forall|i: int, j: int| 0 <= i < left_dens.len() && 0 <= j < left_dens.len() && i != j implies left_dens[i]
        != left_dens[j] by {
        assert(left_dens[i] == dens[i] && left_dens[j] == dens[j]);
    }
    assert forall|i: int, j: int| 0 <= i < right_dens.len() && 0 <= j < right_dens.len() && i != j implies right_dens[i]
        != right_dens[j] by {
        assert(right_dens[i] == dens[i + h] && right_dens[j] == dens[j + h]);
    }
    states_are_distinct(left_dens, max_terms, limit);
    states_are_distinct(right_dens, max_terms, limit);
    let lefts = states(left_dens, max_terms, limit);
    let rights = states(right_dens, max_terms, limit);
    assert forall|i: int| 0 <= i < lefts.len() implies denominators_in(#[trigger] lefts[i], set) by {
        assert(lefts.contains(lefts[i]));
        states_are_the_space(left_dens, max_terms, limit, lefts[i]);
        let positions = choose|positions: Seq<int>| placed(left_dens, limit, lefts[i], positions, 0);
        assert forall|j: int| 0 <= j < lefts[i].len() implies set.contains(#[trigger] lefts[i][j].denominator) by {
            assert(left_dens.contains(left_dens[positions[j]]));
        }
    }
    assert forall|i: int| 0 <= i < rights.len() implies denominators_outside(#[trigger] rights[i], set) by {
        assert(rights.contains(rights[i]));
        states_are_the_space(right_dens, max_terms, limit, rights[i]);
        let positions = choose|positions: Seq<int>| placed(right_dens, limit, rights[i], positions, 0);
        assert forall|j: int| 0 <= j < rights[i].len() implies !set.contains(#[trigger] rights[i][j].denominator) by {
            let p = positions[j];
            assert(rights[i][j].denominator == dens[p + h]);
            if set.contains(rights[i][j].denominator) {
                let q = choose|q: int| 0 <= q < left_dens.len() && left_dens[q] == rights[i][j].denominator;
                assert(dens[q] == dens[p + h]);
            }
        }
    }
    lemma_all_pairs_distinct(lefts, rights, max_terms, set);
}

// ---------------------------------------------------------------------------
// Directions and the positive diagonal
// ---------------------------------------------------------------------------

/// `re^2 + im^2`.
spec fn norm(z: (int, int)) -> int {
    z.0 * z.0 + z.1 * z.1
}

proof fn lemma_norm_gmul(a: (int, int), b: (int, int))
    ensures
        norm(gmul(a, b)) == norm(a) * norm(b),
{
    let (a0, a1, b0, b1) = (a.0, a.1, b.0, b.1);
    let (p, q, u, v) = (a0 * b0, a1 * b1, a0 * b1, a1 * b0);
    assert((p - q) * (p - q) == p * p - 2 * (p * q) + q * q) by (nonlinear_arith);
    assert((u + v) * (u + v) == u * u + 2 * (u * v) + v * v) by (nonlinear_arith);
    assert(p * q == u * v) by (nonlinear_arith)
        requires
            p == a0 * b0,
            q == a1 * b1,
            u == a0 * b1,
            v == a1 * b0,
    ;
    assert(p * p == (a0 * a0) * (b0 * b0)) by (nonlinear_arith)
        requires
            p == a0 * b0,
    ;
    assert(q * q == (a1 * a1) * (b1 * b1)) by (nonlinear_arith)
        requires
            q == a1 * b1,
    ;
    assert(u * u == (a0 * a0) * (b1 * b1)) by (nonlinear_arith)
        requires
            u == a0 * b1,
    ;
    assert(v * v == (a1 * a1) * (b0 * b0)) by (nonlinear_arith)
        requires
            v == a1 * b0,
    ;
    let (x0, x1, y0, y1) = (a0 * a0, a1 * a1, b0 * b0, b1 * b1);
    assert((x0 + x1) * (y0 + y1) == x0 * y0 + x1 * y1 + x0 * y1 + x1 * y0) by (nonlinear_arith);
}

proof fn lemma_gpow_norm(b: (int, int), e: nat)
    requires
        norm(b) >= 1,
    ensures
        norm(gpow(b, e)) >= 1,
    decreases e,
{
    if e > 0 {
        lemma_gpow_norm(b, (e - 1) as nat);
        let p = gpow(b, (e - 1) as nat);
        lemma_norm_gmul(p, b);
        let x = norm(p);
        let y = norm(b);
        assert(x * y >= 1) by (nonlinear_arith)
            requires
                x >= 1,
                y >= 1,
        ;
    }
}

/// The product of a term list is never zero.
proof fn lemma_product_norm(terms: Seq<Term>)
    ensures
        norm(formula_product(terms)) >= 1,
    decreases terms.len(),
{
    if terms.len() > 0 {
        lemma_product_norm(terms.drop_last());
        let t = terms.last();
        let d = t.denominator as int;
        assert(d * d >= 0) by (nonlinear_arith);
        assert(norm((d, 1)) >= 1 && norm((d, -1)) >= 1);
        lemma_gpow_norm((d, 1), abs(t.coefficient as int) as nat);
        lemma_gpow_norm((d, -1), abs(t.coefficient as int) as nat);
        let p = formula_product(terms.drop_last());
        let c = contribution(t.coefficient as int, d);
        lemma_norm_gmul(p, c);
        let x = norm(p);
        let y = norm(c);
        assert(x * y >= 1) by (nonlinear_arith)
            requires
                x >= 1,
                y >= 1,
        ;
    }
}

proof fn lemma_norm_nonzero(z: (int, int))
    requires
        norm(z) >= 1,
    ensures
        z != (0int, 0int),
{
}

/// Nonzero Gaussian integers that are positive multiples of one another have
/// the same direction.
proof fn lemma_direction_of_multiples(r: (int, int), t: (int, int), n: int, m: int)
    requires
        n > 0,
        m > 0,
        n * r.0 == m * t.0,
        n * r.1 == m * t.1,
        r != (0int, 0int),
    ensures
        direction(r) == direction(t),
{
    let gr = gcd(abs(r.0) as nat, abs(r.1) as nat);
    let gt = gcd(abs(t.0) as nat, abs(t.1) as nat);
    lemma_gcd_divides(abs(r.0) as nat, abs(r.1) as nat);
    lemma_gcd_divides(abs(t.0) as nat, abs(t.1) as nat);
    assert(abs(n * r.0) == n * abs(r.0) && abs(n * r.1) == n * abs(r.1)) by (nonlinear_arith)
        requires
            n > 0,
    ;
    assert(abs(m * t.0) == m * abs(t.0) && abs(m * t.1) == m * abs(t.1)) by (nonlinear_arith)
        requires
            m > 0,
    ;
    if t == (0int, 0int) {
        assert(n * r.0 == 0 && n * r.1 == 0);
        assert(r.0 == 0 && r.1 == 0) by (nonlinear_arith)
            requires
                n * r.0 == 0,
                n * r.1 == 0,
                n > 0,
        ;
    }
    lemma_gcd_scale(n as nat, abs(r.0) as nat, abs(r.1) as nat);
    lemma_gcd_scale(m as nat, abs(t.0) as nat, abs(t.1) as nat);
    assert(n * gr == m * gt);
    lemma_direction_scale(r);
    lemma_direction_scale(t);
    let (x0, x1) = (direction(r).0, direction(r).1);
    let (y0, y1) = (direction(t).0, direction(t).1);
    let (gri, gti) = (gr as int, gt as int);
    assert(x0 == y0) by (nonlinear_arith)
        requires
            x0 * gri == r.0,
            y0 * gti == t.0,
            n * r.0 == m * t.0,
            n * gri == m * gti,
            n > 0,
            gri > 0,
    ;
    assert(x1 == y1) by (nonlinear_arith)
        requires
            x1 * gri == r.1,
            y1 * gti == t.1,
            n * r.1 == m * t.1,
            n * gri == m * gti,
            n > 0,
            gri > 0,
    ;
}

/// When `a * b` lies on the positive diagonal, `b` points in the direction
/// that the search asks of the partner of `a`.
proof fn lemma_diagonal_direction(a: (int, int), b: (int, int))
    requires
        a != (0int, 0int),
        b != (0int, 0int),
        gmul(a, b).0 == gmul(a, b).1,
        gmul(a, b).0 > 0,
    ensures
        direction(b) == target_direction(direction(a)),
{
    let (a0, a1, b0, b1) = (a.0, a.1, b.0, b.1);
    let t = gmul(a, b).0;
    let n = norm(a);
    assert(a0 * (a0 * b0 - a1 * b1) + a1 * (a0 * b1 + a1 * b0) == (a0 * a0 + a1 * a1) * b0)
        by (nonlinear_arith);
    assert(a0 * (a0 * b1 + a1 * b0) - a1 * (a0 * b0 - a1 * b1) == (a0 * a0 + a1 * a1) * b1)
        by (nonlinear_arith);
    assert(n * b0 == (a0 + a1) * t) by (nonlinear_arith)
        requires
            a0 * (a0 * b0 - a1 * b1) + a1 * (a0 * b1 + a1 * b0) == (a0 * a0 + a1 * a1) * b0,
            a0 * b0 - a1 * b1 == t,
            a0 * b1 + a1 * b0 == t,
            n == a0 * a0 + a1 * a1,
    ;
    assert(n * b1 == (a0 - a1) * t) by (nonlinear_arith)
        requires
            a0 * (a0 * b1 + a1 * b0) - a1 * (a0 * b0 - a1 * b1) == (a0 * a0 + a1 * a1) * b1,
            a0 * b0 - a1 * b1 == t,
            a0 * b1 + a1 * b0 == t,
            n == a0 * a0 + a1 * a1,
    ;
    let k = direction(a);
    let g = gcd(abs(a0) as nat, abs(a1) as nat);
    lemma_direction_scale(a);
    lemma_gcd_divides(abs(a0) as nat, abs(a1) as nat);
    let gi = g as int;
    let target = (k.0 + k.1, k.0 - k.1);
    let m = gi * t;
    assert(n * b0 == m * target.0 && n * b1 == m * target.1) by (nonlinear_arith)
        requires
            n * b0 == (a0 + a1) * t,
            n * b1 == (a0 - a1) * t,
            a0 == k.0 * gi,
            a1 == k.1 * gi,
            m == gi * t,
            target == (k.0 + k.1, k.0 - k.1),
    ;
    assert(n > 0) by (nonlinear_arith)
        requires
            n == a0 * a0 + a1 * a1,
            a0 != 0 || a1 != 0,
    ;
    assert(m > 0) by (nonlinear_arith)
        requires
            m == gi * t,
            gi > 0,
            t > 0,
    ;
    lemma_direction_of_multiples(b, target, n, m);
}

/// For nonzero factors, the search's direction test is exactly the test that
/// the product lies on the positive diagonal.
proof fn lemma_direction_test(a: (int, int), b: (int, int))
    requires
        a != (0int, 0int),
        b != (0int, 0int),
    ensures
        direction(b) == target_direction(direction(a)) <==> (gmul(a, b).0 == gmul(a, b).1 && gmul(a, b).0
            > 0),
{
    if direction(b) == target_direction(direction(a)) {
        lemma_matching_product_diagonal(a, b);
    }
    if gmul(a, b).0 == gmul(a, b).1 && gmul(a, b).0 > 0 {
        lemma_diagonal_direction(a, b);
    }
}

/// For any nonzero Gaussian integers `a` and `b`, `b` has the direction that
/// the search asks of the partner of `a` exactly when `a * b` lies on the
/// positive diagonal, that is `a * b == t * (1 + i)` with `t > 0`.
pub proof fn direction_test_is_diagonal_test(a: (int, int), b: (int, int))
    requires
        a != (0int, 0int),
        b != (0int, 0int),
    ensures
        direction(b) == target_direction(direction(a)) <==> (gmul(a, b).0 == gmul(a, b).1 && gmul(a, b).0
            > 0),
{
    lemma_direction_test(a, b);
}

/// The direction key of the exhaustive search is the `pi/4` test: the right
/// half's product points in the direction that the left half asks for exactly
/// when the product `prod (d_j +- i)^|c_j|` of all the terms lies on the
/// positive diagonal.
pub proof fn direction_key_matches_diagonal(left: Seq<Term>, right: Seq<Term>)
    ensures
        direction(formula_product(right)) == target_direction(direction(formula_product(left))) <==> (
        formula_product(left + right).0 == formula_product(left + right).1 && formula_product(
            left + right,
        ).0 > 0),
{
    lemma_product_concat(left, right);
    lemma_product_norm(left);
    lemma_product_norm(right);
    lemma_norm_nonzero(formula_product(left));
    lemma_norm_nonzero(formula_product(right));
    lemma_direction_test(formula_product(left), formula_product(right));
}

/// The angle of a concatenation is the sum of the angles.
pub(crate) proof fn lemma_angle_concat(left: Seq<Term>, right: Seq<Term>)
    ensures
        formula_angle(left + right) == formula_angle(left) + formula_angle(right),
    decreases right.len(),
{
    if right.len() == 0 {
        assert(left + right =~= left);
    } else {
        lemma_angle_concat(left, right.drop_last());
        assert((left + right).drop_last() =~= left + right.drop_last());
        assert((left + right).last() == right.last());
    }
}

// ---------------------------------------------------------------------------
// The reported formulas
// ---------------------------------------------------------------------------

proof fn lemma_pairs_for_members(left: Seq<Term>, rights: Seq<Seq<Term>>, max_terms: nat)
    ensures
        forall|f: Seq<Term>|
            #[trigger] pairs_for(left, rights, max_terms).contains(f) <==> exists|right: Seq<Term>|
                rights.contains(right) && pair_matches(left, right, max_terms) && f == left + right,
    decreases rights.len(),
{
    let here = pairs_for(left, rights, max_terms);
    if rights.len() == 0 {
        assert forall|f: Seq<Term>| #[trigger] here.contains(f) <==> exists|right: Seq<Term>|
            rights.contains(right) && pair_matches(left, right, max_terms) && f == left + right by {
            if exists|right: Seq<Term>| rights.contains(right) && pair_matches(left, right, max_terms) && f
                == left + right {
                let right = choose|right: Seq<Term>|
                    rights.contains(right) && pair_matches(left, right, max_terms) && f == left + right;
                let i = choose|i: int| 0 <= i < rights.len() && rights[i] == right;
            }
        }
    } else {
        let before = rights.drop_last();
        let last = rights.last();
        lemma_pairs_for_members(left, before, max_terms);
        let rest = pairs_for(left, before, max_terms);
        assert(rights == before + seq![last]);
        assert forall|f: Seq<Term>| #[trigger] here.contains(f) <==> exists|right: Seq<Term>|
            rights.contains(right) && pair_matches(left, right, max_terms) && f == left + right by {
            if pair_matches(left, last, max_terms) {
                assert(here == rest + seq![left + last]);
                lemma_contains_concat(rest, seq![left + last], f);
            } else {
                assert(here == rest);
            }
            assert(seq![left + last].contains(f) <==> f == left + last) by {
                if f == left + last {
                    assert(seq![left + last][0] == f);
                }
            }
            if here.contains(f) {
                if rest.contains(f) {
                    let right = choose|right: Seq<Term>|
                        before.contains(right) && pair_matches(left, right, max_terms) && f == left + right;
                    lemma_contains_concat(before, seq![last], right);
                } else {
                    assert(seq![last][0] == last);
                    lemma_contains_concat(before, seq![last], last);
                }
            }
            if exists|right: Seq<Term>| rights.contains(right) && pair_matches(left, right, max_terms) && f
                == left + right {
                let right = choose|right: Seq<Term>|
                    rights.contains(right) && pair_matches(left, right, max_terms) && f == left + right;
                lemma_contains_concat(before, seq![last], right);
                if !before.contains(right) {
                    let i = choose|i: int| 0 <= i < 1 && seq![last][i] == right;
                    assert(right == last);
                }
            }
        }
    }
}

proof fn lemma_all_pairs_members(lefts: Seq<Seq<Term>>, rights: Seq<Seq<Term>>, max_terms: nat)
    ensures
        forall|f: Seq<Term>|
            #[trigger] all_pairs(lefts, rights, max_terms).contains(f) <==> exists|left: Seq<Term>, right: Seq<Term>|
                lefts.contains(left) && rights.contains(right) && pair_matches(left, right, max_terms) && f
                    == left + right,
    decreases lefts.len(),
{
    let here = all_pairs(lefts, rights, max_terms);
    if lefts.len() == 0 {
        assert forall|f: Seq<Term>| #[trigger] here.contains(f) <==> exists|left: Seq<Term>, right: Seq<Term>|
            lefts.contains(left) && rights.contains(right) && pair_matches(left, right, max_terms) && f
                == left + right by {
            if exists|left: Seq<Term>, right: Seq<Term>|
                lefts.contains(left) && rights.contains(right) && pair_matches(left, right, max_terms) && f
                    == left + right {
                let (left, right) = choose|left: Seq<Term>, right: Seq<Term>|
                    lefts.contains(left) && rights.contains(right) && pair_matches(left, right, max_terms)
                        && f == left + right;
                let i = choose|i: int| 0 <= i < lefts.len() && lefts[i] == left;
            }
        }
    } else {
        let before = lefts.drop_last();
        let last = lefts.last();
        lemma_all_pairs_members(before, rights, max_terms);
        lemma_pairs_for_members(last, rights, max_terms);
        let rest = all_pairs(before, rights, max_terms);
        let mine = pairs_for(last, rights, max_terms);
        assert(here == rest + mine);
        assert(lefts == before + seq![last]);
        assert forall|f: Seq<Term>| #[trigger] here.contains(f) <==> exists|left: Seq<Term>, right: Seq<Term>|
            lefts.contains(left) && rights.contains(right) && pair_matches(left, right, max_terms) && f
                == left + right by {
            lemma_contains_concat(rest, mine, f);
            if rest.contains(f) {
                let (left, right) = choose|left: Seq<Term>, right: Seq<Term>|
                    before.contains(left) && rights.contains(right) && pair_matches(left, right, max_terms)
                        && f == left + right;
                lemma_contains_concat(before, seq![last], left);
            }
            if mine.contains(f) {
                let right = choose|right: Seq<Term>|
                    rights.contains(right) && pair_matches(last, right, max_terms) && f == last + right;
                assert(seq![last][0] == last);
                lemma_contains_concat(before, seq![last], last);
            }
            if exists|left: Seq<Term>, right: Seq<Term>|
                lefts.contains(left) && rights.contains(right) && pair_matches(left, right, max_terms) && f
                    == left + right {
                let (left, right) = choose|left: Seq<Term>, right: Seq<Term>|
                    lefts.contains(left) && rights.contains(right) && pair_matches(left, right, max_terms)
                        && f == left + right;
                lemma_contains_concat(before, seq![last], left);
                if !before.contains(left) {
                    let i = choose|i: int| 0 <= i < 1 && seq![last][i] == left;
                    assert(left == last);
                    assert(mine.contains(f));
                } else {
                    assert(rest.contains(f));
                }
            }
        }
    }
}

/// The number of leading positions below `h`.
spec fn first_at_least(positions: Seq<int>, h: int) -> nat
    decreases positions.len(),
{
    if positions.len() == 0 || positions[0] >= h {
        0
    } else {
        1 + first_at_least(positions.drop_first(), h)
    }
}

proof fn lemma_first_at_least(positions: Seq<int>, h: int)
    requires
        forall|j: int, k: int|
            0 <= j < k < positions.len() ==> #[trigger] positions[j] < #[trigger] positions[k],
    ensures
        first_at_least(positions, h) <= positions.len(),
        forall|j: int| 0 <= j < first_at_least(positions, h) ==> #[trigger] positions[j] < h,
        forall|j: int| first_at_least(positions, h) <= j < positions.len() ==> #[trigger] positions[j] >= h,
    decreases positions.len(),
{
    if positions.len() > 0 {
        let rest = positions.drop_first();
        assert forall|j: int, k: int| 0 <= j < k < rest.len() implies #[trigger] rest[j] < #[trigger] rest[k] by {
            assert(positions[j + 1] < positions[k + 1]);
        }
        lemma_first_at_least(rest, h);
        if positions[0] >= h {
            assert forall|j: int| 0 <= j < positions.len() implies #[trigger] positions[j] >= h by {
                if j > 0 {
                    assert(positions[0] < positions[j]);
                }
            }
        } else {
            assert forall|j: int| 0 <= j < first_at_least(positions, h) implies #[trigger] positions[j] < h by {
                if j > 0 {
                    assert(positions[j] == rest[j - 1]);
                }
            }
            assert forall|j: int| first_at_least(positions, h) <= j < positions.len() implies #[trigger] positions[j]
                >= h by {
                assert(positions[j] == rest[j - 1]);
            }
        }
    }
}

/// Terms placed over the two halves of the denominators join into terms
/// placed over all of them.
proof fn lemma_placed_join(
    dens: Seq<u64>,
    h: int,
    limit: nat,
    left: Seq<Term>,
    left_positions: Seq<int>,
    right: Seq<Term>,
    right_positions: Seq<int>,
)
    requires
        0 <= h <= dens.len(),
        placed(dens.subrange(0, h), limit, left, left_positions, 0),
        placed(dens.subrange(h, dens.len() as int), limit, right, right_positions, 0),
    ensures
        placed(dens, limit, left + right, left_positions + right_positions.map(|i: int, x: int| x + h), 0),
{
    let shifted = right_positions.map(|i: int, x: int| x + h);
    let terms = left + right;
    let positions = left_positions + shifted;
    assert forall|j: int| 0 <= j < terms.len() implies 0 <= #[trigger] positions[j] < dens.len()
        && terms[j].denominator == dens[positions[j]] && 1 <= abs(terms[j].coefficient as int) <= limit by {
        if j < left.len() {
            assert(positions[j] == left_positions[j]);
            assert(terms[j] == left[j]);
            assert(dens.subrange(0, h)[left_positions[j]] == dens[left_positions[j]]);
        } else {
            let i = j - left.len();
            assert(positions[j] == shifted[i]);
            assert(shifted[i] == right_positions[i] + h);
            assert(terms[j] == right[i]);
            assert(dens.subrange(h, dens.len() as int)[right_positions[i]] == dens[right_positions[i] + h]);
        }
    }
    assert forall|j: int, k: int| 0 <= j < k < terms.len() implies #[trigger] positions[j] < #[trigger] positions[k] by {
        if k < left.len() {
            assert(positions[j] == left_positions[j] && positions[k] == left_positions[k]);
        } else if j < left.len() {
            assert(positions[j] == left_positions[j]);
            assert(left_positions[j] < h);
            assert(positions[k] == shifted[k - left.len()]);
            assert(shifted[k - left.len()] == right_positions[k - left.len()] + h);
            assert(right_positions[k - left.len()] >= 0);
        } else {
            assert(positions[j] == shifted[j - left.len()] && positions[k] == shifted[k - left.len()]);
            assert(right_positions[j - left.len()] < right_positions[k - left.len()]);
        }
    }
}

/// Terms placed over all the denominators split into terms placed over the
/// two halves.
proof fn lemma_placed_split(dens: Seq<u64>, h: int, limit: nat, terms: Seq<Term>, positions: Seq<int>)
    requires
        0 <= h <= dens.len(),
        placed(dens, limit, terms, positions, 0),
    ensures
        placed(
            dens.subrange(0, h),
            limit,
            terms.take(first_at_least(positions, h) as int),
            positions.take(first_at_least(positions, h) as int),
            0,
        ),
        placed(
            dens.subrange(h, dens.len() as int),
            limit,
            terms.skip(first_at_least(positions, h) as int),
            positions.skip(first_at_least(positions, h) as int).map(|i: int, x: int| x - h),
            0,
        ),
{
    lemma_first_at_least(positions, h);
    let c = first_at_least(positions, h) as int;
    let left = terms.take(c);
    let lp = positions.take(c);
    let right = terms.skip(c);
    let rp = positions.skip(c).map(|i: int, x: int| x - h);
    assert forall|j: int| 0 <= j < left.len() implies 0 <= #[trigger] lp[j] < dens.subrange(0, h).len()
        && left[j].denominator == dens.subrange(0, h)[lp[j]] && 1 <= abs(left[j].coefficient as int)
        <= limit by {
        assert(lp[j] == positions[j] && left[j] == terms[j]);
    }
    assert forall|j: int, k: int| 0 <= j < k < left.len() implies #[trigger] lp[j] < #[trigger] lp[k] by {
        assert(lp[j] == positions[j] && lp[k] == positions[k]);
    }
    assert forall|j: int| 0 <= j < right.len() implies 0 <= #[trigger] rp[j] < dens.subrange(
        h,
        dens.len() as int,
    ).len() && right[j].denominator == dens.subrange(h, dens.len() as int)[rp[j]] && 1 <= abs(
        right[j].coefficient as int,
    ) <= limit by {
        assert(rp[j] == positions[j + c] - h && right[j] == terms[j + c]);
        assert(positions[j + c] >= h);
    }
    assert forall|j: int, k: int| 0 <= j < k < right.len() implies #[trigger] rp[j] < #[trigger] rp[k] by {
        assert(rp[j] == positions[j + c] - h && rp[k] == positions[k + c] - h);
        assert(positions[j + c] < positions[k + c]);
    }
}

/// The exhaustive search reports exactly the formulas of its space whose
/// product `prod (d + i)^c` (with `(d - i)^|c|` for a negative `c`) lies on
/// the positive diagonal and whose angle is `pi/4` within the tolerance: at
/// least one and at most `max_terms` terms, denominators from `dens` in their
/// order and each position at most once, coefficients from `1..=limit` in
/// absolute value.
pub proof fn exact_search_is_exhaustive(dens: Seq<u64>, max_terms: nat, limit: nat, formula: Seq<Term>)
    requires
        limit <= u32::MAX,
    ensures
        exact_formulas(dens, max_terms, limit).contains(formula) <==> {
            &&& in_space(dens, limit, max_terms, formula)
            &&& formula.len() > 0
            &&& formula_product(formula).0 == formula_product(formula).1
            &&& formula_product(formula).0 > 0
            &&& angle_matches(formula_angle(formula))
        },
{
    let h = (dens.len() / 2) as int;
    let left_dens = dens.subrange(0, h);
    let right_dens = dens.subrange(h, dens.len() as int);
    let lefts = states(left_dens, max_terms, limit);
    let rights = states(right_dens, max_terms, limit);
    lemma_all_pairs_members(lefts, rights, max_terms);
    let found = exact_formulas(dens, max_terms, limit);
    assert(found == all_pairs(lefts, rights, max_terms));
    if found.contains(formula) {
        let (left, right) = choose|left: Seq<Term>, right: Seq<Term>|
            lefts.contains(left) && rights.contains(right) && pair_matches(left, right, max_terms) && formula
                == left + right;
        states_are_the_space(left_dens, max_terms, limit, left);
        states_are_the_space(right_dens, max_terms, limit, right);
        let lp = choose|positions: Seq<int>| placed(left_dens, limit, left, positions, 0);
        let rp = choose|positions: Seq<int>| placed(right_dens, limit, right, positions, 0);
        lemma_placed_join(dens, h, limit, left, lp, right, rp);
        lemma_product_concat(left, right);
        lemma_angle_concat(left, right);
        lemma_product_norm(left);
        lemma_product_norm(right);
        lemma_norm_nonzero(formula_product(left));
        lemma_norm_nonzero(formula_product(right));
        lemma_direction_test(formula_product(left), formula_product(right));
    }
    if in_space(dens, limit, max_terms, formula) && formula.len() > 0 && formula_product(formula).0
        == formula_product(formula).1 && formula_product(formula).0 > 0 && angle_matches(
        formula_angle(formula),
    ) {
        let positions = choose|positions: Seq<int>| placed(dens, limit, formula, positions, 0);
        lemma_placed_split(dens, h, limit, formula, positions);
        let c = first_at_least(positions, h) as int;
        lemma_first_at_least(positions, h);
        let left = formula.take(c);
        let right = formula.skip(c);
        assert(formula == left + right);
        assert(in_space(left_dens, limit, max_terms, left));
        assert(in_space(right_dens, limit, max_terms, right));
        states_are_the_space(left_dens, max_terms, limit, left);
        states_are_the_space(right_dens, max_terms, limit, right);
        lemma_product_concat(left, right);
        lemma_angle_concat(left, right);
        lemma_product_norm(left);
        lemma_product_norm(right);
        lemma_norm_nonzero(formula_product(left));
        lemma_norm_nonzero(formula_product(right));
        lemma_direction_test(formula_product(left), formula_product(right));
        assert(pair_matches(left, right, max_terms));
    }
}

} // verus!
