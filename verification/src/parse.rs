//! Parsing of formulas (`"4:5,-1:239"`) and denominator lists (`"2-10,239"`).
use crate::formula::Term;
use vstd::prelude::*;
use vstd::string::StringExecFns;

verus! {

// ---------------------------------------------------------------------------
// Text specifications
// ---------------------------------------------------------------------------

/// Unicode `White_Space`, the characters `str::trim` removes.
pub open spec fn is_white_space(c: char) -> bool {
    let u = c as u32;
    (9 <= u <= 13) || u == 32 || u == 0x85 || u == 0xa0 || u == 0x1680 || (0x2000 <= u
        <= 0x200a) || u == 0x2028 || u == 0x2029 || u == 0x202f || u == 0x205f || u == 0x3000
}

pub open spec fn trim_start(s: Seq<char>) -> Seq<char>
    decreases s.len(),
{
    if s.len() > 0 && is_white_space(s[0]) {
        trim_start(s.drop_first())
    } else {
        s
    }
}

pub open spec fn trim_end(s: Seq<char>) -> Seq<char>
    decreases s.len(),
{
    if s.len() > 0 && is_white_space(s.last()) {
        trim_end(s.drop_last())
    } else {
        s
    }
}

/// `str::trim`: leading and trailing white space removed.
pub open spec fn trim(s: Seq<char>) -> Seq<char> {
    trim_end(trim_start(s))
}

/// The first position of `c` in `s`.
pub open spec fn first_index(s: Seq<char>, c: char) -> Option<int>
    decreases s.len(),
{
    if s.len() == 0 {
        None
    } else if s[0] == c {
        Some(0)
    } else {
        match first_index(s.drop_first(), c) {
            Some(i) => Some(i + 1),
            None => None,
        }
    }
}

/// `str::split_once`: the parts before and after the first `c`.
pub open spec fn split_once(s: Seq<char>, c: char) -> Option<(Seq<char>, Seq<char>)> {
    match first_index(s, c) {
        Some(i) => Some((s.subrange(0, i), s.subrange(i + 1, s.len() as int))),
        None => None,
    }
}

/// `str::split`: the pieces between occurrences of `c` (one more than there are `c`s).
pub open spec fn split(s: Seq<char>, c: char) -> Seq<Seq<char>>
    decreases s.len(),
{
    match first_index(s, c) {
        Some(i) => {
            if 0 <= i < s.len() {
                seq![s.subrange(0, i)] + split(s.subrange(i + 1, s.len() as int), c)
            } else {
                seq![s]
            }
        },
        None => seq![s],
    }
}

pub open spec fn is_digit(c: char) -> bool {
    '0' <= c <= '9'
}

pub open spec fn all_digits(s: Seq<char>) -> bool {
    forall|i: int| 0 <= i < s.len() ==> is_digit(#[trigger] s[i])
}

/// The decimal value of a digit string.
pub open spec fn digits_value(s: Seq<char>) -> nat
    decreases s.len(),
{
    if s.len() == 0 {
        0
    } else {
        digits_value(s.drop_last()) * 10 + (s.last() as nat - '0' as nat) as nat
    }
}

/// `u64::from_str`: an optional `+` and then one or more ASCII digits whose
/// value fits.
pub open spec fn parse_u64(s: Seq<char>) -> Option<u64> {
    let digits = if s.len() > 0 && s[0] == '+' {
        s.drop_first()
    } else {
        s
    };
    if digits.len() == 0 || !all_digits(digits) || digits_value(digits) > u64::MAX {
        None
    } else {
        Some(digits_value(digits) as u64)
    }
}

/// `i64::from_str`: an optional `+` or `-` and then one or more ASCII digits
/// whose signed value fits.
pub open spec fn parse_i64(s: Seq<char>) -> Option<i64> {
    let signed = s.len() > 0 && (s[0] == '+' || s[0] == '-');
    let digits = if signed {
        s.drop_first()
    } else {
        s
    };
    let value: int = if s.len() > 0 && s[0] == '-' {
        -(digits_value(digits) as int)
    } else {
        digits_value(digits) as int
    };
    if digits.len() == 0 || !all_digits(digits) || value < i64::MIN || value > i64::MAX {
        None
    } else {
        Some(value as i64)
    }
}

// ---------------------------------------------------------------------------
// Formula grammar
// ---------------------------------------------------------------------------

/// One `coefficient:denominator` part of a formula, or its error message.
pub open spec fn parse_term(part: Seq<char>) -> Result<Term, Seq<char>> {
    match split_once(part, ':') {
        None => Err("expected coefficient:denominator"@),
        Some((coefficient, denominator)) => match parse_i64(trim(coefficient)) {
            None => Err("invalid coefficient: "@ + coefficient),
            Some(c) => match parse_u64(trim(denominator)) {
                None => Err("invalid denominator: "@ + denominator),
                Some(d) => if d == 0 || c == 0 {
                    Err("coefficient and denominator must be nonzero"@)
                } else {
                    Ok(Term { coefficient: c, denominator: d })
                },
            },
        },
    }
}

/// The terms of the parts in order, or the error of the first bad part.
pub open spec fn parse_terms(parts: Seq<Seq<char>>) -> Result<Seq<Term>, Seq<char>>
    decreases parts.len(),
{
    if parts.len() == 0 {
        Ok(Seq::empty())
    } else {
        match parse_term(parts[0]) {
            Err(e) => Err(e),
            Ok(t) => match parse_terms(parts.drop_first()) {
                Err(e) => Err(e),
                Ok(rest) => Ok(seq![t] + rest),
            },
        }
    }
}

/// A formula is a comma-separated list of `coefficient:denominator` parts.
pub open spec fn formula_result(input: Seq<char>) -> Result<Seq<Term>, Seq<char>> {
    match parse_terms(split(input, ',')) {
        Err(e) => Err(e),
        Ok(terms) => if terms.len() == 0 {
            Err("formula is empty"@)
        } else {
            Ok(terms)
        },
    }
}

// ---------------------------------------------------------------------------
// Denominator list grammar
// ---------------------------------------------------------------------------

/// The denominators named by one trimmed token: `n` or an inclusive range `a-b`.
pub open spec fn token_values(token: Seq<char>) -> Result<Set<u64>, Seq<char>> {
    if token.len() == 0 {
        Err("empty denominator in list"@)
    } else {
        match split_once(token, '-') {
            Some((low, high)) => match (parse_u64(trim(low)), parse_u64(trim(high))) {
                (Some(start), Some(end)) => if start == 0 || start > end {
                    Err("invalid denominator range: "@ + token)
                } else if end - start > 999 {
                    Err("a range can contain at most 1000 denominators"@)
                } else {
                    Ok(Set::new(|v: u64| start <= v <= end))
                },
                _ => Err("invalid denominator range: "@ + token),
            },
            None => match parse_u64(token) {
                None => Err("invalid denominator: "@ + token),
                Some(v) => if v == 0 {
                    Err("denominators must be positive"@)
                } else {
                    Ok(set![v])
                },
            },
        }
    }
}

/// The union of the tokens' denominators, or the error of the first bad token.
pub open spec fn tokens_values(tokens: Seq<Seq<char>>) -> Result<Set<u64>, Seq<char>>
    decreases tokens.len(),
{
    if tokens.len() == 0 {
        Ok(Set::empty())
    } else {
        match token_values(trim(tokens[0])) {
            Err(e) => Err(e),
            Ok(first) => match tokens_values(tokens.drop_first()) {
                Err(e) => Err(e),
                Ok(rest) => Ok(first.union(rest)),
            },
        }
    }
}

/// A denominator list is comma-separated denominators and inclusive ranges.
pub open spec fn denominators_result(specification: Seq<char>) -> Result<Set<u64>, Seq<char>> {
    match tokens_values(split(specification, ',')) {
        Err(e) => Err(e),
        Ok(values) => if values.is_empty() {
            Err("at least one denominator is required"@)
        } else {
            Ok(values)
        },
    }
}

proof fn lemma_tokens_remove(a: Seq<Seq<char>>, j: int)
    requires
        0 <= j < a.len(),
    ensures
        (tokens_values(a) is Ok) <==> (token_values(trim(a[j])) is Ok && tokens_values(a.remove(j)) is Ok),
        tokens_values(a) is Ok ==> tokens_values(a)->Ok_0 == token_values(trim(a[j]))->Ok_0.union(
            tokens_values(a.remove(j))->Ok_0,
        ),
    decreases a.len(),
{
    if j == 0 {
        assert(a.remove(0) =~= a.drop_first());
    } else {
        let d = a.drop_first();
        lemma_tokens_remove(d, j - 1);
        assert(a.remove(j).drop_first() =~= d.remove(j - 1));
        assert(a.remove(j)[0] == a[0]);
        assert(d[j - 1] == a[j]);
        if tokens_values(a) is Ok {
            let first = token_values(trim(a[0]))->Ok_0;
            let mine = token_values(trim(a[j]))->Ok_0;
            let rest = tokens_values(d.remove(j - 1))->Ok_0;
            assert(first.union(mine.union(rest)) =~= mine.union(first.union(rest)));
        }
    }
}

proof fn lemma_tokens_permuted(a: Seq<Seq<char>>, b: Seq<Seq<char>>)
    requires
        a.to_multiset() == b.to_multiset(),
    ensures
        (tokens_values(a) is Ok) <==> (tokens_values(b) is Ok),
        tokens_values(a) is Ok ==> tokens_values(a) == tokens_values(b),
    decreases a.len(),
{
    broadcast use vstd::seq_lib::group_to_multiset_ensures;

    if a.len() == 0 {
        assert(a.to_multiset().len() == 0);
        assert(b.to_multiset().len() == b.len());
        assert(b =~= Seq::<Seq<char>>::empty());
    } else {
        let x = a[0];
        assert(a.contains(x));
        assert(b.to_multiset().count(x) > 0);
        assert(b.contains(x));
        let j = choose|j: int| 0 <= j < b.len() && b[j] == x;
        assert(a.remove(0).to_multiset() == b.remove(j).to_multiset());
        lemma_tokens_permuted(a.remove(0), b.remove(j));
        lemma_tokens_remove(a, 0);
        lemma_tokens_remove(b, j);
    }
}

proof fn lemma_tokens_values_pointwise(a: Seq<Seq<char>>)
    ensures
        (tokens_values(a) is Ok) <==> (forall|i: int| 0 <= i < a.len() ==> #[trigger] token_values(trim(a[i])) is Ok),
        tokens_values(a) is Ok ==> forall|x: u64|
            #[trigger] tokens_values(a)->Ok_0.contains(x) <==> exists|i: int|
                0 <= i < a.len() && token_values(trim(a[i]))->Ok_0.contains(x),
    decreases a.len(),
{
    if a.len() > 0 {
        let d = a.drop_first();
        lemma_tokens_values_pointwise(d);
        assert forall|i: int| 0 <= i < d.len() implies d[i] == a[i + 1] by {}
        if forall|i: int| 0 <= i < a.len() ==> #[trigger] token_values(trim(a[i])) is Ok {
            assert(token_values(trim(a[0])) is Ok);
            assert forall|i: int| 0 <= i < d.len() implies #[trigger] token_values(trim(d[i])) is Ok by {
                assert(token_values(trim(a[i + 1])) is Ok);
            }
            assert forall|x: u64| #[trigger] tokens_values(a)->Ok_0.contains(x) <==> exists|i: int|
                0 <= i < a.len() && token_values(trim(a[i]))->Ok_0.contains(x) by {
                if tokens_values(a)->Ok_0.contains(x) {
                    if token_values(trim(a[0]))->Ok_0.contains(x) {
                        assert(0 <= 0 < a.len() && token_values(trim(a[0]))->Ok_0.contains(x));
                    } else {
                        assert(tokens_values(d)->Ok_0.contains(x));
                        let j = choose|j: int| 0 <= j < d.len() && token_values(trim(d[j]))->Ok_0.contains(x);
                        assert(0 <= j + 1 < a.len() && token_values(trim(a[j + 1]))->Ok_0.contains(x));
                    }
                }
                if exists|i: int| 0 <= i < a.len() && token_values(trim(a[i]))->Ok_0.contains(x) {
                    let i = choose|i: int| 0 <= i < a.len() && token_values(trim(a[i]))->Ok_0.contains(x);
                    if i > 0 {
                        assert(0 <= i - 1 < d.len() && token_values(trim(d[i - 1]))->Ok_0.contains(x));
                    }
                }
            }
        } else {
            let i = choose|i: int| 0 <= i < a.len() && !(#[trigger] token_values(trim(a[i])) is Ok);
            if i > 0 {
                assert(!(token_values(trim(d[i - 1])) is Ok));
            }
        }
    }
}

/// Repeating or reordering the tokens of a denominator list does not
/// matter: two lists with the same set of comma-separated tokens are both
/// accepted or both refused, and when accepted they name the same
/// denominators.
pub proof fn denominator_list_ignores_repeated_tokens(x: Seq<char>, y: Seq<char>)
    requires
        split(x, ',').to_set() == split(y, ',').to_set(),
    ensures
        (denominators_result(x) is Ok) <==> (denominators_result(y) is Ok),
        denominators_result(x) is Ok ==> denominators_result(x) == denominators_result(y),
{
    let a = split(x, ',');
    let b = split(y, ',');
    lemma_tokens_values_pointwise(a);
    lemma_tokens_values_pointwise(b);
    assert forall|i: int| #![trigger a[i]] 0 <= i < a.len() implies exists|j: int| 0 <= j < b.len() && #[trigger] b[j] == a[i] by {
        assert(a.to_set().contains(a[i]));
        assert(b.to_set().contains(a[i]));
    }
    assert forall|j: int| #![trigger b[j]] 0 <= j < b.len() implies exists|i: int| 0 <= i < a.len() && #[trigger] a[i] == b[j] by {
        assert(b.to_set().contains(b[j]));
        assert(a.to_set().contains(b[j]));
    }
    if tokens_values(a) is Ok {
        assert forall|j: int| 0 <= j < b.len() implies #[trigger] token_values(trim(b[j])) is Ok by {
            let i = choose|i: int| 0 <= i < a.len() && a[i] == b[j];
            assert(token_values(trim(a[i])) is Ok);
        }
    }
    if tokens_values(b) is Ok {
        assert forall|i: int| 0 <= i < a.len() implies #[trigger] token_values(trim(a[i])) is Ok by {
            let j = choose|j: int| 0 <= j < b.len() && b[j] == a[i];
            assert(token_values(trim(b[j])) is Ok);
        }
    }
    if tokens_values(a) is Ok {
        let va = tokens_values(a)->Ok_0;
        let vb = tokens_values(b)->Ok_0;
        assert forall|v: u64| va.contains(v) <==> vb.contains(v) by {
            if va.contains(v) {
                let i = choose|i: int| 0 <= i < a.len() && token_values(trim(a[i]))->Ok_0.contains(v);
                let j = choose|j: int| 0 <= j < b.len() && b[j] == a[i];
                assert(0 <= j < b.len() && token_values(trim(b[j]))->Ok_0.contains(v));
            }
            if vb.contains(v) {
                let j = choose|j: int| 0 <= j < b.len() && token_values(trim(b[j]))->Ok_0.contains(v);
                let i = choose|i: int| 0 <= i < a.len() && a[i] == b[j];
                assert(0 <= i < a.len() && token_values(trim(a[i]))->Ok_0.contains(v));
            }
        }
        assert(va =~= vb);
    }
}

/// The order of the tokens of a denominator list does not matter: two lists
/// whose comma-separated tokens are a rearrangement of each other are both
/// accepted or both refused, and when accepted they name the same
/// denominators.
pub proof fn denominator_list_ignores_token_order(x: Seq<char>, y: Seq<char>)
    requires
        split(x, ',').to_multiset() == split(y, ',').to_multiset(),
    ensures
        (denominators_result(x) is Ok) <==> (denominators_result(y) is Ok),
        denominators_result(x) is Ok ==> denominators_result(x) == denominators_result(y),
{
    lemma_tokens_permuted(split(x, ','), split(y, ','));
}

pub open spec fn strictly_increasing(s: Seq<u64>) -> bool {
    forall|i: int, j: int| 0 <= i < j < s.len() ==> s[i] < s[j]
}

// ---------------------------------------------------------------------------
// Character-level execution
// ---------------------------------------------------------------------------

fn chars_of(s: &str) -> (r: Vec<char>)
    ensures
        r@ == s@,
{
    let mut v: Vec<char> = Vec::new();
    for c in it: s.chars()
        invariant
            v@ == it.seq().take(it.index() as int),
    {
        v.push(c);
    }
    v
}

fn white_space(c: char) -> (r: bool)
    ensures
        r == is_white_space(c),
{
    let u = c as u32;
    (9 <= u && u <= 13) || u == 32 || u == 0x85 || u == 0xa0 || u == 0x1680 || (0x2000 <= u && u
        <= 0x200a) || u == 0x2028 || u == 0x2029 || u == 0x202f || u == 0x205f || u == 0x3000
}

/// The bounds of `trim(chars[start..end])`.
fn trim_bounds(chars: &Vec<char>, start: usize, end: usize) -> (r: (usize, usize))
    requires
        start <= end <= chars@.len(),
    ensures
        start <= r.0 <= r.1 <= end,
        chars@.subrange(r.0 as int, r.1 as int) == trim(chars@.subrange(start as int, end as int)),
{
    let mut i = start;
    while i < end && white_space(chars[i])
        invariant
            start <= i <= end <= chars@.len(),
            trim_start(chars@.subrange(start as int, end as int)) == trim_start(
                chars@.subrange(i as int, end as int),
            ),
        decreases end - i,
    {
        assert(chars@.subrange(i as int, end as int).drop_first() =~= chars@.subrange(
            i + 1,
            end as int,
        ));
        i += 1;
    }
    let mut j = end;
    proof {
        let s = chars@.subrange(i as int, end as int);
        if s.len() > 0 {
            assert(s[0] == chars@[i as int]);
        }
        assert(trim_start(s) == s);
    }
    while j > i && white_space(chars[j - 1])
        invariant
            start <= i <= j <= end <= chars@.len(),
            trim_end(chars@.subrange(i as int, end as int)) == trim_end(
                chars@.subrange(i as int, j as int),
            ),
        decreases j - i,
    {
        assert(chars@.subrange(i as int, j as int).drop_last() =~= chars@.subrange(
            i as int,
            j - 1,
        ));
        j -= 1;
    }
    proof {
        let s = chars@.subrange(i as int, j as int);
        if s.len() > 0 {
            assert(s.last() == chars@[j - 1]);
        }
        assert(trim_end(s) == s);
    }
    (i, j)
}

/// The first position of `c` in `chars[start..end]`, or `end`.
fn find_char(chars: &Vec<char>, start: usize, end: usize, c: char) -> (r: usize)
    requires
        start <= end <= chars@.len(),
    ensures
        start <= r <= end,
        r < end ==> first_index(chars@.subrange(start as int, end as int), c) == Some(r - start),
        r == end ==> first_index(chars@.subrange(start as int, end as int), c) is None,
{
    let mut i = start;
    while i < end && chars[i] != c
        invariant
            start <= i <= end <= chars@.len(),
            first_index(chars@.subrange(start as int, end as int), c) == (match first_index(
                chars@.subrange(i as int, end as int),
                c,
            ) {
                Some(k) => Some(k + (i - start)),
                None => None,
            }),
        decreases end - i,
    {
        assert(chars@.subrange(i as int, end as int).drop_first() =~= chars@.subrange(
            i + 1,
            end as int,
        ));
        i += 1;
    }
    proof {
        if i < end {
            assert(chars@.subrange(i as int, end as int)[0] == chars@[i as int]);
        }
    }
    i
}

proof fn lemma_digits_prefix(s: Seq<char>, j: int)
    requires
        0 <= j < s.len(),
    ensures
        digits_value(s.subrange(0, j + 1)) == digits_value(s.subrange(0, j)) * 10 + (s[j] as nat
            - '0' as nat) as nat,
{
    assert(s.subrange(0, j + 1).drop_last() =~= s.subrange(0, j));
}

proof fn lemma_digits_monotone(s: Seq<char>, j: int)
    requires
        0 <= j <= s.len(),
        all_digits(s),
    ensures
        digits_value(s.subrange(0, j)) <= digits_value(s),
    decreases s.len() - j,
{
    if j < s.len() {
        lemma_digits_prefix(s, j);
        lemma_digits_monotone(s, j + 1);
    } else {
        assert(s.subrange(0, j) =~= s);
    }
}

/// The value of the digit string `chars[start..end]`, or `None` when it is
/// empty, holds a non-digit, or exceeds `u64::MAX`.
fn digits_u64(chars: &Vec<char>, start: usize, end: usize) -> (r: Option<u64>)
    requires
        start <= end <= chars@.len(),
    ensures
        ({
            let s = chars@.subrange(start as int, end as int);
            r == (if s.len() == 0 || !all_digits(s) || digits_value(s) > u64::MAX {
                None
            } else {
                Some(digits_value(s) as u64)
            })
        }),
{
    let ghost s = chars@.subrange(start as int, end as int);
    if start == end {
        return None;
    }
    let mut i = start;
    while i < end
        invariant
            start <= i <= end <= chars@.len(),
            s == chars@.subrange(start as int, end as int),
            forall|k: int| 0 <= k < i - start ==> is_digit(#[trigger] s[k]),
        decreases end - i,
    {
        if !('0' <= chars[i] && chars[i] <= '9') {
            assert(!is_digit(s[i - start]));
            return None;
        }
        i += 1;
    }
    assert(all_digits(s));
    let mut value: u64 = 0;
    let mut i = start;
    assert(s.subrange(0, 0) =~= Seq::<char>::empty());
    while i < end
        invariant
            start <= i <= end <= chars@.len(),
            s == chars@.subrange(start as int, end as int),
            all_digits(s),
            value as nat == digits_value(s.subrange(0, i - start)),
        decreases end - i,
    {
        proof {
            lemma_digits_prefix(s, i - start);
        }
        let digit = (chars[i] as u32 - '0' as u32) as u64;
        assert(is_digit(s[i - start]));
        match value.checked_mul(10) {
            Some(times_ten) => match times_ten.checked_add(digit) {
                Some(next) => {
                    value = next;
                },
                None => {
                    proof {
                        lemma_digits_monotone(s, i + 1 - start);
                    }
                    return None;
                },
            },
            None => {
                proof {
                    lemma_digits_monotone(s, i + 1 - start);
                }
                return None;
            },
        }
        i += 1;
    }
    assert(s.subrange(0, end - start) =~= s);
    Some(value)
}

/// `u64::from_str` on `chars[start..end]`.
fn parse_u64_range(chars: &Vec<char>, start: usize, end: usize) -> (r: Option<u64>)
    requires
        start <= end <= chars@.len(),
    ensures
        r == parse_u64(chars@.subrange(start as int, end as int)),
{
    let ghost s = chars@.subrange(start as int, end as int);
    if start < end && chars[start] == '+' {
        assert(s.drop_first() =~= chars@.subrange(start + 1, end as int));
        digits_u64(chars, start + 1, end)
    } else {
        digits_u64(chars, start, end)
    }
}

/// `i64::from_str` on `chars[start..end]`.
fn parse_i64_range(chars: &Vec<char>, start: usize, end: usize) -> (r: Option<i64>)
    requires
        start <= end <= chars@.len(),
    ensures
        r == parse_i64(chars@.subrange(start as int, end as int)),
{
    let ghost s = chars@.subrange(start as int, end as int);
    let negative = start < end && chars[start] == '-';
    let signed = start < end && (chars[start] == '+' || chars[start] == '-');
    let digits_start = if signed {
        start + 1
    } else {
        start
    };
    proof {
        if signed {
            assert(s.drop_first() =~= chars@.subrange(start + 1, end as int));
        }
    }
    match digits_u64(chars, digits_start, end) {
        None => {
            proof {
                let digits = chars@.subrange(digits_start as int, end as int);
                if digits.len() > 0 && all_digits(digits) {
                    assert(digits_value(digits) > u64::MAX);
                }
            }
            None
        },
        Some(magnitude) => {
            if negative {
                if magnitude <= 0x8000_0000_0000_0000u64 {
                    if magnitude == 0x8000_0000_0000_0000u64 {
                        Some(i64::MIN)
                    } else {
                        Some(-(magnitude as i64))
                    }
                } else {
                    None
                }
            } else {
                if magnitude <= 0x7fff_ffff_ffff_ffffu64 {
                    Some(magnitude as i64)
                } else {
                    None
                }
            }
        },
    }
}

proof fn lemma_split_step(chars: Seq<char>, start: int, end: int, n: int, c: char)
    requires
        0 <= start <= end <= n == chars.len(),
        end < n ==> first_index(chars.subrange(start, n), c) == Some(end - start),
        end == n ==> first_index(chars.subrange(start, n), c) is None,
    ensures
        split(chars.subrange(start, n), c) == (if end < n {
            seq![chars.subrange(start, end)] + split(chars.subrange(end + 1, n), c)
        } else {
            seq![chars.subrange(start, n)]
        }),
{
    let s = chars.subrange(start, n);
    if end < n {
        assert(s.subrange(0, end - start) =~= chars.subrange(start, end));
        assert(s.subrange(end - start + 1, s.len() as int) =~= chars.subrange(end + 1, n));
    }
}

proof fn lemma_split_once_range(chars: Seq<char>, start: int, colon: int, end: int, c: char)
    requires
        0 <= start <= colon <= end <= chars.len(),
        colon < end ==> first_index(chars.subrange(start, end), c) == Some(colon - start),
        colon == end ==> first_index(chars.subrange(start, end), c) is None,
    ensures
        split_once(chars.subrange(start, end), c) == (if colon < end {
            Some((chars.subrange(start, colon), chars.subrange(colon + 1, end)))
        } else {
            None
        }),
{
    let s = chars.subrange(start, end);
    if colon < end {
        assert(s.subrange(0, colon - start) =~= chars.subrange(start, colon));
        assert(s.subrange(colon - start + 1, s.len() as int) =~= chars.subrange(colon + 1, end));
    }
}

fn message(text: &str) -> (r: String)
    ensures
        r@ == text@,
{
    String::from_str(text)
}

fn message_with(text: &str, detail: &str) -> (r: String)
    ensures
        r@ == text@ + detail@,
{
    let mut r = String::from_str(text);
    r.append(detail);
    r
}

/// Parses a formula such as `"4:5,-1:239"` into its terms.
pub fn parse_formula(input: &str) -> (r: Result<Vec<Term>, String>)
    ensures
        match r {
            Ok(terms) => formula_result(input@) == Ok::<Seq<Term>, Seq<char>>(terms@),
            Err(e) => formula_result(input@) == Err::<Seq<Term>, Seq<char>>(e@),
        },
{
    let chars = chars_of(input);
    let n = chars.len();
    let mut terms: Vec<Term> = Vec::new();
    let mut start: usize = 0;
    assert(chars@.subrange(0, n as int) =~= chars@);
    loop
        invariant_except_break
            chars@ == input@,
            n == chars@.len(),
            start <= n,
            parse_terms(split(chars@, ',')) == (match parse_terms(
                split(chars@.subrange(start as int, n as int), ','),
            ) {
                Ok(rest) => Ok(terms@ + rest),
                Err(e) => Err::<Seq<Term>, Seq<char>>(e),
            }),
        ensures
            chars@ == input@,
            parse_terms(split(chars@, ',')) == Ok::<Seq<Term>, Seq<char>>(terms@),
        decreases n - start,
    {
        let end = find_char(&chars, start, n, ',');
        let ghost part = chars@.subrange(start as int, end as int);
        let ghost rest_parts = if end < n {
            split(chars@.subrange(end + 1, n as int), ',')
        } else {
            Seq::empty()
        };
        proof {
            lemma_split_step(chars@, start as int, end as int, n as int, ',');
            let all = split(chars@.subrange(start as int, n as int), ',');
            if end < n {
                assert(all == seq![part] + rest_parts);
            } else {
                assert(chars@.subrange(start as int, n as int) == part);
                assert(all == seq![part]);
            }
            assert(all[0] == part);
            assert(all.drop_first() =~= rest_parts);
        }
        let colon = find_char(&chars, start, end, ':');
        proof {
            lemma_split_once_range(chars@, start as int, colon as int, end as int, ':');
        }
        if colon == end {
            return Err(message("expected coefficient:denominator"));
        }
        let (cs, ce) = trim_bounds(&chars, start, colon);
        let coefficient = match parse_i64_range(&chars, cs, ce) {
            Some(value) => value,
            None => {
                return Err(message_with("invalid coefficient: ", input.substring_char(start, colon)));
            },
        };
        let (ds, de) = trim_bounds(&chars, colon + 1, end);
        let denominator = match parse_u64_range(&chars, ds, de) {
            Some(value) => value,
            None => {
                return Err(message_with("invalid denominator: ", input.substring_char(colon + 1, end)));
            },
        };
        if denominator == 0 || coefficient == 0 {
            return Err(message("coefficient and denominator must be nonzero"));
        }
        let term = Term { coefficient, denominator };
        let ghost before = terms@;
        terms.push(term);
        proof {
            assert(parse_term(part) == Ok::<Term, Seq<char>>(term));
            match parse_terms(rest_parts) {
                Ok(rest) => {
                    assert(before + (seq![term] + rest) =~= terms@ + rest);
                },
                Err(e) => {},
            }
        }
        if end == n {
            proof {
                assert(parse_terms(Seq::<Seq<char>>::empty()) == Ok::<Seq<Term>, Seq<char>>(Seq::empty()));
                assert(terms@ + Seq::<Term>::empty() =~= terms@);
            }
            break;
        }
        start = end + 1;
    }
    if terms.len() == 0 {
        return Err(message("formula is empty"));
    }
    Ok(terms)
}

/// Inserts `x` into a strictly increasing vector, keeping it so.
fn insert_sorted(values: &mut Vec<u64>, x: u64)
    requires
        strictly_increasing(old(values)@),
    ensures
        strictly_increasing(final(values)@),
        forall|y: u64| #[trigger] final(values)@.contains(y) <==> (old(values)@.contains(y) || y == x),
{
    let mut i: usize = 0;
    while i < values.len() && values[i] < x
        invariant
            i <= values@.len(),
            forall|k: int| 0 <= k < i ==> values@[k] < x,
        decreases values@.len() - i,
    {
        i += 1;
    }
    if i < values.len() && values[i] == x {
        return;
    }
    let ghost old_values = values@;
    values.insert(i, x);
    assert forall|y: u64| #[trigger] values@.contains(y) <==> (old_values.contains(y) || y == x) by {
        if values@.contains(y) {
            let k = choose|k: int| 0 <= k < values@.len() && values@[k] == y;
            if k < i {
                assert(old_values[k] == y);
            } else if k > i {
                assert(old_values[k - 1] == y);
            }
        }
        if old_values.contains(y) {
            let k = choose|k: int| 0 <= k < old_values.len() && old_values[k] == y;
            if k < i {
                assert(values@[k] == y);
            } else {
                assert(values@[k + 1] == y);
            }
        }
        if y == x {
            assert(values@[i as int] == x);
        }
    }
}

/// Parses a comma-separated list of denominators and inclusive ranges such as
/// `"5,239"` or `"2-10"` into a sorted list without repetition.
pub fn parse_denominators(specification: &str) -> (r: Result<Vec<u64>, String>)
    ensures
        match r {
            Ok(values) => (denominators_result(specification@) matches Ok(set) && strictly_increasing(
                values@,
            ) && forall|x: u64| #[trigger] values@.contains(x) <==> set.contains(x)),
            Err(e) => denominators_result(specification@) == Err::<Set<u64>, Seq<char>>(e@),
        },
{
    let chars = chars_of(specification);
    let n = chars.len();
    let mut values: Vec<u64> = Vec::new();
    let ghost mut seen: Set<u64> = Set::empty();
    let mut start: usize = 0;
    assert(chars@.subrange(0, n as int) =~= chars@);
    proof {
        match tokens_values(split(chars@, ',')) {
            Ok(rest) => {
                assert(Set::<u64>::empty().union(rest) =~= rest);
            },
            Err(e) => {},
        }
    }
    loop
        invariant_except_break
            chars@ == specification@,
            n == chars@.len(),
            start <= n,
            strictly_increasing(values@),
            forall|x: u64| #[trigger] values@.contains(x) <==> seen.contains(x),
            tokens_values(split(chars@, ',')) == (match tokens_values(
                split(chars@.subrange(start as int, n as int), ','),
            ) {
                Ok(rest) => Ok(seen.union(rest)),
                Err(e) => Err::<Set<u64>, Seq<char>>(e),
            }),
        ensures
            chars@ == specification@,
            strictly_increasing(values@),
            forall|x: u64| #[trigger] values@.contains(x) <==> seen.contains(x),
            tokens_values(split(chars@, ',')) == Ok::<Set<u64>, Seq<char>>(seen),
        decreases n - start,
    {
        let end = find_char(&chars, start, n, ',');
        let ghost raw = chars@.subrange(start as int, end as int);
        let ghost rest_tokens = if end < n {
            split(chars@.subrange(end + 1, n as int), ',')
        } else {
            Seq::empty()
        };
        proof {
            lemma_split_step(chars@, start as int, end as int, n as int, ',');
            let all = split(chars@.subrange(start as int, n as int), ',');
            if end < n {
                assert(all == seq![raw] + rest_tokens);
            } else {
                assert(chars@.subrange(start as int, n as int) == raw);
                assert(all == seq![raw]);
            }
            assert(all[0] == raw);
            assert(all.drop_first() =~= rest_tokens);
        }
        let (ts, te) = trim_bounds(&chars, start, end);
        let ghost token = chars@.subrange(ts as int, te as int);
        if ts == te {
            return Err(message("empty denominator in list"));
        }
        let dash = find_char(&chars, ts, te, '-');
        proof {
            lemma_split_once_range(chars@, ts as int, dash as int, te as int, '-');
        }
        let ghost token_set: Set<u64>;
        if dash < te {
            let (ls, le) = trim_bounds(&chars, ts, dash);
            let (hs, he) = trim_bounds(&chars, dash + 1, te);
            let low = parse_u64_range(&chars, ls, le);
            let high = parse_u64_range(&chars, hs, he);
            let (first, last) = match (low, high) {
                (Some(first), Some(last)) => (first, last),
                _ => {
                    return Err(message_with("invalid denominator range: ", specification.substring_char(ts, te)));
                },
            };
            if first == 0 || first > last {
                return Err(message_with("invalid denominator range: ", specification.substring_char(ts, te)));
            }
            if last - first > 999 {
                return Err(message("a range can contain at most 1000 denominators"));
            }
            let ghost before = seen;
            let mut value = first;
            loop
                invariant_except_break
                    first <= value <= last,
                    strictly_increasing(values@),
                    forall|x: u64| #[trigger] values@.contains(x) <==> (before.contains(x) || (first <= x < value)),
                ensures
                    strictly_increasing(values@),
                    forall|x: u64| #[trigger] values@.contains(x) <==> (before.contains(x) || (first <= x <= last)),
                decreases last - value,
            {
                insert_sorted(&mut values, value);
                if value == last {
                    break;
                }
                value += 1;
            }
            proof {
                token_set = Set::new(|v: u64| first <= v <= last);
                assert(token_values(token) == Ok::<Set<u64>, Seq<char>>(token_set));
            }
        } else {
            let single = match parse_u64_range(&chars, ts, te) {
                Some(v) => v,
                None => {
                    return Err(message_with("invalid denominator: ", specification.substring_char(ts, te)));
                },
            };
            if single == 0 {
                return Err(message("denominators must be positive"));
            }
            insert_sorted(&mut values, single);
            proof {
                token_set = set![single];
                assert(token_values(token) == Ok::<Set<u64>, Seq<char>>(token_set));
            }
        }
        proof {
            assert(token == trim(raw));
            match tokens_values(rest_tokens) {
                Ok(rest) => {
                    assert(seen.union(token_set.union(rest)) =~= seen.union(token_set).union(rest));
                },
                Err(e) => {},
            }
            seen = seen.union(token_set);
        }
        if end == n {
            proof {
                assert(tokens_values(Seq::<Seq<char>>::empty()) == Ok::<Set<u64>, Seq<char>>(Set::empty()));
                assert(seen.union(Set::<u64>::empty()) =~= seen);
            }
            break;
        }
        start = end + 1;
    }
    if values.len() == 0 {
        proof {
            assert forall|x: u64| !seen.contains(x) by {
                assert(!values@.contains(x));
            }
            assert(seen =~= Set::<u64>::empty());
        }
        return Err(message("at least one denominator is required"));
    }
    proof {
        assert(values@.contains(values@[0]));
        assert(!seen.is_empty());
    }
    Ok(values)
}

// ---------------------------------------------------------------------------
// Decimal text of a number
// ---------------------------------------------------------------------------

pub open spec fn digit_char(d: nat) -> char {
    if d == 0 {
        '0'
    } else if d == 1 {
        '1'
    } else if d == 2 {
        '2'
    } else if d == 3 {
        '3'
    } else if d == 4 {
        '4'
    } else if d == 5 {
        '5'
    } else if d == 6 {
        '6'
    } else if d == 7 {
        '7'
    } else if d == 8 {
        '8'
    } else {
        '9'
    }
}

/// The decimal digits of `v`, most significant first, without leading zeros.
pub open spec fn decimal_text(v: nat) -> Seq<char>
    decreases v,
{
    if v < 10 {
        seq![digit_char(v)]
    } else {
        decimal_text(v / 10) + seq![digit_char(v % 10)]
    }
}

proof fn lemma_decimal_text(v: nat)
    ensures
        decimal_text(v).len() >= 1,
        all_digits(decimal_text(v)),
        digits_value(decimal_text(v)) == v,
    decreases v,
{
    let t = decimal_text(v);
    if v < 10 {
        assert(t.drop_last() =~= Seq::<char>::empty());
        assert(digits_value(Seq::<char>::empty()) == 0);
        assert((digit_char(v) as nat - '0' as nat) as nat == v);
    } else {
        lemma_decimal_text(v / 10);
        let d = v % 10;
        assert(t.drop_last() =~= decimal_text(v / 10));
        assert(t.last() == digit_char(d));
        assert((digit_char(d) as nat - '0' as nat) as nat == d);
        assert forall|i: int| 0 <= i < t.len() implies is_digit(#[trigger] t[i]) by {
            if i < t.len() - 1 {
                assert(t[i] == decimal_text(v / 10)[i]);
            }
        }
    }
}

/// A digit string is left alone by `trim`.
proof fn lemma_trim_digits(s: Seq<char>)
    requires
        s.len() >= 1,
        all_digits(s),
    ensures
        trim(s) == s,
{
    assert(is_digit(s[0]) && is_digit(s.last()));
    assert(!is_white_space(s[0]));
    assert(!is_white_space(s.last()));
}

/// `s` does not contain `c`.
pub open spec fn lacks(s: Seq<char>, c: char) -> bool {
    forall|i: int| 0 <= i < s.len() ==> #[trigger] s[i] != c
}

proof fn lemma_first_index_after(p: Seq<char>, rest: Seq<char>, c: char)
    requires
        lacks(p, c),
    ensures
        first_index(p + seq![c] + rest, c) == Some(p.len() as int),
    decreases p.len(),
{
    let s = p + seq![c] + rest;
    if p.len() == 0 {
        assert(s[0] == c);
    } else {
        assert(s[0] == p[0]);
        assert(s.drop_first() =~= p.drop_first() + seq![c] + rest);
        lemma_first_index_after(p.drop_first(), rest, c);
    }
}

proof fn lemma_first_index_none(p: Seq<char>, c: char)
    requires
        lacks(p, c),
    ensures
        first_index(p, c) is None,
    decreases p.len(),
{
    if p.len() > 0 {
        lemma_first_index_none(p.drop_first(), c);
    }
}

/// The pieces joined with `c` between them.
pub open spec fn join(parts: Seq<Seq<char>>, c: char) -> Seq<char>
    decreases parts.len(),
{
    if parts.len() <= 1 {
        if parts.len() == 0 {
            Seq::empty()
        } else {
            parts[0]
        }
    } else {
        parts[0] + seq![c] + join(parts.drop_first(), c)
    }
}

proof fn lemma_split_join(parts: Seq<Seq<char>>, c: char)
    requires
        parts.len() >= 1,
        forall|i: int| 0 <= i < parts.len() ==> lacks(#[trigger] parts[i], c),
    ensures
        split(join(parts, c), c) == parts,
    decreases parts.len(),
{
    if parts.len() == 1 {
        lemma_first_index_none(parts[0], c);
        assert(seq![parts[0]] =~= parts);
    } else {
        let p = parts[0];
        let rest = join(parts.drop_first(), c);
        let s = p + seq![c] + rest;
        assert(lacks(p, c));
        lemma_first_index_after(p, rest, c);
        assert(s.subrange(0, p.len() as int) =~= p);
        assert(s.subrange(p.len() as int + 1, s.len() as int) =~= rest);
        assert forall|i: int| 0 <= i < parts.drop_first().len() implies lacks(#[trigger] parts.drop_first()[i], c) by {
            assert(parts.drop_first()[i] == parts[i + 1]);
        }
        lemma_split_join(parts.drop_first(), c);
        assert(seq![p] + parts.drop_first() =~= parts);
    }
}

proof fn lemma_digits_lack(s: Seq<char>, c: char)
    requires
        all_digits(s),
        !is_digit(c),
    ensures
        lacks(s, c),
{
    assert forall|i: int| 0 <= i < s.len() implies #[trigger] s[i] != c by {
        assert(is_digit(s[i]));
    }
}

/// A list of denominators written out: decimal numbers separated by commas.
pub open spec fn denominator_list_text(values: Seq<u64>) -> Seq<char> {
    join(values.map_values(|v: u64| decimal_text(v as nat)), ',')
}

/// A positive number written in decimal reads back as itself.
proof fn lemma_token_of_number(v: u64)
    requires
        v > 0,
    ensures
        token_values(trim(decimal_text(v as nat))) == Ok::<Set<u64>, Seq<char>>(set![v]),
{
    let t = decimal_text(v as nat);
    lemma_decimal_text(v as nat);
    lemma_trim_digits(t);
    lemma_digits_lack(t, '-');
    lemma_first_index_none(t, '-');
    assert(t[0] != '+') by {
        assert(is_digit(t[0]));
    }
}

proof fn lemma_number_tokens(values: Seq<u64>)
    requires
        forall|i: int| 0 <= i < values.len() ==> #[trigger] values[i] > 0,
    ensures
        tokens_values(values.map_values(|v: u64| decimal_text(v as nat))) == Ok::<Set<u64>, Seq<char>>(
            values.to_set(),
        ),
    decreases values.len(),
{
    let tokens = values.map_values(|v: u64| decimal_text(v as nat));
    if values.len() == 0 {
        assert(values.to_set() =~= Set::<u64>::empty());
    } else {
        let rest = values.drop_first();
        assert forall|i: int| 0 <= i < rest.len() implies #[trigger] rest[i] > 0 by {
            assert(rest[i] == values[i + 1]);
        }
        lemma_number_tokens(rest);
        assert(tokens.drop_first() =~= rest.map_values(|v: u64| decimal_text(v as nat)));
        lemma_token_of_number(values[0]);
        assert forall|x: u64| set![values[0]].union(rest.to_set()).contains(x) <==> values.to_set().contains(x) by {
            if values.to_set().contains(x) {
                let i = choose|i: int| 0 <= i < values.len() && values[i] == x;
                if i > 0 {
                    assert(rest[i - 1] == x);
                }
            }
            if rest.to_set().contains(x) {
                let i = choose|i: int| 0 <= i < rest.len() && rest[i] == x;
                assert(values[i + 1] == x);
            }
        }
        assert(set![values[0]].union(rest.to_set()) =~= values.to_set());
    }
}

/// A nonempty list of positive denominators, written out with commas, reads
/// back as the same denominators.
pub proof fn denominator_list_reads_back(values: Seq<u64>)
    requires
        values.len() >= 1,
        forall|i: int| 0 <= i < values.len() ==> #[trigger] values[i] > 0,
    ensures
        denominators_result(denominator_list_text(values)) == Ok::<Set<u64>, Seq<char>>(values.to_set()),
{
    let tokens = values.map_values(|v: u64| decimal_text(v as nat));
    assert forall|i: int| 0 <= i < tokens.len() implies lacks(#[trigger] tokens[i], ',') by {
        lemma_decimal_text(values[i] as nat);
        lemma_digits_lack(tokens[i], ',');
    }
    lemma_split_join(tokens, ',');
    lemma_number_tokens(values);
    assert(values.to_set().contains(values[0]));
}

/// A coefficient written out: `-` and the digits of its magnitude when it is
/// negative, else just the digits.
pub open spec fn signed_text(c: i64) -> Seq<char> {
    if c < 0 {
        seq!['-'] + decimal_text((-(c as int)) as nat)
    } else {
        decimal_text(c as nat)
    }
}

/// A term written out as `coefficient:denominator`.
pub open spec fn term_text(t: Term) -> Seq<char> {
    signed_text(t.coefficient) + seq![':'] + decimal_text(t.denominator as nat)
}

/// A formula written out: its terms separated by commas.
pub open spec fn formula_text(terms: Seq<Term>) -> Seq<char> {
    join(terms.map_values(|t: Term| term_text(t)), ',')
}

proof fn lemma_signed_text(c: i64)
    ensures
        signed_text(c).len() >= 1,
        lacks(signed_text(c), ':'),
        lacks(signed_text(c), ','),
        trim(signed_text(c)) == signed_text(c),
        parse_i64(signed_text(c)) == Some(c),
{
    let s = signed_text(c);
    if c < 0 {
        let m = (-(c as int)) as nat;
        let d = decimal_text(m);
        lemma_decimal_text(m);
        lemma_digits_lack(d, ':');
        lemma_digits_lack(d, ',');
        assert(s.drop_first() =~= d);
        assert forall|i: int| 0 <= i < s.len() implies #[trigger] s[i] != ':' && s[i] != ',' by {
            if i > 0 {
                assert(s[i] == d[i - 1]);
            }
        }
        assert(!is_white_space(s[0]));
        assert(s.last() == d.last());
        assert(is_digit(d.last()));
        assert(!is_white_space(s.last()));
        assert(trim_start(s) == s);
    } else {
        lemma_decimal_text(c as nat);
        lemma_digits_lack(s, ':');
        lemma_digits_lack(s, ',');
        lemma_trim_digits(s);
        assert(is_digit(s[0]));
    }
}

proof fn lemma_term_reads_back(t: Term)
    requires
        t.coefficient != 0,
        t.denominator != 0,
    ensures
        parse_term(term_text(t)) == Ok::<Term, Seq<char>>(t),
        lacks(term_text(t), ','),
{
    let a = signed_text(t.coefficient);
    let b = decimal_text(t.denominator as nat);
    let s = term_text(t);
    lemma_signed_text(t.coefficient);
    lemma_decimal_text(t.denominator as nat);
    lemma_first_index_after(a, b, ':');
    assert(s.subrange(0, a.len() as int) =~= a);
    assert(s.subrange(a.len() as int + 1, s.len() as int) =~= b);
    lemma_trim_digits(b);
    assert(b[0] != '+') by {
        assert(is_digit(b[0]));
    }
    lemma_digits_lack(b, ',');
    assert forall|i: int| 0 <= i < s.len() implies #[trigger] s[i] != ',' by {
        if i < a.len() {
            assert(s[i] == a[i]);
        } else if i > a.len() {
            assert(s[i] == b[i - a.len() - 1]);
        }
    }
}

proof fn lemma_terms_read_back(terms: Seq<Term>)
    requires
        forall|i: int| 0 <= i < terms.len() ==> (#[trigger] terms[i]).coefficient != 0 && terms[i].denominator != 0,
    ensures
        parse_terms(terms.map_values(|t: Term| term_text(t))) == Ok::<Seq<Term>, Seq<char>>(terms),
    decreases terms.len(),
{
    let parts = terms.map_values(|t: Term| term_text(t));
    if terms.len() > 0 {
        let rest = terms.drop_first();
        assert forall|i: int| 0 <= i < rest.len() implies (#[trigger] rest[i]).coefficient != 0 && rest[i].denominator
            != 0 by {
            assert(rest[i] == terms[i + 1]);
        }
        lemma_terms_read_back(rest);
        assert(parts.drop_first() =~= rest.map_values(|t: Term| term_text(t)));
        lemma_term_reads_back(terms[0]);
        assert(parts[0] == term_text(terms[0]));
        assert(parse_term(parts[0]) == Ok::<Term, Seq<char>>(terms[0]));
        assert(seq![terms[0]] + rest =~= terms);
    } else {
        assert(parts =~= Seq::<Seq<char>>::empty());
        assert(terms =~= Seq::<Term>::empty());
    }
}

/// A nonempty formula with nonzero coefficients and denominators, written out
/// as `coefficient:denominator` parts separated by commas, reads back as the
/// same terms.
pub proof fn formula_reads_back(terms: Seq<Term>)
    requires
        terms.len() >= 1,
        forall|i: int| 0 <= i < terms.len() ==> (#[trigger] terms[i]).coefficient != 0 && terms[i].denominator != 0,
    ensures
        formula_result(formula_text(terms)) == Ok::<Seq<Term>, Seq<char>>(terms),
{
    let parts = terms.map_values(|t: Term| term_text(t));
    assert forall|i: int| 0 <= i < parts.len() implies lacks(#[trigger] parts[i], ',') by {
        lemma_term_reads_back(terms[i]);
    }
    lemma_split_join(parts, ',');
    lemma_terms_read_back(terms);
}

fn digit_text(d: u64) -> (r: &'static str)
    requires
        d < 10,
    ensures
        r@ == seq![digit_char(d as nat)],
{
    proof {
        reveal_strlit("0");
        reveal_strlit("1");
        reveal_strlit("2");
        reveal_strlit("3");
        reveal_strlit("4");
        reveal_strlit("5");
        reveal_strlit("6");
        reveal_strlit("7");
        reveal_strlit("8");
        reveal_strlit("9");
    }
    if d == 0 {
        "0"
    } else if d == 1 {
        "1"
    } else if d == 2 {
        "2"
    } else if d == 3 {
        "3"
    } else if d == 4 {
        "4"
    } else if d == 5 {
        "5"
    } else if d == 6 {
        "6"
    } else if d == 7 {
        "7"
    } else if d == 8 {
        "8"
    } else {
        "9"
    }
}

/// Appends the decimal text of `v` (as `{}` formats an unsigned integer).
pub fn append_decimal(text: &mut String, v: u64)
    ensures
        final(text)@ == old(text)@ + decimal_text(v as nat),
    decreases v,
{
    if v >= 10 {
        append_decimal(text, v / 10);
        text.append(digit_text(v % 10));
        proof {
            assert(decimal_text(v as nat) == decimal_text((v / 10) as nat) + seq![digit_char((v % 10) as nat)]);
        }
        assert(text@ =~= old(text)@ + decimal_text(v as nat));
    } else {
        text.append(digit_text(v));
    }
}

/// `prefix`, the decimal text of `n`, then `suffix`.
pub fn number_text(prefix: &str, n: u64, suffix: &str) -> (r: String)
    ensures
        r@ == prefix@ + decimal_text(n as nat) + suffix@,
{
    let mut text = String::from_str(prefix);
    append_decimal(&mut text, n);
    text.append(suffix);
    text
}

/// A fixed message.
pub fn fixed_text(text: &str) -> (r: String)
    ensures
        r@ == text@,
{
    String::from_str(text)
}

} // verus!
