//! Character classes and text splitting for the wire protocol.
//!
//! The Unicode character classes and case folding are taken from the
//! standard library through trusted declarations; the structural work
//! (finding the `->` delimiter, trimming, splitting a recipient list on
//! commas) is verified against spec functions over `Seq<char>`.

use vstd::prelude::*;

verus! {

/// Whether a character counts as alphanumeric; the result of
/// `char::is_alphanumeric`, which depends on the character alone.
pub uninterp spec fn is_alnum(c: char) -> bool;

/// Whether a character counts as whitespace; the result of
/// `char::is_whitespace`, which depends on the character alone.
pub uninterp spec fn is_space(c: char) -> bool;

/// The character sequence `str::to_lowercase` produces; it depends on the
/// input characters alone.
pub uninterp spec fn lower_of(s: Seq<char>) -> Seq<char>;

/// Relies on `char::is_alphanumeric`: true exactly for characters in the
/// Unicode `Alphabetic` or `Number` categories.
pub assume_specification[ char::is_alphanumeric ](c: char) -> (r: bool)
    ensures
        r == is_alnum(c),
;

/// Relies on `char::is_whitespace`: true exactly for characters with the
/// Unicode `White_Space` property.
pub assume_specification[ char::is_whitespace ](c: char) -> (r: bool)
    ensures
        r == is_space(c),
;

/// Relies on `str::to_lowercase`: the lowercase equivalent of the input,
/// a function of the input characters alone; the empty string stays empty.
pub assume_specification[ str::to_lowercase ](s: &str) -> (r: String)
    ensures
        r@ == lower_of(s@),
        s@.len() == 0 ==> r@.len() == 0,
;

/// Every character of `s` is alphanumeric (vacuously true of the empty
/// sequence, so an empty line passes as a login line).
pub open spec fn all_alnum(s: Seq<char>) -> bool {
    forall|i: int| 0 <= i < s.len() ==> is_alnum(#[trigger] s[i])
}

/// The two-character delimiter `->` stands at position `j` of `s`.
pub open spec fn arrow_at(s: Seq<char>, j: int) -> bool {
    0 <= j && j + 1 < s.len() && s[j] == '-' && s[j + 1] == '>'
}

/// Index of the first occurrence of the delimiter `->` in `s`, if any.
pub open spec fn spec_find_arrow(s: Seq<char>) -> Option<int>
    decreases s.len(),
{
    if s.len() < 2 {
        None
    } else if s[0] == '-' && s[1] == '>' {
        Some(0)
    } else {
        match spec_find_arrow(s.drop_first()) {
            Some(i) => Some(i + 1),
            None => None,
        }
    }
}

proof fn lemma_find_arrow_at(s: Seq<char>, i: int)
    requires
        arrow_at(s, i),
        forall|j: int| 0 <= j < i ==> !arrow_at(s, j),
    ensures
        spec_find_arrow(s) == Some(i),
    decreases i,
{
    if i == 0 {
    } else {
        let t = s.drop_first();
        assert(!arrow_at(s, 0));
        assert(arrow_at(t, i - 1));
        assert(forall|j: int| 0 <= j < i - 1 ==> !arrow_at(t, j)) by {
            assert forall|j: int| 0 <= j < i - 1 implies !arrow_at(t, j) by {
                assert(!arrow_at(s, j + 1));
            }
        }
        lemma_find_arrow_at(t, i - 1);
    }
}

proof fn lemma_find_arrow_none(s: Seq<char>)
    requires
        forall|j: int| !arrow_at(s, j),
    ensures
        spec_find_arrow(s) is None,
    decreases s.len(),
{
    if s.len() < 2 {
    } else {
        let t = s.drop_first();
        assert(!arrow_at(s, 0));
        assert(forall|j: int| !arrow_at(t, j)) by {
            assert forall|j: int| !arrow_at(t, j) by {
                if 0 <= j && j + 1 < t.len() {
                    assert(!arrow_at(s, j + 1));
                }
            }
        }
        lemma_find_arrow_none(t);
    }
}

/// Position of the first `->` in `s`, scanning left to right.
pub fn find_arrow(s: &str) -> (r: Option<usize>)
    ensures
        match r {
            Some(i) => spec_find_arrow(s@) == Some(i as int) && arrow_at(s@, i as int),
            None => spec_find_arrow(s@) is None,
        },
{
    let n = s.unicode_len();
    if n < 2 {
        proof {
            lemma_find_arrow_none(s@);
        }
        return None;
    }
    let mut i: usize = 0;
    while i < n - 1
        invariant
            n == s@.len(),
            2 <= n,
            0 <= i <= n,
            forall|j: int| 0 <= j < i ==> !arrow_at(s@, j),
        decreases n - i,
    {
        if s.get_char(i) == '-' && s.get_char(i + 1) == '>' {
            proof {
                lemma_find_arrow_at(s@, i as int);
            }
            return Some(i);
        }
        i = i + 1;
    }
    proof {
        lemma_find_arrow_none(s@);
    }
    None
}

/// `s` with leading and trailing whitespace removed.
pub open spec fn trim_of(s: Seq<char>) -> Seq<char>
    decreases s.len(),
{
    if s.len() == 0 {
        s
    } else if is_space(s[0]) {
        trim_of(s.drop_first())
    } else if is_space(s.last()) {
        trim_of(s.drop_last())
    } else {
        s
    }
}

proof fn lemma_trim_all_space(s: Seq<char>)
    requires
        forall|j: int| 0 <= j < s.len() ==> is_space(#[trigger] s[j]),
    ensures
        trim_of(s) == Seq::<char>::empty(),
    decreases s.len(),
{
    if s.len() == 0 {
        assert(s =~= Seq::<char>::empty());
    } else {
        lemma_trim_all_space(s.drop_first());
    }
}

proof fn lemma_trim_subrange(s: Seq<char>, a: int, b: int)
    requires
        0 <= a <= b < s.len(),
        !is_space(s[a]),
        !is_space(s[b]),
        forall|j: int| 0 <= j < a ==> is_space(#[trigger] s[j]),
        forall|j: int| b < j < s.len() ==> is_space(#[trigger] s[j]),
    ensures
        trim_of(s) == s.subrange(a, b + 1),
    decreases s.len(),
{
    if a > 0 {
        let t = s.drop_first();
        lemma_trim_subrange(t, a - 1, b - 1);
        assert(t.subrange(a - 1, b) =~= s.subrange(a, b + 1));
    } else if b < s.len() - 1 {
        let t = s.drop_last();
        lemma_trim_subrange(t, a, b);
        assert(t.subrange(a, b + 1) =~= s.subrange(a, b + 1));
    } else {
        assert(s.subrange(0, s.len() as int) =~= s);
    }
}

/// `s` with leading and trailing whitespace removed.
pub fn trim_str<'a>(s: &'a str) -> (r: &'a str)
    ensures
        r@ == trim_of(s@),
{
    let n = s.unicode_len();
    let mut a: usize = 0;
    loop
        invariant
            n == s@.len(),
            0 <= a <= n,
            forall|j: int| 0 <= j < a ==> is_space(#[trigger] s@[j]),
        ensures
            0 <= a <= n,
            n == s@.len(),
            forall|j: int| 0 <= j < a ==> is_space(#[trigger] s@[j]),
            a < n ==> !is_space(s@[a as int]),
        decreases n - a,
    {
        if a == n {
            break;
        }
        if !s.get_char(a).is_whitespace() {
            break;
        }
        a = a + 1;
    }
    if a == n {
        proof {
            lemma_trim_all_space(s@);
        }
        return s.substring_char(n, n);
    }
    let mut b: usize = n - 1;
    loop
        invariant
            n == s@.len(),
            a <= b < n,
            !is_space(s@[a as int]),
            forall|j: int| b < j < n ==> is_space(#[trigger] s@[j]),
        ensures
            a <= b < n,
            !is_space(s@[b as int]),
            forall|j: int| b < j < n ==> is_space(#[trigger] s@[j]),
        decreases b,
    {
        if !s.get_char(b).is_whitespace() {
            break;
        }
        b = b - 1;
    }
    let r = s.substring_char(a, b + 1);
    proof {
        lemma_trim_subrange(s@, a as int, b as int);
    }
    r
}

/// The pieces of `s` between commas, in order; a sequence with no comma is
/// one piece, so the result is never empty.
pub open spec fn split_commas(s: Seq<char>) -> Seq<Seq<char>>
    decreases s.len(),
{
    if s.len() == 0 {
        seq![Seq::<char>::empty()]
    } else if s[0] == ',' {
        seq![Seq::<char>::empty()] + split_commas(s.drop_first())
    } else {
        let rest = split_commas(s.drop_first());
        seq![seq![s[0]] + rest[0]] + rest.drop_first()
    }
}

proof fn lemma_split_commas_nonempty(s: Seq<char>)
    ensures
        split_commas(s).len() >= 1,
    decreases s.len(),
{
    if s.len() == 0 {
    } else {
        lemma_split_commas_nonempty(s.drop_first());
    }
}

proof fn lemma_split_commas_none(s: Seq<char>)
    requires
        forall|j: int| 0 <= j < s.len() ==> s[j] != ',',
    ensures
        split_commas(s) == seq![s],
    decreases s.len(),
{
    if s.len() == 0 {
        assert(s =~= Seq::<char>::empty());
        assert(seq![Seq::<char>::empty()] =~= seq![s]);
    } else {
        let t = s.drop_first();
        lemma_split_commas_none(t);
        lemma_split_commas_nonempty(t);
        assert(seq![s[0]] + t =~= s);
        assert(seq![seq![s[0]] + t] + split_commas(t).drop_first() =~= seq![s]);
    }
}

proof fn lemma_split_commas_at(s: Seq<char>, i: int)
    requires
        0 <= i < s.len(),
        s[i] == ',',
        forall|j: int| 0 <= j < i ==> s[j] != ',',
    ensures
        split_commas(s) == seq![s.subrange(0, i)] + split_commas(
            s.subrange(i + 1, s.len() as int),
        ),
    decreases i,
{
    let t = s.drop_first();
    if i == 0 {
        assert(s.subrange(0, 0) =~= Seq::<char>::empty());
        assert(s.subrange(1, s.len() as int) =~= t);
    } else {
        lemma_split_commas_at(t, i - 1);
        lemma_split_commas_nonempty(t.subrange(i, t.len() as int));
        assert(t.subrange(0, i - 1) =~= s.subrange(1, i));
        assert(t.subrange(i, t.len() as int) =~= s.subrange(i + 1, s.len() as int));
        let rest = split_commas(t);
        assert(rest == seq![s.subrange(1, i)] + split_commas(s.subrange(i + 1, s.len() as int)));
        assert(rest[0] == s.subrange(1, i));
        assert(seq![s[0]] + rest[0] =~= s.subrange(0, i));
        assert(rest.drop_first() =~= split_commas(s.subrange(i + 1, s.len() as int)));
    }
}

/// The recipient pieces of a comma-separated list, each trimmed.
pub open spec fn recipients_of(s: Seq<char>) -> Seq<Seq<char>> {
    split_commas(s).map_values(|p: Seq<char>| trim_of(p))
}

/// Splits `s` on commas and trims each piece.
pub fn split_and_trim(s: &str) -> (r: Vec<String>)
    ensures
        r.deep_view() == recipients_of(s@),
{
    let n = s.unicode_len();
    let mut r: Vec<String> = Vec::new();
    let mut pos: usize = 0;
    proof {
        let trimf = |p: Seq<char>| trim_of(p);
        assert(s@.subrange(0, n as int) =~= s@);
        assert(r.deep_view() + split_commas(s@).map_values(trimf) =~= split_commas(
            s@,
        ).map_values(trimf));
    }
    loop
        invariant_except_break
            recipients_of(s@) == r.deep_view() + split_commas(
                s@.subrange(pos as int, n as int),
            ).map_values(|p: Seq<char>| trim_of(p)),
        invariant
            n == s@.len(),
            0 <= pos <= n,
        ensures
            r.deep_view() == recipients_of(s@),
        decreases n - pos,
    {
        let mut k: usize = pos;
        loop
            invariant
                n == s@.len(),
                pos <= k <= n,
                forall|j: int| pos <= j < k ==> s@[j] != ',',
            ensures
                pos <= k <= n,
                k < n ==> s@[k as int] == ',',
                forall|j: int| pos <= j < k ==> s@[j] != ',',
            decreases n - k,
        {
            if k == n {
                break;
            }
            if s.get_char(k) == ',' {
                break;
            }
            k = k + 1;
        }
        let piece = s.substring_char(pos, k);
        let trimmed = trim_str(piece).to_owned();
        let ghost prev = r.deep_view();
        r.push(trimmed);
        proof {
            assert(r.deep_view() =~= prev.push(trim_of(piece@)));
            let rem = s@.subrange(pos as int, n as int);
            let trimf = |p: Seq<char>| trim_of(p);
            if k < n {
                lemma_split_commas_at(rem, k - pos);
                assert(rem.subrange(0, k - pos) =~= piece@);
                assert(rem.subrange(k - pos + 1, rem.len() as int) =~= s@.subrange(
                    k + 1,
                    n as int,
                ));
                let tail = split_commas(s@.subrange(k + 1, n as int));
                assert(split_commas(rem).map_values(trimf) =~= seq![trim_of(piece@)]
                    + tail.map_values(trimf));
                assert(prev + split_commas(rem).map_values(trimf) =~= r.deep_view()
                    + tail.map_values(trimf));
            } else {
                lemma_split_commas_none(rem);
                assert(rem =~= piece@);
                assert(split_commas(rem).map_values(trimf) =~= seq![trim_of(piece@)]);
                assert(prev + split_commas(rem).map_values(trimf) =~= r.deep_view());
            }
        }
        if k == n {
            break;
        }
        pos = k + 1;
    }
    r
}

/// Whether every character of `s` is alphanumeric.
pub fn check_all_alnum(s: &str) -> (r: bool)
    ensures
        r == all_alnum(s@),
{
    let n = s.unicode_len();
    let mut i: usize = 0;
    while i < n
        invariant
            n == s@.len(),
            0 <= i <= n,
            forall|j: int| 0 <= j < i ==> is_alnum(#[trigger] s@[j]),
        decreases n - i,
    {
        if !s.get_char(i).is_alphanumeric() {
            return false;
        }
        i = i + 1;
    }
    true
}

} // verus!
