//! Character predicates and string utilities the parser and serializer are
//! built on: whitespace trimming, searching for characters of a set, and
//! lower-casing.

use vstd::prelude::*;

verus! {

/// Whether a character outside the printable-ASCII range has the Unicode
/// White_Space property. Decided at run time by `char::is_whitespace`.
pub uninterp spec fn unicode_space(c: char) -> bool;

/// Whether a character counts as whitespace, as `char::is_whitespace` decides
/// it: among ASCII exactly the characters 9 to 13 and 32; printable ASCII is
/// never whitespace; everything else is opaque.
pub open spec fn is_space_char(c: char) -> bool {
    if 9 <= (c as u32) && (c as u32) <= 13 {
        true
    } else if (c as u32) == 32 {
        true
    } else if 32 < (c as u32) && (c as u32) < 127 {
        false
    } else {
        unicode_space(c)
    }
}

/// Relies on `char::is_whitespace`: true exactly on characters with the
/// Unicode White_Space property, which among ASCII are 9 to 13 and 32.
#[verifier::external_body]
pub fn char_is_space(c: char) -> (b: bool)
    ensures
        b == is_space_char(c),
        ((c as u32) < 9 || (13 < (c as u32) && (c as u32) != 32 && (c as u32) >= 127)) ==> b
            == unicode_space(c),
{
    c.is_whitespace()
}

/// The ASCII lowercase of a character: the letters A to Z map down, every
/// other character stays.
pub open spec fn ascii_lower_char(c: char) -> char {
    if c == 'A' {
        'a'
    } else if c == 'B' {
        'b'
    } else if c == 'C' {
        'c'
    } else if c == 'D' {
        'd'
    } else if c == 'E' {
        'e'
    } else if c == 'F' {
        'f'
    } else if c == 'G' {
        'g'
    } else if c == 'H' {
        'h'
    } else if c == 'I' {
        'i'
    } else if c == 'J' {
        'j'
    } else if c == 'K' {
        'k'
    } else if c == 'L' {
        'l'
    } else if c == 'M' {
        'm'
    } else if c == 'N' {
        'n'
    } else if c == 'O' {
        'o'
    } else if c == 'P' {
        'p'
    } else if c == 'Q' {
        'q'
    } else if c == 'R' {
        'r'
    } else if c == 'S' {
        's'
    } else if c == 'T' {
        't'
    } else if c == 'U' {
        'u'
    } else if c == 'V' {
        'v'
    } else if c == 'W' {
        'w'
    } else if c == 'X' {
        'x'
    } else if c == 'Y' {
        'y'
    } else if c == 'Z' {
        'z'
    } else {
        c
    }
}

/// Whether every character of the text is ASCII.
pub open spec fn ascii_only(s: Seq<char>) -> bool {
    forall|i: int| 0 <= i < s.len() ==> (#[trigger] s[i] as u32) < 128
}

/// What `str::to_lowercase` returns on text beyond ASCII: opaque, decided at
/// run time.
pub uninterp spec fn unicode_lower(s: Seq<char>) -> Seq<char>;

/// What `str::to_lowercase` returns, as `char_is_space` knows whitespace: on
/// ASCII text exactly the character-wise ASCII fold, beyond ASCII a function
/// of the characters alone.
pub open spec fn lower_of(s: Seq<char>) -> Seq<char> {
    if ascii_only(s) {
        Seq::new(s.len(), |i: int| ascii_lower_char(s[i]))
    } else {
        unicode_lower(s)
    }
}

/// Relies on `str::to_lowercase`: the result depends only on the characters
/// of the input, and on ASCII text it lowercases exactly the letters A to Z,
/// character for character.
#[verifier::external_body]
pub fn to_lower(s: &str) -> (r: String)
    ensures
        r@ == lower_of(s@),
        !ascii_only(s@) ==> r@ == unicode_lower(s@),
{
    s.to_lowercase()
}

/// Folding is idempotent on ASCII text: folding a fold changes nothing.
pub proof fn lemma_lower_ascii_idempotent(s: Seq<char>)
    requires
        ascii_only(s),
    ensures
        lower_of(lower_of(s)) == lower_of(s),
{
    let f = lower_of(s);
    assert forall|i: int| 0 <= i < f.len() implies (#[trigger] f[i] as u32) < 128 by {
        assert(f[i] == ascii_lower_char(s[i]));
    }
    assert(ascii_only(f));
    assert forall|i: int| 0 <= i < f.len() implies ascii_lower_char(#[trigger] f[i]) == f[i] by {
        assert(f[i] == ascii_lower_char(s[i]));
    }
    assert(lower_of(f) =~= f);
}

/// The sequence with the leading whitespace removed.
pub open spec fn ltrim_spec(s: Seq<char>) -> Seq<char>
    decreases s.len(),
{
    if s.len() > 0 && is_space_char(s[0]) {
        ltrim_spec(s.skip(1))
    } else {
        s
    }
}

/// The sequence with the trailing whitespace removed.
pub open spec fn rtrim_spec(s: Seq<char>) -> Seq<char>
    decreases s.len(),
{
    if s.len() > 0 && is_space_char(s.last()) {
        rtrim_spec(s.drop_last())
    } else {
        s
    }
}

/// The sequence with surrounding whitespace removed, as `str::trim` computes
/// it.
pub open spec fn trim_spec(s: Seq<char>) -> Seq<char> {
    rtrim_spec(ltrim_spec(s))
}

pub proof fn lemma_ltrim_skip(s: Seq<char>, k: int)
    requires
        0 <= k <= s.len(),
        forall|j: int| 0 <= j < k ==> is_space_char(s[j]),
    ensures
        ltrim_spec(s) == ltrim_spec(s.skip(k)),
    decreases k,
{
    if k > 0 {
        assert(is_space_char(s[0]));
        assert(ltrim_spec(s) == ltrim_spec(s.skip(1)));
        lemma_ltrim_skip(s.skip(1), k - 1);
        assert(s.skip(1).skip(k - 1) =~= s.skip(k));
    } else {
        assert(s.skip(0) =~= s);
    }
}

pub proof fn lemma_rtrim_drop(s: Seq<char>, k: int)
    requires
        0 <= k <= s.len(),
        forall|j: int| s.len() - k <= j < s.len() ==> is_space_char(s[j]),
    ensures
        rtrim_spec(s) == rtrim_spec(s.take(s.len() - k)),
    decreases k,
{
    if k > 0 {
        assert(is_space_char(s.last()));
        assert(rtrim_spec(s) == rtrim_spec(s.drop_last()));
        assert(s.drop_last() =~= s.take(s.len() - 1));
        lemma_rtrim_drop(s.take(s.len() - 1), k - 1);
        assert(s.take(s.len() - 1).take(s.len() - k) =~= s.take(s.len() - k));
    } else {
        assert(s.take(s.len() - 0) =~= s);
    }
}

/// Trims surrounding whitespace, as `str::trim` does.
pub fn trim_str<'a>(s: &'a str) -> (r: &'a str)
    ensures
        r@ == trim_spec(s@),
{
    let n = s.unicode_len();
    let mut i: usize = 0;
    while i < n && char_is_space(s.get_char(i))
        invariant
            i <= n,
            n == s@.len(),
            forall|j: int| 0 <= j < i ==> is_space_char(s@[j]),
        decreases n - i,
    {
        i += 1;
    }
    let mut j: usize = n;
    while j > i && char_is_space(s.get_char(j - 1))
        invariant
            i <= j <= n,
            n == s@.len(),
            forall|t: int| j <= t < n ==> is_space_char(s@[t]),
        decreases j,
    {
        j -= 1;
    }
    let r = s.substring_char(i, j);
    proof {
        lemma_ltrim_skip(s@, i as int);
        let u = s@.skip(i as int);
        if i < n {
            assert(!is_space_char(u[0]));
            assert(ltrim_spec(u) == u);
        } else {
            assert(u.len() == 0);
            assert(ltrim_spec(u) == u);
        }
        assert(forall|t: int| u.len() - (n - j) <= t < u.len() ==> is_space_char(u[t]));
        lemma_rtrim_drop(u, n - j);
        let v = u.take(u.len() - (n - j));
        if j > i {
            assert(v.last() == s@[j - 1]);
            assert(!is_space_char(v.last()));
            assert(rtrim_spec(v) == v);
        } else {
            assert(v.len() == 0);
            assert(rtrim_spec(v) == v);
        }
        assert(v =~= s@.subrange(i as int, j as int));
    }
    r
}

/// Whether a character is one of a set, given as a slice.
pub fn set_contains(set: &[char], c: char) -> (r: bool)
    ensures
        r == set@.contains(c),
{
    let n = set.len();
    let mut i: usize = 0;
    while i < n
        invariant
            i <= n,
            n == set@.len(),
            forall|j: int| 0 <= j < i ==> set@[j] != c,
        decreases n - i,
    {
        if set[i] == c {
            return true;
        }
        i += 1;
    }
    false
}

/// The least index whose character is one of `set`, if any.
pub open spec fn find_in_set_spec(s: Seq<char>, set: Seq<char>) -> Option<int>
    decreases s.len(),
{
    if s.len() == 0 {
        None
    } else if set.contains(s[0]) {
        Some(0int)
    } else {
        match find_in_set_spec(s.skip(1), set) {
            Some(i) => Some(i + 1),
            None => None,
        }
    }
}

pub proof fn lemma_find_in_set_some(s: Seq<char>, set: Seq<char>, i: int)
    requires
        0 <= i < s.len(),
        set.contains(s[i]),
        forall|j: int| 0 <= j < i ==> !set.contains(s[j]),
    ensures
        find_in_set_spec(s, set) == Some(i),
    decreases i,
{
    if i == 0 {
    } else {
        lemma_find_in_set_some(s.skip(1), set, i - 1);
    }
}

pub proof fn lemma_find_in_set_none(s: Seq<char>, set: Seq<char>)
    requires
        forall|j: int| 0 <= j < s.len() ==> !set.contains(s[j]),
    ensures
        find_in_set_spec(s, set) is None,
    decreases s.len(),
{
    if s.len() > 0 {
        lemma_find_in_set_none(s.skip(1), set);
    }
}

/// What the found index means: in range, holding a set character, and first.
pub proof fn lemma_find_in_set_bounds(s: Seq<char>, set: Seq<char>)
    ensures
        match find_in_set_spec(s, set) {
            Some(i) => 0 <= i < s.len() && set.contains(s[i]) && (forall|j: int|
                0 <= j < i ==> !set.contains(s[j])),
            None => forall|j: int| 0 <= j < s.len() ==> !set.contains(s[j]),
        },
    decreases s.len(),
{
    if s.len() == 0 {
    } else if set.contains(s[0]) {
    } else {
        lemma_find_in_set_bounds(s.skip(1), set);
        match find_in_set_spec(s.skip(1), set) {
            Some(i) => {
                assert(s.skip(1)[i] == s[i + 1]);
                assert forall|j: int| 0 <= j < i + 1 implies !set.contains(s[j]) by {
                    if j > 0 {
                        assert(s.skip(1)[j - 1] == s[j]);
                    }
                }
            },
            None => {
                assert forall|j: int| 0 <= j < s.len() implies !set.contains(s[j]) by {
                    if j > 0 {
                        assert(s.skip(1)[j - 1] == s[j]);
                    }
                }
            },
        }
    }
}

/// Finds the first character of `s` that is one of `set`.
pub fn find_in_set(s: &str, set: &[char]) -> (r: Option<usize>)
    ensures
        match r {
            Some(i) => i < s@.len() && find_in_set_spec(s@, set@) == Some(i as int)
                && set@.contains(s@[i as int]) && (forall|j: int|
                0 <= j < i ==> !set@.contains(s@[j])),
            None => find_in_set_spec(s@, set@) is None && (forall|j: int|
                0 <= j < s@.len() ==> !set@.contains(s@[j])),
        },
{
    let n = s.unicode_len();
    let mut i: usize = 0;
    while i < n
        invariant
            i <= n,
            n == s@.len(),
            forall|j: int| 0 <= j < i ==> !set@.contains(s@[j]),
        decreases n - i,
    {
        if set_contains(set, s.get_char(i)) {
            proof {
                lemma_find_in_set_some(s@, set@, i as int);
            }
            return Some(i);
        }
        i += 1;
    }
    proof {
        lemma_find_in_set_none(s@, set@);
    }
    None
}

/// The greatest index holding character `c`, if any.
pub open spec fn rfind_spec(s: Seq<char>, c: char) -> Option<int>
    decreases s.len(),
{
    if s.len() == 0 {
        None
    } else if s.last() == c {
        Some(s.len() - 1)
    } else {
        rfind_spec(s.drop_last(), c)
    }
}

pub proof fn lemma_rfind_some(s: Seq<char>, c: char, i: int)
    requires
        0 <= i < s.len(),
        s[i] == c,
        forall|j: int| i < j < s.len() ==> s[j] != c,
    ensures
        rfind_spec(s, c) == Some(i),
    decreases s.len(),
{
    if i == s.len() - 1 {
    } else {
        assert(s.last() != c);
        assert(s.drop_last()[i] == c);
        lemma_rfind_some(s.drop_last(), c, i);
    }
}

pub proof fn lemma_rfind_none(s: Seq<char>, c: char)
    requires
        forall|j: int| 0 <= j < s.len() ==> s[j] != c,
    ensures
        rfind_spec(s, c) is None,
    decreases s.len(),
{
    if s.len() > 0 {
        lemma_rfind_none(s.drop_last(), c);
    }
}

/// What the found index means: in range, holding `c`, and last.
pub proof fn lemma_rfind_bounds(s: Seq<char>, c: char)
    ensures
        match rfind_spec(s, c) {
            Some(i) => 0 <= i < s.len() && s[i] == c && (forall|j: int|
                i < j < s.len() ==> s[j] != c),
            None => forall|j: int| 0 <= j < s.len() ==> s[j] != c,
        },
    decreases s.len(),
{
    if s.len() == 0 {
    } else if s.last() == c {
    } else {
        lemma_rfind_bounds(s.drop_last(), c);
        match rfind_spec(s.drop_last(), c) {
            Some(i) => {
                assert(s.drop_last()[i] == s[i]);
                assert forall|j: int| i < j < s.len() implies s[j] != c by {
                    if j < s.len() - 1 {
                        assert(s.drop_last()[j] == s[j]);
                    }
                }
            },
            None => {
                assert forall|j: int| 0 <= j < s.len() implies s[j] != c by {
                    if j < s.len() - 1 {
                        assert(s.drop_last()[j] == s[j]);
                    }
                }
            },
        }
    }
}

/// Finds the last occurrence of `c` in `s`.
pub fn rfind_char(s: &str, c: char) -> (r: Option<usize>)
    ensures
        match r {
            Some(i) => i < s@.len() && rfind_spec(s@, c) == Some(i as int) && s@[i as int] == c
                && (forall|j: int| i < j < s@.len() ==> s@[j] != c),
            None => rfind_spec(s@, c) is None && (forall|j: int| 0 <= j < s@.len() ==> s@[j] != c),
        },
{
    let n = s.unicode_len();
    let mut j: usize = n;
    while j > 0
        invariant
            j <= n,
            n == s@.len(),
            forall|t: int| j <= t < n ==> s@[t] != c,
        decreases j,
    {
        j -= 1;
        if s.get_char(j) == c {
            proof {
                lemma_rfind_some(s@, c, j as int);
            }
            return Some(j);
        }
    }
    proof {
        lemma_rfind_none(s@, c);
    }
    None
}

} // verus!
