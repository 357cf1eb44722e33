//! Verified string helpers: simple case folding, character-level equality,
//! substring containment, and splitting on the path separator.

use vstd::prelude::*;

verus! {

/// Simple locale-independent case fold of one character: the twenty-six
/// ASCII uppercase letters map to their lowercase counterparts, every other
/// character is unchanged.
pub open spec fn fold_char(c: char) -> char {
    if 'A' as u32 <= c as u32 && c as u32 <= 'Z' as u32 {
        (((c as u32) + 32) as u32) as char
    } else {
        c
    }
}

/// Simple case fold of a whole string.
pub open spec fn fold_case(s: Seq<char>) -> Seq<char> {
    Seq::new(s.len(), |i: int| fold_char(s[i]))
}

/// True when `needle` occurs in `hay` as a contiguous substring; an empty
/// needle occurs in every string.
pub open spec fn has_substring(hay: Seq<char>, needle: Seq<char>) -> bool {
    exists|i: int|
        0 <= i && i + needle.len() <= hay.len() && #[trigger] hay.subrange(i, i + needle.len())
            == needle
}

/// Case-fold one character.
pub fn fold_char_exec(c: char) -> (r: char)
    ensures
        r == fold_char(c),
{
    let u: u32 = c as u32;
    if 'A' as u32 <= u && u <= 'Z' as u32 {
        let b: u8 = (u + 32) as u8;
        b as char
    } else {
        c
    }
}

/// Relies on `String::push` from std: appends the given character to the
/// end of the string.
#[verifier::external_body]
pub(crate) fn push_char(s: &mut String, c: char)
    ensures
        final(s)@ == old(s)@.push(c),
{
    s.push(c);
}

/// Case-fold a whole string.
pub fn fold_case_exec(s: &str) -> (r: String)
    ensures
        r@ == fold_case(s@),
{
    let n: usize = s.unicode_len();
    let mut r = String::new();
    let mut i: usize = 0;
    while i < n
        invariant
            0 <= i <= n,
            r@ == fold_case(s@).subrange(0, i as int),
        decreases n - i,
    {
        let c = s.get_char(i);
        push_char(&mut r, fold_char_exec(c));
        i = i + 1;
        proof {
            assert(r@ =~= fold_case(s@).subrange(0, i as int));
        }
    }
    proof {
        assert(r@ =~= fold_case(s@));
    }
    r
}

/// Character-for-character string equality.
pub fn str_eq(a: &str, b: &str) -> (r: bool)
    ensures
        r == (a@ == b@),
{
    let na: usize = a.unicode_len();
    let nb: usize = b.unicode_len();
    if na != nb {
        return false;
    }
    let mut i: usize = 0;
    while i < na
        invariant
            0 <= i <= na,
            na == a@.len() && na == b@.len(),
            forall|k: int| 0 <= k < i ==> a@[k] == b@[k],
        decreases na - i,
    {
        if a.get_char(i) != b.get_char(i) {
            return false;
        }
        i = i + 1;
    }
    proof {
        assert(a@ =~= b@);
    }
    true
}

/// String equality up to the simple case fold.
pub fn eq_ignore_case(a: &str, b: &str) -> (r: bool)
    ensures
        r == (fold_case(a@) == fold_case(b@)),
{
    let fa = fold_case_exec(a);
    let fb = fold_case_exec(b);
    str_eq(fa.as_str(), fb.as_str())
}

/// Relies on `str::contains` from std: true exactly when the pattern
/// occurs as a contiguous substring of the receiver.
#[verifier::external_body]
pub(crate) fn str_contains(hay: &str, needle: &str) -> (r: bool)
    ensures
        r == has_substring(hay@, needle@),
{
    hay.contains(needle)
}

/// True when the string holds at least one `/`.
pub open spec fn has_slash(s: Seq<char>) -> bool {
    exists|k: int| 0 <= k < s.len() && s[k] == '/'
}

/// Whether the string holds a `/` anywhere.
pub fn contains_slash(s: &str) -> (r: bool)
    ensures
        r == has_slash(s@),
{
    let n: usize = s.unicode_len();
    let mut i: usize = 0;
    while i < n
        invariant
            0 <= i <= n,
            forall|k: int| 0 <= k < i ==> s@[k] != '/',
        decreases n - i,
    {
        if s.get_char(i) == '/' {
            return true;
        }
        i = i + 1;
    }
    false
}

/// Index of the first `/` at or after position `i`, or the length of the
/// string when there is none.
pub open spec fn first_slash_from(s: Seq<char>, i: int) -> int
    decreases s.len() - i,
{
    if i < 0 || i >= s.len() {
        s.len() as int
    } else if s[i] == '/' {
        i
    } else {
        first_slash_from(s, i + 1)
    }
}

pub proof fn lemma_first_slash_bounds(s: Seq<char>, i: int)
    requires
        0 <= i <= s.len(),
    ensures
        i <= first_slash_from(s, i) <= s.len(),
        first_slash_from(s, i) < s.len() ==> s[first_slash_from(s, i)] == '/',
        forall|k: int| i <= k < first_slash_from(s, i) ==> s[k] != '/',
    decreases s.len() - i,
{
    if i < s.len() && s[i] != '/' {
        lemma_first_slash_bounds(s, i + 1);
    }
}

/// The first slash is exactly the position `j` before which no slash occurs
/// and at which either the string ends or a slash stands.
pub proof fn lemma_first_slash_is(s: Seq<char>, i: int, j: int)
    requires
        0 <= i <= j <= s.len(),
        forall|k: int| i <= k < j ==> s[k] != '/',
        j == s.len() || s[j] == '/',
    ensures
        first_slash_from(s, i) == j,
    decreases j - i,
{
    if i < j {
        lemma_first_slash_is(s, i + 1, j);
    }
}

/// The segments of `s` between `/` separators, in order.  Splitting the
/// empty string yields one empty segment.
pub open spec fn spec_split(s: Seq<char>) -> Seq<Seq<char>>
    decreases s.len(),
    via spec_split_decreases
{
    let j = first_slash_from(s, 0);
    if j == s.len() {
        seq![s]
    } else {
        seq![s.subrange(0, j)] + spec_split(s.subrange(j + 1, s.len() as int))
    }
}

#[via_fn]
proof fn spec_split_decreases(s: Seq<char>) {
    lemma_first_slash_bounds(s, 0);
}

/// The views of a sequence of owned strings.
pub open spec fn views_of(v: Seq<String>) -> Seq<Seq<char>> {
    v.map_values(|x: String| x@)
}

/// Split a string on `/`.
pub fn split_slash(s: &str) -> (parts: Vec<String>)
    ensures
        views_of(parts@) == spec_split(s@),
        parts@.len() >= 1,
{
    let n: usize = s.unicode_len();
    let mut parts: Vec<String> = Vec::new();
    let mut start: usize = 0;
    let mut i: usize = 0;
    proof {
        assert(s@.subrange(0, n as int) =~= s@);
        assert(views_of(parts@) =~= Seq::<Seq<char>>::empty());
        assert(views_of(parts@) + spec_split(s@) =~= spec_split(s@));
    }
    while i < n
        invariant
            0 <= start <= i <= n,
            forall|k: int| start <= k < i ==> s@[k] != '/',
            views_of(parts@) + spec_split(s@.subrange(start as int, n as int)) == spec_split(s@),
        decreases n - i,
    {
        let c = s.get_char(i);
        if c == '/' {
            let seg = s.substring_char(start, i);
            let ghost old_parts = parts@;
            parts.push(seg.to_owned());
            proof {
                let sub = s@.subrange(start as int, n as int);
                lemma_first_slash_is(sub, 0, i - start);
                assert(sub.subrange(0, i - start) =~= s@.subrange(start as int, i as int));
                assert(sub.subrange(i - start + 1, sub.len() as int) =~= s@.subrange(
                    i as int + 1,
                    n as int,
                ));
                assert(views_of(parts@) =~= views_of(old_parts).push(seg@));
                assert(views_of(old_parts).push(seg@) =~= views_of(old_parts) + seq![
                    s@.subrange(start as int, i as int),
                ]);
                assert(views_of(parts@) + spec_split(s@.subrange(i as int + 1, n as int))
                    =~= views_of(old_parts) + spec_split(sub));
            }
            start = i + 1;
        }
        i = i + 1;
    }
    let seg = s.substring_char(start, n);
    let ghost old_parts = parts@;
    parts.push(seg.to_owned());
    proof {
        let sub = s@.subrange(start as int, n as int);
        lemma_first_slash_is(sub, 0, sub.len() as int);
        assert(spec_split(sub) =~= seq![sub]);
        assert(views_of(parts@) =~= views_of(old_parts).push(seg@));
        assert(views_of(parts@) =~= views_of(old_parts) + seq![sub]);
        assert(views_of(parts@) =~= spec_split(s@));
    }
    parts
}

/// Index of the first character at or after `i` that is not a `/`, or the
/// length of the string when every remaining character is a `/`.
pub open spec fn first_non_slash(s: Seq<char>, i: int) -> int
    decreases s.len() - i,
{
    if i < 0 || i >= s.len() {
        s.len() as int
    } else if s[i] != '/' {
        i
    } else {
        first_non_slash(s, i + 1)
    }
}

pub proof fn lemma_first_non_slash_is(s: Seq<char>, i: int, j: int)
    requires
        0 <= i <= j <= s.len(),
        forall|k: int| i <= k < j ==> s[k] == '/',
        j == s.len() || s[j] != '/',
    ensures
        first_non_slash(s, i) == j,
    decreases j - i,
{
    if i < j {
        lemma_first_non_slash_is(s, i + 1, j);
    }
}

/// `s` with every leading `/` removed.
pub open spec fn trim_slashes(s: Seq<char>) -> Seq<char> {
    s.subrange(first_non_slash(s, 0), s.len() as int)
}

/// Remove every leading `/`.
pub fn trim_leading_slashes(s: &str) -> (r: &str)
    ensures
        r@ == trim_slashes(s@),
{
    let n: usize = s.unicode_len();
    let mut i: usize = 0;
    while i < n
        invariant
            0 <= i <= n,
            forall|k: int| 0 <= k < i ==> s@[k] == '/',
        decreases n - i,
    {
        if s.get_char(i) != '/' {
            proof {
                lemma_first_non_slash_is(s@, 0, i as int);
            }
            return s.substring_char(i, n);
        }
        i = i + 1;
    }
    proof {
        lemma_first_non_slash_is(s@, 0, n as int);
    }
    s.substring_char(n, n)
}

} // verus!
