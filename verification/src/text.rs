//! Small text utilities on `str` and `String` with their contracts.

use vstd::prelude::*;

verus! {

/// Whether two string slices hold the same characters.
///
/// Trusted: calls `<str as PartialEq>::eq`, which compares the two slices
/// character for character.
#[verifier::external_body]
pub fn str_eq(a: &str, b: &str) -> (res: bool)
    ensures
        res == (a@ == b@),
{
    a == b
}

/// Appends one character to a string.
///
/// Trusted: calls `String::push`, which appends the character at the end.
#[verifier::external_body]
pub fn push_char(s: &mut String, c: char)
    ensures
        final(s)@ == old(s)@.push(c),
{
    s.push(c)
}

/// Appends a string slice to a string.
pub fn push_str(s: &mut String, t: &str)
    ensures
        final(s)@ == old(s)@ + t@,
{
    s.append(t);
}

/// A new string with the characters of a slice.
pub fn to_owned_string(s: &str) -> (res: String)
    ensures
        res@ == s@,
{
    broadcast use vstd::string::group_string_axioms;
    s.to_string()
}

/// The characters of a string slice, in order.
pub fn chars_of(s: &str) -> (res: Vec<char>)
    ensures
        res@ == s@,
{
    broadcast use vstd::string::group_string_axioms;
    let mut res: Vec<char> = Vec::new();
    for c in it: s.chars()
        invariant
            it.seq() == s@,
            res@ == it.seq().take(it.index() as int),
    {
        res.push(c);
    }
    res
}

/// The pieces of `s[0..k]` between separators: the finished pieces and
/// the one still open.
pub open spec fn split_upto(s: Seq<char>, sep: char, k: int) -> (Seq<Seq<char>>, Seq<char>)
    decreases k,
{
    if k <= 0 || k > s.len() {
        (Seq::empty(), Seq::empty())
    } else {
        let (done, cur) = split_upto(s, sep, k - 1);
        if s[k - 1] == sep {
            (done.push(cur), Seq::empty())
        } else {
            (done, cur.push(s[k - 1]))
        }
    }
}

/// The pieces of a text between separators, as `str::split` gives them:
/// one more piece than there are separators.
pub open spec fn split_on(s: Seq<char>, sep: char) -> Seq<Seq<char>> {
    let (done, cur) = split_upto(s, sep, s.len() as int);
    done.push(cur)
}

/// How a text is split up to `k` depends only on its first `k` characters.
pub proof fn lemma_split_upto_prefix(s1: Seq<char>, s2: Seq<char>, sep: char, k: int)
    requires
        0 <= k <= s1.len(),
        k <= s2.len(),
        forall|i: int| 0 <= i < k ==> s1[i] == s2[i],
    ensures
        split_upto(s1, sep, k) == split_upto(s2, sep, k),
    decreases k,
{
    if k > 0 {
        lemma_split_upto_prefix(s1, s2, sep, k - 1);
        assert(s1[k - 1] == s2[k - 1]);
    }
}

/// Splitting `a + t`, where `t` holds no separator, up to `j` characters
/// of `t`: the pieces of `a`, and the open piece of `a` followed by them.
pub proof fn lemma_split_upto_append(a: Seq<char>, t: Seq<char>, sep: char, j: int)
    requires
        0 <= j <= t.len(),
        forall|i: int| 0 <= i < t.len() ==> t[i] != sep,
    ensures
        split_upto(a + t, sep, a.len() + j) == (
            split_upto(a, sep, a.len() as int).0,
            split_upto(a, sep, a.len() as int).1 + t.take(j),
        ),
    decreases j,
{
    let at = a + t;
    if j == 0 {
        assert forall|i: int| 0 <= i < a.len() implies at[i] == a[i] by {}
        lemma_split_upto_prefix(at, a, sep, a.len() as int);
        assert(split_upto(a, sep, a.len() as int).1 + t.take(0) =~= split_upto(a, sep, a.len() as int).1);
    } else {
        lemma_split_upto_append(a, t, sep, j - 1);
        assert(at[a.len() + j - 1] == t[j - 1]);
        assert(split_upto(a, sep, a.len() as int).1 + t.take(j) =~=
            (split_upto(a, sep, a.len() as int).1 + t.take(j - 1)).push(t[j - 1]));
    }
}

/// No piece of a split holds the separator.
pub proof fn lemma_split_pieces_lack_sep(s: Seq<char>, sep: char, k: int)
    requires
        0 <= k <= s.len(),
    ensures
        forall|i: int| 0 <= i < split_upto(s, sep, k).1.len() ==> #[trigger] split_upto(s, sep, k).1[i] != sep,
        forall|p: int, i: int| 0 <= p < split_upto(s, sep, k).0.len() && 0 <= i < split_upto(s, sep, k).0[p].len()
            ==> #[trigger] split_upto(s, sep, k).0[p][i] != sep,
    decreases k,
{
    if k > 0 {
        lemma_split_pieces_lack_sep(s, sep, k - 1);
        let (done, cur) = split_upto(s, sep, k - 1);
        if s[k - 1] == sep {
            let now = done.push(cur);
            assert forall|p: int, i: int| 0 <= p < now.len() && 0 <= i < now[p].len() implies #[trigger] now[p][i] != sep by {
                if p < done.len() {
                    assert(now[p] == done[p]);
                }
            }
        } else {
            let now = cur.push(s[k - 1]);
            assert forall|i: int| 0 <= i < now.len() implies #[trigger] now[i] != sep by {
                if i < cur.len() {
                    assert(now[i] == cur[i]);
                }
            }
        }
    }
}

/// The characters of each vector.
pub open spec fn char_vecs_view(v: Seq<Vec<char>>) -> Seq<Seq<char>> {
    v.map_values(|x: Vec<char>| x@)
}

/// The pieces of a sequence of characters between separators.
pub fn split_chars(s: &Vec<char>, sep: char) -> (res: Vec<Vec<char>>)
    ensures
        char_vecs_view(res@) == split_on(s@, sep),
{
    let n = s.len();
    let mut done: Vec<Vec<char>> = Vec::new();
    let mut cur: Vec<char> = Vec::new();
    let mut k: usize = 0;
    while k < n
        invariant
            n == s@.len(),
            k <= n,
            char_vecs_view(done@) == split_upto(s@, sep, k as int).0,
            cur@ == split_upto(s@, sep, k as int).1,
        decreases n - k,
    {
        if s[k] == sep {
            let ghost before = done@;
            let piece = cur;
            done.push(piece);
            assert(char_vecs_view(done@) =~= char_vecs_view(before).push(piece@));
            cur = Vec::new();
        } else {
            cur.push(s[k]);
        }
        k = k + 1;
    }
    let ghost before = done@;
    let last = cur;
    done.push(last);
    assert(char_vecs_view(done@) =~= char_vecs_view(before).push(last@));
    done
}

/// Whether two sequences of characters are equal.
pub fn chars_equal(a: &Vec<char>, b: &Vec<char>) -> (res: bool)
    ensures
        res == (a@ == b@),
{
    if a.len() != b.len() {
        return false;
    }
    let n = a.len();
    let mut i: usize = 0;
    while i < n
        invariant
            n == a@.len(),
            n == b@.len(),
            i <= n,
            forall|j: int| 0 <= j < i ==> a@[j] == b@[j],
        decreases n - i,
    {
        if a[i] != b[i] {
            return false;
        }
        i = i + 1;
    }
    assert(a@ =~= b@);
    true
}

/// A string with the given characters.
pub fn string_from_chars(cs: &Vec<char>) -> (res: String)
    ensures
        res@ == cs@,
{
    let mut res = String::new();
    let n = cs.len();
    let mut k: usize = 0;
    while k < n
        invariant
            n == cs@.len(),
            k <= n,
            res@ == cs@.take(k as int),
        decreases n - k,
    {
        push_char(&mut res, cs[k]);
        assert(cs@.take(k + 1) =~= cs@.take(k as int).push(cs@[k as int]));
        k = k + 1;
    }
    assert(cs@.take(n as int) =~= cs@);
    res
}

} // verus!
