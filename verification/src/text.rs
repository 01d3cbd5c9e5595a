//! Character-level helpers: turning strings into characters and back, and
//! splitting a string at the first occurrence of a short separator.
use vstd::prelude::*;
use vstd::string::StrSliceExecFns;

verus! {

broadcast use vstd::string::group_string_axioms;

/// `pat` occurs in `s` starting at index `i`.
pub open spec fn occurs_at(s: Seq<char>, pat: Seq<char>, i: int) -> bool {
    &&& 0 <= i
    &&& i + pat.len() <= s.len()
    &&& s.subrange(i, i + pat.len()) == pat
}

/// The first index at or after `i` where `pat` occurs in `s`.
pub open spec fn find_from(s: Seq<char>, pat: Seq<char>, i: int) -> Option<int>
    decreases s.len() + 1 - i,
{
    if i < 0 || i + pat.len() > s.len() {
        None
    } else if occurs_at(s, pat, i) {
        Some(i)
    } else {
        find_from(s, pat, i + 1)
    }
}

/// `str::split_once`: the text before and after the first occurrence of `pat`.
pub open spec fn split_once(s: Seq<char>, pat: Seq<char>) -> Option<(Seq<char>, Seq<char>)> {
    match find_from(s, pat, 0) {
        Some(i) => Some((s.take(i), s.skip(i + pat.len()))),
        None => None,
    }
}

/// `find_from` returns the first occurrence at or after `i`, and `None` only
/// when there is none.
pub proof fn lemma_find_from(s: Seq<char>, pat: Seq<char>, i: int)
    requires
        0 <= i,
    ensures
        match find_from(s, pat, i) {
            Some(j) => i <= j && occurs_at(s, pat, j) && forall|k: int|
                i <= k < j ==> !occurs_at(s, pat, k),
            None => forall|k: int| i <= k ==> !occurs_at(s, pat, k),
        },
    decreases s.len() + 1 - i,
{
    if i + pat.len() > s.len() {
    } else if occurs_at(s, pat, i) {
    } else {
        lemma_find_from(s, pat, i + 1);
    }
}

/// The characters of `s`, in order.
pub fn chars_of(s: &str) -> (r: Vec<char>)
    ensures
        r@ == s@,
{
    let mut r: Vec<char> = Vec::new();
    for c in it: s.chars()
        invariant
            it.seq() == s@,
            r@ == it.seq().take(it.index()),
    {
        r.push(c);
    }
    r
}

/// The characters of `s` from index `from` up to (not including) `to`, as a `String`.
pub fn substring(s: &str, from: usize, to: usize) -> (r: String)
    requires
        from <= to <= s@.len(),
    ensures
        r@ == s@.subrange(from as int, to as int),
{
    s.substring_char(from, to).to_owned()
}

/// Finds the first index at which the one- or two-character separator `pat` occurs in `cs`.
pub fn find_separator(cs: &Vec<char>, pat: &Vec<char>) -> (r: Option<usize>)
    requires
        1 <= pat@.len() <= 2,
    ensures
        match r {
            Some(i) => find_from(cs@, pat@, 0) == Some(i as int),
            None => find_from(cs@, pat@, 0) is None,
        },
{
    let n = cs.len();
    let m = pat.len();
    if n < m {
        return None;
    }
    let mut i: usize = 0;
    while i <= n - m
        invariant
            n == cs@.len(),
            m == pat@.len(),
            1 <= m <= 2,
            m <= n,
            i + m <= n + 1,
            find_from(cs@, pat@, 0) == find_from(cs@, pat@, i as int),
        decreases n - i,
    {
        let hit = if m == 1 {
            cs[i] == pat[0]
        } else {
            cs[i] == pat[0] && cs[i + 1] == pat[1]
        };
        assert(hit == occurs_at(cs@, pat@, i as int)) by {
            if m == 1 {
                assert(hit ==> cs@.subrange(i as int, i + 1) =~= pat@);
                assert(cs@.subrange(i as int, i + 1) == pat@ ==> cs@.subrange(i as int, i + 1)[0]
                    == pat@[0]);
            } else {
                assert(hit ==> cs@.subrange(i as int, i + 2) =~= pat@);
                assert(cs@.subrange(i as int, i + 2) == pat@ ==> cs@.subrange(i as int, i + 2)[0]
                    == pat@[0] && cs@.subrange(i as int, i + 2)[1] == pat@[1]);
            }
        }
        if hit {
            return Some(i);
        }
        i = i + 1;
    }
    None
}

/// `str::split_once` on a string whose characters are `cs`, for a separator of one or
/// two characters: the text before and after the first occurrence.
pub fn split_once_exec(s: &str, cs: &Vec<char>, pat: &Vec<char>) -> (r: Option<(String, String)>)
    requires
        cs@ == s@,
        1 <= pat@.len() <= 2,
    ensures
        match r {
            Some((a, b)) => split_once(s@, pat@) == Some((a@, b@)),
            None => split_once(s@, pat@) is None,
        },
{
    match find_separator(cs, pat) {
        Some(i) => {
            proof {
                lemma_find_from(s@, pat@, 0);
            }
            let m = pat.len();
            let n = cs.len();
            assert(i + m <= n);
            let before = substring(s, 0, i);
            let after = substring(s, i + m, n);
            assert(s@.subrange(0, i as int) =~= s@.take(i as int));
            assert(s@.subrange(i + pat@.len(), s@.len() as int) =~= s@.skip(i + pat@.len()));
            Some((before, after))
        },
        None => None,
    }
}

} // verus!
