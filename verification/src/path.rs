//! Body paths such as `foo[bar].0[]`: their grammar, stated over characters, and a
//! parser proved to follow it.
//!
//! A path is one or more segments, read left to right. At each position the
//! segment forms are tried in this order, and the first that matches is taken:
//! `[digits]`, `.digits`, `digits` (array indexes), `[key]`, `.key`, `key`
//! (object keys) and `[]` (append). A bracket key runs up to the next `]`; a plain
//! key stops at `.`, `[`, `:` and `=`. The path must be used up by the segments.
use vstd::prelude::*;
use crate::error::{ParseInputError, unexpected_message};
use crate::text::{chars_of, substring};

verus! {

/// One step of a body path.
#[derive(Debug, Clone, PartialEq, Eq)]
pub enum PathSegment {
    /// A key of an object.
    ObjectKey(String),
    /// An index into an array.
    ArrayIndex(usize),
    /// The position after the last element of an array.
    ArrayEnd,
}

/// The mathematical value of a [`PathSegment`].
pub enum Segment {
    Key(Seq<char>),
    Index(usize),
    End,
}

impl View for PathSegment {
    type V = Segment;

    open spec fn view(&self) -> Segment {
        match self {
            PathSegment::ObjectKey(k) => Segment::Key(k@),
            PathSegment::ArrayIndex(i) => Segment::Index(*i),
            PathSegment::ArrayEnd => Segment::End,
        }
    }
}

/// The segments of a path, as mathematical values.
pub open spec fn segments_view(path: Seq<PathSegment>) -> Seq<Segment> {
    Seq::new(path.len(), |i: int| path[i]@)
}

/// The character classes that the segment forms read runs of.
pub enum CharClass {
    Digit,
    NotCloseBracket,
    PlainKey,
}

pub open spec fn in_class(class: CharClass, c: char) -> bool {
    match class {
        CharClass::Digit => '0' <= c && c <= '9',
        CharClass::NotCloseBracket => c != ']',
        CharClass::PlainKey => c != '.' && c != '[' && c != ':' && c != '=',
    }
}

/// The end of the longest run of characters of `class` that starts at `p`.
pub open spec fn run_end(s: Seq<char>, p: int, class: CharClass) -> int
    decreases s.len() - p,
{
    if 0 <= p < s.len() && in_class(class, s[p]) {
        run_end(s, p + 1, class)
    } else {
        p
    }
}

/// The number that a run of decimal digits denotes.
pub open spec fn decimal_value(d: Seq<char>) -> nat
    decreases d.len(),
{
    if d.len() == 0 {
        0
    } else {
        decimal_value(d.drop_last()) * 10 + ((d.last() as int - '0' as int) as nat)
    }
}

/// The index that a run of digits denotes: its value, or `usize::MAX` where the
/// value does not fit in a `usize`.
pub open spec fn index_value(d: Seq<char>) -> usize {
    if decimal_value(d) <= usize::MAX {
        decimal_value(d) as usize
    } else {
        usize::MAX
    }
}

/// `[digits]`
pub open spec fn bracket_index(s: Seq<char>, p: int) -> Option<(Segment, int)> {
    if 0 <= p < s.len() && s[p] == '[' {
        let q = run_end(s, p + 1, CharClass::Digit);
        if q > p + 1 && q < s.len() && s[q] == ']' {
            Some((Segment::Index(index_value(s.subrange(p + 1, q))), q + 1))
        } else {
            None
        }
    } else {
        None
    }
}

/// `.digits`
pub open spec fn dotted_index(s: Seq<char>, p: int) -> Option<(Segment, int)> {
    if 0 <= p < s.len() && s[p] == '.' {
        let q = run_end(s, p + 1, CharClass::Digit);
        if q > p + 1 {
            Some((Segment::Index(index_value(s.subrange(p + 1, q))), q))
        } else {
            None
        }
    } else {
        None
    }
}

/// `digits`
pub open spec fn bare_index(s: Seq<char>, p: int) -> Option<(Segment, int)> {
    let q = run_end(s, p, CharClass::Digit);
    if 0 <= p && q > p {
        Some((Segment::Index(index_value(s.subrange(p, q))), q))
    } else {
        None
    }
}

/// `[key]`
pub open spec fn bracket_key(s: Seq<char>, p: int) -> Option<(Segment, int)> {
    if 0 <= p < s.len() && s[p] == '[' {
        let q = run_end(s, p + 1, CharClass::NotCloseBracket);
        if q > p + 1 && q < s.len() && s[q] == ']' {
            Some((Segment::Key(s.subrange(p + 1, q)), q + 1))
        } else {
            None
        }
    } else {
        None
    }
}

/// `.key`
pub open spec fn dotted_key(s: Seq<char>, p: int) -> Option<(Segment, int)> {
    if 0 <= p < s.len() && s[p] == '.' {
        let q = run_end(s, p + 1, CharClass::PlainKey);
        if q > p + 1 {
            Some((Segment::Key(s.subrange(p + 1, q)), q))
        } else {
            None
        }
    } else {
        None
    }
}

/// `key`
pub open spec fn bare_key(s: Seq<char>, p: int) -> Option<(Segment, int)> {
    let q = run_end(s, p, CharClass::PlainKey);
    if 0 <= p && q > p {
        Some((Segment::Key(s.subrange(p, q)), q))
    } else {
        None
    }
}

/// `[]`
pub open spec fn array_end(s: Seq<char>, p: int) -> Option<(Segment, int)> {
    if 0 <= p && p + 1 < s.len() && s[p] == '[' && s[p + 1] == ']' {
        Some((Segment::End, p + 2))
    } else {
        None
    }
}

/// An array index segment at `p`: `[digits]`, `.digits` or `digits`, the first that matches.
pub open spec fn index_at(s: Seq<char>, p: int) -> Option<(Segment, int)> {
    if bracket_index(s, p) is Some {
        bracket_index(s, p)
    } else if dotted_index(s, p) is Some {
        dotted_index(s, p)
    } else {
        bare_index(s, p)
    }
}

/// An object key segment at `p`: `[key]`, `.key` or `key`, the first that matches.
pub open spec fn key_at(s: Seq<char>, p: int) -> Option<(Segment, int)> {
    if bracket_key(s, p) is Some {
        bracket_key(s, p)
    } else if dotted_key(s, p) is Some {
        dotted_key(s, p)
    } else {
        bare_key(s, p)
    }
}

/// The segment at position `p` and the position after it: an index, else a key,
/// else `[]`.
pub open spec fn segment_at(s: Seq<char>, p: int) -> Option<(Segment, int)> {
    if index_at(s, p) is Some {
        index_at(s, p)
    } else if key_at(s, p) is Some {
        key_at(s, p)
    } else {
        array_end(s, p)
    }
}

/// The segments read one after another from position `p`, and the position where
/// no further segment matches.
pub open spec fn segments_from(s: Seq<char>, p: int) -> (Seq<Segment>, int)
    decreases s.len() - p,
{
    match segment_at(s, p) {
        Some((seg, q)) => if p < q <= s.len() {
            let (rest, e) = segments_from(s, q);
            (seq![seg] + rest, e)
        } else {
            (seq![], p)
        },
        None => (seq![], p),
    }
}

/// The segments of the path `s`, or `None` where `s` is not a path: where no
/// segment matches at its start, or where characters are left after the last
/// segment that matches.
pub open spec fn parse_path(s: Seq<char>) -> Option<Seq<Segment>> {
    let (segs, e) = segments_from(s, 0);
    if segs.len() > 0 && e == s.len() {
        Some(segs)
    } else {
        None
    }
}

pub proof fn lemma_run_end(s: Seq<char>, p: int, class: CharClass)
    requires
        0 <= p <= s.len(),
    ensures
        p <= run_end(s, p, class) <= s.len(),
        forall|k: int| p <= k < run_end(s, p, class) ==> in_class(class, #[trigger] s[k]),
        run_end(s, p, class) < s.len() ==> !in_class(class, s[run_end(s, p, class)]),
    decreases s.len() - p,
{
    if p < s.len() && in_class(class, s[p]) {
        lemma_run_end(s, p + 1, class);
    }
}

/// Every segment form that matches consumes at least one character.
pub proof fn lemma_segment_at(s: Seq<char>, p: int)
    requires
        0 <= p <= s.len(),
    ensures
        segment_at(s, p) matches Some((_, q)) ==> p < q <= s.len(),
{
    lemma_run_end(s, p, CharClass::Digit);
    lemma_run_end(s, p, CharClass::PlainKey);
    if p < s.len() {
        lemma_run_end(s, p + 1, CharClass::Digit);
        lemma_run_end(s, p + 1, CharClass::NotCloseBracket);
        lemma_run_end(s, p + 1, CharClass::PlainKey);
    }
}

/// Whether `c` is of `class`.
fn in_class_exec(class: &CharClass, c: char) -> (r: bool)
    ensures
        r == in_class(*class, c),
{
    match class {
        CharClass::Digit => '0' <= c && c <= '9',
        CharClass::NotCloseBracket => c != ']',
        CharClass::PlainKey => is_plain_object_key_char(c),
    }
}

/// `take_while` over a class of characters: the end of the run that starts at `p`.
fn scan_run(cs: &Vec<char>, p: usize, class: CharClass) -> (q: usize)
    requires
        p <= cs@.len(),
    ensures
        q == run_end(cs@, p as int, class),
{
    let n = cs.len();
    let mut i = p;
    while i < n && in_class_exec(&class, cs[i])
        invariant
            n == cs@.len(),
            p <= i <= n,
            run_end(cs@, p as int, class) == run_end(cs@, i as int, class),
        decreases n - i,
    {
        i = i + 1;
    }
    i
}

pub proof fn lemma_decimal_grows(d: Seq<char>, c: char)
    requires
        '0' <= c <= '9',
    ensures
        decimal_value(d.push(c)) == decimal_value(d) * 10 + (c as int - '0' as int),
        decimal_value(d.push(c)) >= decimal_value(d),
{
    assert(d.push(c).drop_last() =~= d);
}

/// `str::parse::<usize>` of a run of digits, with `usize::MAX` where the value
/// does not fit.
fn digits_index(cs: &Vec<char>, from: usize, to: usize) -> (r: usize)
    requires
        from <= to <= cs@.len(),
        forall|k: int| from <= k < to ==> in_class(CharClass::Digit, #[trigger] cs@[k]),
    ensures
        r == index_value(cs@.subrange(from as int, to as int)),
{
    let mut acc: usize = 0;
    let mut saturated = false;
    let mut i = from;
    assert(cs@.subrange(from as int, from as int) =~= Seq::<char>::empty());
    while i < to
        invariant
            from <= i <= to <= cs@.len(),
            forall|k: int| from <= k < to ==> in_class(CharClass::Digit, #[trigger] cs@[k]),
            saturated ==> decimal_value(cs@.subrange(from as int, i as int)) > usize::MAX,
            !saturated ==> acc == decimal_value(cs@.subrange(from as int, i as int)),
        decreases to - i,
    {
        let c = cs[i];
        let d = (c as u32 - '0' as u32) as usize;
        proof {
            assert(cs@.subrange(from as int, i + 1) =~= cs@.subrange(from as int, i as int).push(c));
            lemma_decimal_grows(cs@.subrange(from as int, i as int), c);
        }
        if !saturated {
            match acc.checked_mul(10) {
                Some(m) => match m.checked_add(d) {
                    Some(v) => {
                        acc = v;
                    },
                    None => {
                        saturated = true;
                    },
                },
                None => {
                    saturated = true;
                },
            }
        }
        i = i + 1;
    }
    if saturated {
        usize::MAX
    } else {
        acc
    }
}

/// The result of a segment parser, compared with the spec form it follows.
pub open spec fn segment_matches(r: Option<(PathSegment, usize)>, spec: Option<(Segment, int)>) -> bool {
    match r {
        Some((seg, q)) => spec == Some((seg@, q as int)),
        None => spec is None,
    }
}

/// Whether `c` may appear in a plain (bare or dotted) object key.
pub fn is_plain_object_key_char(c: char) -> (r: bool)
    ensures
        r == in_class(CharClass::PlainKey, c),
        r == (c != '.' && c != '[' && c != ':' && c != '='),
{
    c != '.' && c != '[' && c != ':' && c != '='
}

/// Reads one or more digits at `p`: the index they denote
/// and the position after them.
fn parse_index_digits(cs: &Vec<char>, p: usize) -> (r: Option<(usize, usize)>)
    requires
        p <= cs@.len(),
    ensures
        ({
            let q = run_end(cs@, p as int, CharClass::Digit);
            match r {
                Some((index, e)) => q > p && e == q && index == index_value(cs@.subrange(p as int, q)),
                None => q == p,
            }
        }),
{
    proof {
        lemma_run_end(cs@, p as int, CharClass::Digit);
    }
    let q = scan_run(cs, p, CharClass::Digit);
    if q > p {
        Some((digits_index(cs, p, q), q))
    } else {
        None
    }
}

/// `[digits]`.
fn bracket_array_index_segment(cs: &Vec<char>, p: usize) -> (r: Option<(PathSegment, usize)>)
    requires
        p <= cs@.len(),
    ensures
        segment_matches(r, bracket_index(cs@, p as int)),
{
    if p < cs.len() && cs[p] == '[' {
        if let Some((index, q)) = parse_index_digits(cs, p + 1) {
            if q < cs.len() && cs[q] == ']' {
                return Some((PathSegment::ArrayIndex(index), q + 1));
            }
        }
    }
    None
}

/// `.digits`.
fn dotted_array_index_segment(cs: &Vec<char>, p: usize) -> (r: Option<(PathSegment, usize)>)
    requires
        p <= cs@.len(),
    ensures
        segment_matches(r, dotted_index(cs@, p as int)),
{
    if p < cs.len() && cs[p] == '.' {
        if let Some((index, q)) = parse_index_digits(cs, p + 1) {
            return Some((PathSegment::ArrayIndex(index), q));
        }
    }
    None
}

/// `digits`.
fn bare_array_index_segment(cs: &Vec<char>, p: usize) -> (r: Option<(PathSegment, usize)>)
    requires
        p <= cs@.len(),
    ensures
        segment_matches(r, bare_index(cs@, p as int)),
{
    if let Some((index, q)) = parse_index_digits(cs, p) {
        return Some((PathSegment::ArrayIndex(index), q));
    }
    None
}

/// An array index segment.
fn array_index_segment(cs: &Vec<char>, p: usize) -> (r: Option<(PathSegment, usize)>)
    requires
        p <= cs@.len(),
    ensures
        segment_matches(r, index_at(cs@, p as int)),
{
    let r = bracket_array_index_segment(cs, p);
    if r.is_some() {
        return r;
    }
    let r = dotted_array_index_segment(cs, p);
    if r.is_some() {
        return r;
    }
    bare_array_index_segment(cs, p)
}

/// `[key]`.
fn bracket_object_key_segment(s: &str, cs: &Vec<char>, p: usize) -> (r: Option<(PathSegment, usize)>)
    requires
        cs@ == s@,
        p <= cs@.len(),
    ensures
        segment_matches(r, bracket_key(s@, p as int)),
{
    if p < cs.len() && cs[p] == '[' {
        proof {
            lemma_run_end(cs@, p + 1, CharClass::NotCloseBracket);
        }
        let q = scan_run(cs, p + 1, CharClass::NotCloseBracket);
        if q > p + 1 && q < cs.len() && cs[q] == ']' {
            let key = substring(s, p + 1, q);
            return Some((PathSegment::ObjectKey(key), q + 1));
        }
    }
    None
}

/// `.key`.
fn dotted_object_key_segment(s: &str, cs: &Vec<char>, p: usize) -> (r: Option<(PathSegment, usize)>)
    requires
        cs@ == s@,
        p <= cs@.len(),
    ensures
        segment_matches(r, dotted_key(s@, p as int)),
{
    if p < cs.len() && cs[p] == '.' {
        proof {
            lemma_run_end(cs@, p + 1, CharClass::PlainKey);
        }
        let q = scan_run(cs, p + 1, CharClass::PlainKey);
        if q > p + 1 {
            let key = substring(s, p + 1, q);
            return Some((PathSegment::ObjectKey(key), q));
        }
    }
    None
}

/// `key`.
fn bare_object_key_segment(s: &str, cs: &Vec<char>, p: usize) -> (r: Option<(PathSegment, usize)>)
    requires
        cs@ == s@,
        p <= cs@.len(),
    ensures
        segment_matches(r, bare_key(s@, p as int)),
{
    proof {
        lemma_run_end(cs@, p as int, CharClass::PlainKey);
    }
    let q = scan_run(cs, p, CharClass::PlainKey);
    if q > p {
        let key = substring(s, p, q);
        return Some((PathSegment::ObjectKey(key), q));
    }
    None
}

/// An object key segment.
fn object_key_segment(s: &str, cs: &Vec<char>, p: usize) -> (r: Option<(PathSegment, usize)>)
    requires
        cs@ == s@,
        p <= cs@.len(),
    ensures
        segment_matches(r, key_at(s@, p as int)),
{
    let r = bracket_object_key_segment(s, cs, p);
    if r.is_some() {
        return r;
    }
    let r = dotted_object_key_segment(s, cs, p);
    if r.is_some() {
        return r;
    }
    bare_object_key_segment(s, cs, p)
}

/// `[]`.
fn array_end_segment(cs: &Vec<char>, p: usize) -> (r: Option<(PathSegment, usize)>)
    requires
        p <= cs@.len(),
    ensures
        segment_matches(r, array_end(cs@, p as int)),
{
    let n = cs.len();
    if p < n && n - p >= 2 && cs[p] == '[' && cs[p + 1] == ']' {
        return Some((PathSegment::ArrayEnd, p + 2));
    }
    None
}

/// The segment at position `p` of the path whose characters are `cs`.
pub fn access_path_segment(s: &str, cs: &Vec<char>, p: usize) -> (r: Option<(PathSegment, usize)>)
    requires
        cs@ == s@,
        p <= cs@.len(),
    ensures
        segment_matches(r, segment_at(s@, p as int)),
{
    let r = array_index_segment(cs, p);
    if r.is_some() {
        return r;
    }
    let r = object_key_segment(s, cs, p);
    if r.is_some() {
        return r;
    }
    array_end_segment(cs, p)
}

/// Parses a body path: its segments, or the error for
/// unexpected input where the text is not a path.
pub fn parse_access_path(s: &str) -> (r: Result<Vec<PathSegment>, ParseInputError>)
    ensures
        match parse_path(s@) {
            Some(p) => r matches Ok(path) && segments_view(path@) == p,
            None => r matches Err(e) && e@ == unexpected_message(s@),
        },
{
    let cs = chars_of(s);
    let n = cs.len();
    let mut path: Vec<PathSegment> = Vec::new();
    let mut p: usize = 0;
    loop
        invariant
            cs@ == s@,
            n == cs@.len(),
            p <= n,
            segments_from(s@, 0) == (segments_view(path@) + segments_from(s@, p as int).0,
                segments_from(s@, p as int).1),
        ensures
            p <= n,
            segments_from(s@, 0) == (segments_view(path@), p as int),
        decreases n - p,
    {
        proof {
            lemma_segment_at(s@, p as int);
        }
        match access_path_segment(s, &cs, p) {
            Some((seg, q)) => {
                let ghost old_view = segments_view(path@);
                let ghost seg_view = seg@;
                path.push(seg);
                proof {
                    assert(segments_view(path@) =~= old_view.push(seg_view));
                    let rest = segments_from(s@, q as int);
                    assert(segments_from(s@, p as int) == (seq![seg_view] + rest.0, rest.1));
                    assert(old_view + (seq![seg_view] + rest.0) =~= old_view.push(seg_view)
                        + rest.0);
                }
                p = q;
            },
            None => {
                assert(segments_view(path@) + Seq::<Segment>::empty() =~= segments_view(path@));
                break ;
            },
        }
    }
    if path.len() > 0 && p == n {
        Ok(path)
    } else {
        Err(ParseInputError::unexpected(s))
    }
}

} // verus!

verus! {

/// A run that ends where the characters stop being of the class.
pub proof fn lemma_run_end_exact(s: Seq<char>, p: int, e: int, class: CharClass)
    requires
        0 <= p <= e <= s.len(),
        forall|k: int| p <= k < e ==> in_class(class, #[trigger] s[k]),
        e == s.len() || !in_class(class, s[e]),
    ensures
        run_end(s, p, class) == e,
    decreases e - p,
{
    if p < e {
        lemma_run_end_exact(s, p + 1, e, class);
    }
}

/// No segment starts at the end of the text.
pub proof fn lemma_nothing_at_end(s: Seq<char>)
    ensures
        segments_from(s, s.len() as int) == (Seq::<Segment>::empty(), s.len() as int),
{
    assert(run_end(s, s.len() as int, CharClass::Digit) == s.len());
    assert(run_end(s, s.len() as int, CharClass::PlainKey) == s.len());
}

/// A run of digits, alone, is one array index segment: bare numeric segments are
/// array indexes.
pub proof fn lemma_digits_path(d: Seq<char>)
    requires
        d.len() > 0,
        forall|k: int| 0 <= k < d.len() ==> ('0' <= #[trigger] d[k] && d[k] <= '9'),
    ensures
        parse_path(d) == Some(seq![Segment::Index(index_value(d))]),
{
    lemma_run_end_exact(d, 0, d.len() as int, CharClass::Digit);
    assert(d.subrange(0, d.len() as int) =~= d);
    lemma_nothing_at_end(d);
    assert(seq![Segment::Index(index_value(d))] + Seq::<Segment>::empty() =~= seq![
        Segment::Index(index_value(d)),
    ]);
}

/// `[digits]`, alone, is one array index segment.
pub proof fn lemma_bracket_digits_path(d: Seq<char>)
    requires
        d.len() > 0,
        forall|k: int| 0 <= k < d.len() ==> ('0' <= #[trigger] d[k] && d[k] <= '9'),
    ensures
        parse_path(seq!['['] + d + seq![']']) == Some(seq![Segment::Index(index_value(d))]),
{
    let s = seq!['['] + d + seq![']'];
    let n = d.len() as int;
    assert forall|k: int| 1 <= k < n + 1 implies in_class(CharClass::Digit, #[trigger] s[k]) by {
        assert(s[k] == d[k - 1]);
    }
    lemma_run_end_exact(s, 1, n + 1, CharClass::Digit);
    assert(s.subrange(1, n + 1) =~= d);
    lemma_nothing_at_end(s);
    assert(seq![Segment::Index(index_value(d))] + Seq::<Segment>::empty() =~= seq![
        Segment::Index(index_value(d)),
    ]);
}

/// A plain key, alone, is one object key segment: any text that does not start
/// with a digit and holds none of `.`, `[`, `:`, `=` (hyphens, spaces, `]` and
/// any other character included).
pub proof fn lemma_plain_key_path(k: Seq<char>)
    requires
        k.len() > 0,
        !('0' <= k[0] && k[0] <= '9'),
        forall|i: int| 0 <= i < k.len() ==> (#[trigger] k[i] != '.' && k[i] != '[' && k[i] != ':' && k[i] != '='),
    ensures
        parse_path(k) == Some(seq![Segment::Key(k)]),
{
    lemma_run_end_exact(k, 0, 0, CharClass::Digit);
    lemma_run_end_exact(k, 0, k.len() as int, CharClass::PlainKey);
    assert(k.subrange(0, k.len() as int) =~= k);
    lemma_nothing_at_end(k);
    assert(seq![Segment::Key(k)] + Seq::<Segment>::empty() =~= seq![Segment::Key(k)]);
}

/// `[key]`, alone, is one object key segment, where the key is not empty, holds no
/// `]`, and is not all digits: bracket keys may hold `.`, `[`, `:` and `=`.
pub proof fn lemma_bracket_key_path(k: Seq<char>, m: int)
    requires
        k.len() > 0,
        forall|i: int| 0 <= i < k.len() ==> #[trigger] k[i] != ']',
        0 <= m < k.len(),
        !('0' <= k[m] && k[m] <= '9'),
        forall|i: int| 0 <= i < m ==> ('0' <= #[trigger] k[i] && k[i] <= '9'),
    ensures
        parse_path(seq!['['] + k + seq![']']) == Some(seq![Segment::Key(k)]),
{
    let s = seq!['['] + k + seq![']'];
    let n = k.len() as int;
    assert forall|i: int| 1 <= i < m + 1 implies in_class(CharClass::Digit, #[trigger] s[i]) by {
        assert(s[i] == k[i - 1]);
    }
    assert(s[m + 1] == k[m]);
    lemma_run_end_exact(s, 1, m + 1, CharClass::Digit);
    lemma_run_end_exact(s, 0, 0, CharClass::Digit);
    assert forall|i: int| 1 <= i < n + 1 implies in_class(
        CharClass::NotCloseBracket,
        #[trigger] s[i],
    ) by {
        assert(s[i] == k[i - 1]);
    }
    lemma_run_end_exact(s, 1, n + 1, CharClass::NotCloseBracket);
    assert(s.subrange(1, n + 1) =~= k);
    lemma_nothing_at_end(s);
    assert(seq![Segment::Key(k)] + Seq::<Segment>::empty() =~= seq![Segment::Key(k)]);
}

/// `[]`, alone, is one append segment.
pub proof fn lemma_end_path()
    ensures
        parse_path(seq!['[', ']']) == Some(seq![Segment::End]),
{
    let s = seq!['[', ']'];
    lemma_run_end_exact(s, 0, 0, CharClass::Digit);
    lemma_run_end_exact(s, 1, 1, CharClass::Digit);
    lemma_run_end_exact(s, 1, 1, CharClass::NotCloseBracket);
    lemma_run_end_exact(s, 0, 0, CharClass::PlainKey);
    lemma_nothing_at_end(s);
    assert(seq![Segment::End] + Seq::<Segment>::empty() =~= seq![Segment::End]);
}

/// `key.digits` is an object key followed by an array index: dotted numeric
/// segments are array indexes, as in `items.0`.
pub proof fn lemma_key_dotted_index_path(k: Seq<char>, d: Seq<char>)
    requires
        k.len() > 0,
        !('0' <= k[0] && k[0] <= '9'),
        forall|i: int| 0 <= i < k.len() ==> (#[trigger] k[i] != '.' && k[i] != '[' && k[i] != ':' && k[i] != '='),
        d.len() > 0,
        forall|i: int| 0 <= i < d.len() ==> ('0' <= #[trigger] d[i] && d[i] <= '9'),
    ensures
        parse_path(k + seq!['.'] + d) == Some(
            seq![Segment::Key(k), Segment::Index(index_value(d))],
        ),
{
    let s = k + seq!['.'] + d;
    let n = k.len() as int;
    let len = s.len() as int;
    assert forall|i: int| 0 <= i < n implies in_class(CharClass::PlainKey, #[trigger] s[i]) by {
        assert(s[i] == k[i]);
    }
    assert(s[0] == k[0]);
    assert(s[n] == '.');
    lemma_run_end_exact(s, 0, 0, CharClass::Digit);
    lemma_run_end_exact(s, 0, n, CharClass::PlainKey);
    assert(s.subrange(0, n) =~= k);
    assert forall|i: int| n + 1 <= i < len implies in_class(CharClass::Digit, #[trigger] s[i]) by {
        assert(s[i] == d[i - n - 1]);
    }
    lemma_run_end_exact(s, n + 1, len, CharClass::Digit);
    assert(s.subrange(n + 1, len) =~= d);
    lemma_nothing_at_end(s);
    assert(segments_from(s, n) == (seq![Segment::Index(index_value(d))] + Seq::<Segment>::empty(), len));
    assert(seq![Segment::Key(k)] + (seq![Segment::Index(index_value(d))] + Seq::<Segment>::empty())
        =~= seq![Segment::Key(k), Segment::Index(index_value(d))]);
}

} // verus!
