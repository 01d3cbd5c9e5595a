//! One input part: a header (`Name:value`), a query parameter (`name==value`) or a
//! body assignment (`path:=json`, `path=value`).
//!
//! The forms are tried in this order, each at the first occurrence of its
//! separator: `:=`, `==`, `:`, `=`. The first form whose separator occurs decides:
//! where its left side is not valid, the part is refused rather than read as a
//! later form.
use vstd::prelude::*;
use crate::body::BodyComponent;
use crate::error::{ParseInputError, invalid_json_message, unexpected_message};
use crate::json::{JsonValue, JsonView, json_sorted};
use crate::json_text::{decode_json, json_decode};
use crate::path::{
    PathSegment, Segment, lemma_plain_key_path, parse_access_path, parse_path, segments_view,
};
use crate::text::{chars_of, find_from, lemma_find_from, occurs_at, split_once, split_once_exec};

verus! {

/// A parsed HTTP header assignment like `Accept:application/json`.
#[derive(Debug, Clone, PartialEq, Eq)]
pub struct ParsedHeader {
    /// The header name.
    pub name: String,
    /// The header value.
    pub value: String,
}

/// A parsed query parameter assignment like `page==2`.
#[derive(Debug, Clone, PartialEq, Eq)]
pub struct ParsedQueryParam {
    /// The query parameter name.
    pub name: String,
    /// The query parameter value.
    pub value: String,
}

impl View for ParsedHeader {
    type V = (Seq<char>, Seq<char>);

    open spec fn view(&self) -> (Seq<char>, Seq<char>) {
        (self.name@, self.value@)
    }
}

impl View for ParsedQueryParam {
    type V = (Seq<char>, Seq<char>);

    open spec fn view(&self) -> (Seq<char>, Seq<char>) {
        (self.name@, self.value@)
    }
}

impl View for BodyComponent {
    type V = (Seq<Segment>, JsonView);

    open spec fn view(&self) -> (Seq<Segment>, JsonView) {
        (segments_view(self.path@), self.value@)
    }
}

/// One parsed input part.
#[derive(Debug, PartialEq)]
pub enum ParsedPart {
    Header(ParsedHeader),
    Query(ParsedQueryParam),
    Body(BodyComponent),
}

/// The mathematical value of a [`ParsedPart`].
pub enum PartView {
    Header(Seq<char>, Seq<char>),
    Query(Seq<char>, Seq<char>),
    Body(Seq<Segment>, JsonView),
}

impl View for ParsedPart {
    type V = PartView;

    open spec fn view(&self) -> PartView {
        match self {
            ParsedPart::Header(h) => PartView::Header(h.name@, h.value@),
            ParsedPart::Query(q) => PartView::Query(q.name@, q.value@),
            ParsedPart::Body(c) => PartView::Body(segments_view(c.path@), c.value@),
        }
    }
}

/// A character that a header name may hold: an ASCII letter or digit, `-` or `_`.
pub open spec fn header_name_char(c: char) -> bool {
    ('a' <= c && c <= 'z') || ('A' <= c && c <= 'Z') || ('0' <= c && c <= '9') || c == '-' || c
        == '_'
}

/// A header name: one or more header name characters.
pub open spec fn valid_header_name(name: Seq<char>) -> bool {
    name.len() > 0 && forall|i: int| 0 <= i < name.len() ==> header_name_char(#[trigger] name[i])
}

/// A query parameter name: one or more characters, none of them `=`.
pub open spec fn valid_query_name(name: Seq<char>) -> bool {
    name.len() > 0 && forall|i: int| 0 <= i < name.len() ==> #[trigger] name[i] != '='
}

/// What a part is read as, or the message of the error it is refused with.
pub open spec fn part_outcome(part: Seq<char>) -> Result<PartView, Seq<char>> {
    match split_once(part, seq![':', '=']) {
        Some((lhs, rhs)) => match parse_path(lhs) {
            Some(path) => match json_decode(rhs) {
                Ok(v) => Ok(PartView::Body(path, v)),
                Err(m) => Err(invalid_json_message(part, m)),
            },
            None => Err(unexpected_message(part)),
        },
        None => match split_once(part, seq!['=', '=']) {
            Some((name, value)) => if valid_query_name(name) {
                Ok(PartView::Query(name, value))
            } else {
                Err(unexpected_message(part))
            },
            None => match split_once(part, seq![':']) {
                Some((name, value)) => if valid_header_name(name) {
                    Ok(PartView::Header(name, value))
                } else {
                    Err(unexpected_message(part))
                },
                None => match split_once(part, seq!['=']) {
                    Some((lhs, rhs)) => match parse_path(lhs) {
                        Some(path) => Ok(PartView::Body(path, JsonView::Str(rhs))),
                        None => Err(unexpected_message(part)),
                    },
                    None => Err(unexpected_message(part)),
                },
            },
        },
    }
}

/// Whether `c` may appear in a header name.
pub fn is_header_name_char(c: char) -> (r: bool)
    ensures
        r == header_name_char(c),
        r == (('a' <= c && c <= 'z') || ('A' <= c && c <= 'Z') || ('0' <= c && c <= '9') || c
            == '-' || c == '_'),
{
    ('a' <= c && c <= 'z') || ('A' <= c && c <= 'Z') || ('0' <= c && c <= '9') || c == '-' || c
        == '_'
}

/// Whether `c` may appear in a query parameter name.
pub fn is_query_name_char(c: char) -> (r: bool)
    ensures
        r == (c != '='),
{
    c != '='
}

/// Whether `name` is a valid header name.
pub fn is_valid_header_name(name: &str) -> (r: bool)
    ensures
        r == valid_header_name(name@),
        r == (name@.len() > 0 && forall|i: int|
            0 <= i < name@.len() ==> {
                let c = #[trigger] name@[i];
                ('a' <= c && c <= 'z') || ('A' <= c && c <= 'Z') || ('0' <= c && c <= '9') || c
                    == '-' || c == '_'
            }),
{
    let cs = chars_of(name);
    let mut i: usize = 0;
    while i < cs.len()
        invariant
            cs@ == name@,
            i <= cs@.len(),
            forall|j: int| 0 <= j < i ==> header_name_char(#[trigger] cs@[j]),
        decreases cs@.len() - i,
    {
        if !is_header_name_char(cs[i]) {
            return false;
        }
        i = i + 1;
    }
    cs.len() > 0
}

/// Whether `name` is a valid query parameter name.
pub fn is_valid_query_name(name: &str) -> (r: bool)
    ensures
        r == valid_query_name(name@),
        r == (name@.len() > 0 && forall|i: int| 0 <= i < name@.len() ==> #[trigger] name@[i]
            != '='),
{
    let cs = chars_of(name);
    let mut i: usize = 0;
    while i < cs.len()
        invariant
            cs@ == name@,
            i <= cs@.len(),
            forall|j: int| 0 <= j < i ==> #[trigger] cs@[j] != '=',
        decreases cs@.len() - i,
    {
        if !is_query_name_char(cs[i]) {
            return false;
        }
        i = i + 1;
    }
    cs.len() > 0
}

/// The body assignment that a `path:=json` part makes once `serde_json` has read
/// its JSON text: the value read, or the error for the message `serde_json` gave.
pub fn json_assignment_from(
    part: &str,
    path: Vec<PathSegment>,
    decoded: Result<JsonValue, String>,
) -> (r: Result<BodyComponent, ParseInputError>)
    ensures
        match decoded {
            Ok(v) => r matches Ok(c) && c.path == path && c.value == v,
            Err(m) => r matches Err(e) && e@ == invalid_json_message(part@, m@),
        },
{
    match decoded {
        Ok(value) => Ok(BodyComponent { path, value }),
        Err(message) => Err(ParseInputError::invalid_json(part, message.as_str())),
    }
}

/// Reads a `path:=json` part; `Ok(None)` where the part
/// holds no `:=`.
pub fn parse_json_assignment(part: &str, cs: &Vec<char>) -> (r: Result<
    Option<BodyComponent>,
    ParseInputError,
>)
    requires
        cs@ == part@,
    ensures
        match split_once(part@, seq![':', '=']) {
            None => r matches Ok(None),
            Some((lhs, rhs)) => match parse_path(lhs) {
                None => r matches Err(e) && e@ == unexpected_message(part@),
                Some(path) => match json_decode(rhs) {
                    Ok(v) => r matches Ok(Some(c)) && c@ == (path, v),
                    Err(m) => r matches Err(e) && e@ == invalid_json_message(part@, m),
                },
            },
        },
        r matches Ok(Some(c)) ==> json_sorted(c.value@),
{
    let sep = vec![':', '='];
    assert(sep@ =~= seq![':', '=']);
    match split_once_exec(part, cs, &sep) {
        None => Ok(None),
        Some((path_raw, value_raw)) => match parse_access_path(path_raw.as_str()) {
            Err(_) => Err(ParseInputError::unexpected(part)),
            Ok(path) => {
                let decoded = decode_json(value_raw.as_str());
                match json_assignment_from(part, path, decoded) {
                    Ok(component) => Ok(Some(component)),
                    Err(e) => Err(e),
                }
            },
        },
    }
}

/// Reads a `name==value` part; `Ok(None)` where the part
/// holds no `==`.
pub fn parse_query_param(part: &str, cs: &Vec<char>) -> (r: Result<
    Option<ParsedQueryParam>,
    ParseInputError,
>)
    requires
        cs@ == part@,
    ensures
        match split_once(part@, seq!['=', '=']) {
            None => r matches Ok(None),
            Some((name, value)) => if valid_query_name(name) {
                r matches Ok(Some(q)) && q@ == (name, value)
            } else {
                r matches Err(e) && e@ == unexpected_message(part@)
            },
        },
{
    let sep = vec!['=', '='];
    assert(sep@ =~= seq!['=', '=']);
    match split_once_exec(part, cs, &sep) {
        None => Ok(None),
        Some((name, value)) => {
            if !is_valid_query_name(name.as_str()) {
                return Err(ParseInputError::unexpected(part));
            }
            Ok(Some(ParsedQueryParam { name, value }))
        },
    }
}

/// Reads a `Name:value` part; `Ok(None)` where the part holds no `:`.
pub fn parse_header(part: &str, cs: &Vec<char>) -> (r: Result<Option<ParsedHeader>, ParseInputError>)
    requires
        cs@ == part@,
    ensures
        match split_once(part@, seq![':']) {
            None => r matches Ok(None),
            Some((name, value)) => if valid_header_name(name) {
                r matches Ok(Some(h)) && h@ == (name, value)
            } else {
                r matches Err(e) && e@ == unexpected_message(part@)
            },
        },
{
    let sep = vec![':'];
    assert(sep@ =~= seq![':']);
    match split_once_exec(part, cs, &sep) {
        None => Ok(None),
        Some((name, value)) => {
            if !is_valid_header_name(name.as_str()) {
                return Err(ParseInputError::unexpected(part));
            }
            Ok(Some(ParsedHeader { name, value }))
        },
    }
}

/// Reads a `path=value` part: the value is kept as a
/// JSON string. `Ok(None)` where the part holds no `=`.
pub fn parse_string_assignment(part: &str, cs: &Vec<char>) -> (r: Result<
    Option<BodyComponent>,
    ParseInputError,
>)
    requires
        cs@ == part@,
    ensures
        match split_once(part@, seq!['=']) {
            None => r matches Ok(None),
            Some((lhs, rhs)) => match parse_path(lhs) {
                None => r matches Err(e) && e@ == unexpected_message(part@),
                Some(path) => r matches Ok(Some(c)) && c@ == (path, JsonView::Str(rhs)),
            },
        },
{
    let sep = vec!['='];
    assert(sep@ =~= seq!['=']);
    match split_once_exec(part, cs, &sep) {
        None => Ok(None),
        Some((path_raw, value_raw)) => match parse_access_path(path_raw.as_str()) {
            Err(_) => Err(ParseInputError::unexpected(part)),
            Ok(path) => Ok(Some(BodyComponent { path, value: JsonValue::String(value_raw) })),
        },
    }
}

/// Reads one input part, trying the forms in their order of precedence.
pub fn parse_part(part: &str) -> (r: Result<ParsedPart, ParseInputError>)
    ensures
        match part_outcome(part@) {
            Ok(p) => r matches Ok(x) && x@ == p,
            Err(m) => r matches Err(e) && e@ == m,
        },
        r matches Ok(ParsedPart::Body(c)) ==> json_sorted(c.value@),
{
    let cs = chars_of(part);
    match parse_json_assignment(part, &cs) {
        Err(e) => return Err(e),
        Ok(Some(component)) => return Ok(ParsedPart::Body(component)),
        Ok(None) => {},
    }
    match parse_query_param(part, &cs) {
        Err(e) => return Err(e),
        Ok(Some(query)) => return Ok(ParsedPart::Query(query)),
        Ok(None) => {},
    }
    match parse_header(part, &cs) {
        Err(e) => return Err(e),
        Ok(Some(header)) => return Ok(ParsedPart::Header(header)),
        Ok(None) => {},
    }
    match parse_string_assignment(part, &cs) {
        Err(e) => return Err(e),
        Ok(Some(component)) => return Ok(ParsedPart::Body(component)),
        Ok(None) => {},
    }
    Err(ParseInputError::unexpected(part))
}

} // verus!

verus! {

/// The form of a part is decided by the first of `:=`, `==`, `:` and `=` that
/// occurs in it, in that order: a part holding `:=` is a body assignment or an
/// error, never a query parameter or header; one holding `==` (and no `:=`) is a
/// query parameter or an error; and so on. A part holding none of them is refused.
pub proof fn lemma_form_precedence(part: Seq<char>)
    ensures
        split_once(part, seq![':', '=']) is Some ==> (part_outcome(part) is Err || part_outcome(
            part,
        ) matches Ok(PartView::Body(_, _))),
        split_once(part, seq![':', '=']) is None && split_once(part, seq!['=', '=']) is Some ==> (
        part_outcome(part) is Err || part_outcome(part) matches Ok(PartView::Query(_, _))),
        split_once(part, seq![':', '=']) is None && split_once(part, seq!['=', '=']) is None
            && split_once(part, seq![':']) is Some ==> (part_outcome(part) is Err || part_outcome(
            part,
        ) matches Ok(PartView::Header(_, _))),
        split_once(part, seq![':', '=']) is None && split_once(part, seq!['=', '=']) is None
            && split_once(part, seq![':']) is None && split_once(part, seq!['=']) is Some ==> (
        part_outcome(part) is Err || part_outcome(part) matches Ok(
            PartView::Body(_, JsonView::Str(_)),
        )),
        split_once(part, seq![':', '=']) is None && split_once(part, seq!['=', '=']) is None
            && split_once(part, seq![':']) is None && split_once(part, seq!['=']) is None
            ==> part_outcome(part) == Err::<PartView, Seq<char>>(unexpected_message(part)),
{
}

/// `Name:value` is a header with that name and value, where the name is one or more
/// ASCII letters, digits, `-` and `_`, of any length, and the part holds no `:=` or
/// `==`: the value is everything after the first `:`, further `:` and spaces included.
pub proof fn lemma_header_part(name: Seq<char>, value: Seq<char>)
    requires
        name.len() > 0,
        forall|i: int|
            0 <= i < name.len() ==> {
                let c = #[trigger] name[i];
                ('a' <= c && c <= 'z') || ('A' <= c && c <= 'Z') || ('0' <= c && c <= '9') || c
                    == '-' || c == '_'
            },
        split_once(name + seq![':'] + value, seq![':', '=']) is None,
        split_once(name + seq![':'] + value, seq!['=', '=']) is None,
    ensures
        part_outcome(name + seq![':'] + value) == Ok::<PartView, Seq<char>>(
            PartView::Header(name, value),
        ),
{
    assert(valid_header_name(name));
    let part = name + seq![':'] + value;
    let pat = seq![':'];
    let n = name.len() as int;
    assert(part.subrange(n, n + 1) =~= pat);
    assert forall|k: int| 0 <= k < n implies !occurs_at(part, pat, k) by {
        assert(part[k] == name[k]);
        assert(header_name_char(name[k]));
        if occurs_at(part, pat, k) {
            assert(part.subrange(k, k + 1)[0] == part[k]);
        }
    }
    assert(occurs_at(part, pat, n));
    lemma_find_from(part, pat, 0);
    match find_from(part, pat, 0) {
        Some(j) => {
            if j < n {
                assert(!occurs_at(part, pat, j));
            } else if j > n {
                assert(!occurs_at(part, pat, n));
            }
        },
        None => {
            assert(!occurs_at(part, pat, n));
        },
    }
    assert(find_from(part, pat, 0) == Some(n));
    assert(part.take(n) =~= name);
    assert(part.skip(n + 1) =~= value);
}

/// `name==value` is a query parameter with that name and value, where the name is
/// not empty and holds no `=` (brackets, spaces and `:` are all allowed) and the
/// part holds no `:=`: the value may be empty and may hold anything.
pub proof fn lemma_query_part(name: Seq<char>, value: Seq<char>)
    requires
        name.len() > 0,
        forall|i: int| 0 <= i < name.len() ==> #[trigger] name[i] != '=',
        split_once(name + seq!['=', '='] + value, seq![':', '=']) is None,
    ensures
        part_outcome(name + seq!['=', '='] + value) == Ok::<PartView, Seq<char>>(
            PartView::Query(name, value),
        ),
{
    assert(valid_query_name(name));
    let part = name + seq!['=', '='] + value;
    let pat = seq!['=', '='];
    let n = name.len() as int;
    assert(part.subrange(n, n + 2) =~= pat);
    assert forall|k: int| 0 <= k < n implies !occurs_at(part, pat, k) by {
        assert(part[k] == name[k]);
        if occurs_at(part, pat, k) {
            assert(part.subrange(k, k + 2)[0] == part[k]);
        }
    }
    assert(occurs_at(part, pat, n));
    lemma_find_from(part, pat, 0);
    match find_from(part, pat, 0) {
        Some(j) => {
            if j < n {
                assert(!occurs_at(part, pat, j));
            } else if j > n {
                assert(!occurs_at(part, pat, n));
            }
        },
        None => {
            assert(!occurs_at(part, pat, n));
        },
    }
    assert(find_from(part, pat, 0) == Some(n));
    assert(part.take(n) =~= name);
    assert(part.skip(n + 2) =~= value);
}

/// `path=value` keeps the value as a JSON string, whatever it looks like
/// (`count=2` sets the string `"2"`), where the part holds no `:` and no `==`
/// and the path, which holds no `=`, is valid.
pub proof fn lemma_string_part(lhs: Seq<char>, rhs: Seq<char>)
    requires
        parse_path(lhs) is Some,
        forall|i: int| 0 <= i < lhs.len() ==> #[trigger] lhs[i] != '=',
        forall|i: int| 0 <= i < lhs.len() + 1 + rhs.len() ==> #[trigger] (lhs + seq!['='] + rhs)[i]
            != ':',
        split_once(lhs + seq!['='] + rhs, seq!['=', '=']) is None,
    ensures
        part_outcome(lhs + seq!['='] + rhs) == Ok::<PartView, Seq<char>>(
            PartView::Body(parse_path(lhs)->Some_0, JsonView::Str(rhs)),
        ),
{
    let part = lhs + seq!['='] + rhs;
    let n = lhs.len() as int;
    let json_sep = seq![':', '='];
    let header_sep = seq![':'];
    let pat = seq!['='];
    lemma_find_from(part, json_sep, 0);
    lemma_find_from(part, header_sep, 0);
    if let Some(j) = find_from(part, json_sep, 0) {
        assert(part.subrange(j, j + 2)[0] == part[j]);
    }
    if let Some(j) = find_from(part, header_sep, 0) {
        assert(part.subrange(j, j + 1)[0] == part[j]);
    }
    assert(part.subrange(n, n + 1) =~= pat);
    assert forall|k: int| 0 <= k < n implies !occurs_at(part, pat, k) by {
        assert(part[k] == lhs[k]);
        if occurs_at(part, pat, k) {
            assert(part.subrange(k, k + 1)[0] == part[k]);
        }
    }
    assert(occurs_at(part, pat, n));
    lemma_find_from(part, pat, 0);
    match find_from(part, pat, 0) {
        Some(j) => {
            if j < n {
                assert(!occurs_at(part, pat, j));
            } else if j > n {
                assert(!occurs_at(part, pat, n));
            }
        },
        None => {
            assert(!occurs_at(part, pat, n));
        },
    }
    assert(find_from(part, pat, 0) == Some(n));
    assert(part.take(n) =~= lhs);
    assert(part.skip(n + 1) =~= rhs);
}

/// `path:=json` sets the value that `serde_json` reads from the JSON text, or fails
/// with its message, where the path is valid and holds no `:`: the JSON text may
/// hold anything, `:=` and `==` included.
pub proof fn lemma_json_part(lhs: Seq<char>, rhs: Seq<char>)
    requires
        parse_path(lhs) is Some,
        forall|i: int| 0 <= i < lhs.len() ==> #[trigger] lhs[i] != ':',
    ensures
        part_outcome(lhs + seq![':', '='] + rhs) == match json_decode(rhs) {
            Ok(v) => Ok::<PartView, Seq<char>>(PartView::Body(parse_path(lhs)->Some_0, v)),
            Err(m) => Err(invalid_json_message(lhs + seq![':', '='] + rhs, m)),
        },
{
    let part = lhs + seq![':', '='] + rhs;
    let n = lhs.len() as int;
    let pat = seq![':', '='];
    assert(part.subrange(n, n + 2) =~= pat);
    assert forall|k: int| 0 <= k < n implies !occurs_at(part, pat, k) by {
        assert(part[k] == lhs[k]);
        if occurs_at(part, pat, k) {
            assert(part.subrange(k, k + 2)[0] == part[k]);
        }
    }
    assert(occurs_at(part, pat, n));
    lemma_find_from(part, pat, 0);
    match find_from(part, pat, 0) {
        Some(j) => {
            if j < n {
                assert(!occurs_at(part, pat, j));
            } else if j > n {
                assert(!occurs_at(part, pat, n));
            }
        },
        None => {
            assert(!occurs_at(part, pat, n));
        },
    }
    assert(find_from(part, pat, 0) == Some(n));
    assert(part.take(n) =~= lhs);
    assert(part.skip(n + 2) =~= rhs);
}

/// `key=value` sets the string `value` under the one object key `key`, where the key
/// does not start with a digit and holds none of `.`, `[`, `:` and `=` (hyphens,
/// spaces and any other character are part of the key), and the value holds no `:`
/// and no `=`.
pub proof fn lemma_plain_key_string_part(k: Seq<char>, rhs: Seq<char>)
    requires
        k.len() > 0,
        !('0' <= k[0] && k[0] <= '9'),
        forall|i: int|
            0 <= i < k.len() ==> (#[trigger] k[i] != '.' && k[i] != '[' && k[i] != ':' && k[i]
                != '='),
        forall|i: int| 0 <= i < rhs.len() ==> (#[trigger] rhs[i] != ':' && rhs[i] != '='),
    ensures
        part_outcome(k + seq!['='] + rhs) == Ok::<PartView, Seq<char>>(
            PartView::Body(seq![Segment::Key(k)], JsonView::Str(rhs)),
        ),
{
    let part = k + seq!['='] + rhs;
    let n = k.len() as int;
    lemma_plain_key_path(k);
    assert forall|i: int| 0 <= i < part.len() implies #[trigger] part[i] != ':' && (part[i] == '='
        ==> i == n) by {
        if i < n {
            assert(part[i] == k[i]);
        } else if i > n {
            assert(part[i] == rhs[i - n - 1]);
        }
    }
    let pat = seq!['=', '='];
    lemma_find_from(part, pat, 0);
    if let Some(j) = find_from(part, pat, 0) {
        assert(part.subrange(j, j + 2)[0] == part[j]);
        assert(part.subrange(j, j + 2)[1] == part[j + 1]);
    }
    lemma_string_part(k, rhs);
}

} // verus!
