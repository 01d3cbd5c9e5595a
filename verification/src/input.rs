//! A whole command line: the parts read one after another into headers, query
//! parameters and a JSON body.
use vstd::prelude::*;
use crate::body::{
    apply_component, body_or_null, body_view, get_path, lemma_get_after_set,
    lemma_set_keeps_sorted, set_hits_limit, set_path,
};
use crate::error::{ParseInputError, mismatch_message};
use crate::json::{JsonValue, JsonView, json_sorted};
use crate::part::{ParsedHeader, ParsedPart, ParsedQueryParam, PartView, parse_part, part_outcome};
use crate::path::{Segment, segments_view};

verus! {

/// The parsed representation of a list of HTTP CLI input parts.
#[derive(Debug, Clone, PartialEq)]
pub struct ParsedInput {
    /// Parsed request headers, in input order.
    pub headers: Vec<ParsedHeader>,
    /// Parsed query parameters, in input order.
    pub query_params: Vec<ParsedQueryParam>,
    /// Parsed JSON body, if any body assignments were present.
    pub body: Option<JsonValue>,
}

/// The mathematical value of a [`ParsedInput`]: names and values as characters.
pub struct InputView {
    pub headers: Seq<(Seq<char>, Seq<char>)>,
    pub query_params: Seq<(Seq<char>, Seq<char>)>,
    pub body: Option<JsonView>,
}

pub open spec fn headers_view(headers: Seq<ParsedHeader>) -> Seq<(Seq<char>, Seq<char>)> {
    Seq::new(headers.len(), |i: int| headers[i]@)
}

pub open spec fn queries_view(queries: Seq<ParsedQueryParam>) -> Seq<(Seq<char>, Seq<char>)> {
    Seq::new(queries.len(), |i: int| queries[i]@)
}

impl View for ParsedInput {
    type V = InputView;

    open spec fn view(&self) -> InputView {
        InputView {
            headers: headers_view(self.headers@),
            query_params: queries_view(self.query_params@),
            body: body_view(self.body),
        }
    }
}

/// Nothing parsed yet.
pub open spec fn empty_input() -> InputView {
    InputView { headers: seq![], query_params: seq![], body: None }
}

impl Default for ParsedInput {
    /// No headers, no query parameters and no body.
    fn default() -> (r: Self)
        ensures
            r@ == empty_input(),
    {
        let r = ParsedInput { headers: Vec::new(), query_params: Vec::new(), body: None };
        assert(headers_view(r.headers@) =~= seq![]);
        assert(queries_view(r.query_params@) =~= seq![]);
        r
    }
}

/// The state after one more part, or the message of the error that part stops parsing with.
pub open spec fn apply_part(st: InputView, part: Seq<char>) -> Result<InputView, Seq<char>> {
    match part_outcome(part) {
        Err(m) => Err(m),
        Ok(PartView::Header(name, value)) => Ok(
            InputView {
                headers: st.headers.push((name, value)),
                query_params: st.query_params,
                body: st.body,
            },
        ),
        Ok(PartView::Query(name, value)) => Ok(
            InputView {
                headers: st.headers,
                query_params: st.query_params.push((name, value)),
                body: st.body,
            },
        ),
        Ok(PartView::Body(path, v)) => match set_path(body_or_null(st.body), path, v) {
            Ok(b) => Ok(InputView { headers: st.headers, query_params: st.query_params, body: Some(b) }),
            Err((kind, t)) => Err(mismatch_message(kind, t)),
        },
    }
}

/// What the parts read one after another give: the parsed input, or the message
/// of the first error.
pub open spec fn parse_parts(parts: Seq<Seq<char>>) -> Result<InputView, Seq<char>>
    decreases parts.len(),
{
    if parts.len() == 0 {
        Ok(empty_input())
    } else {
        match parse_parts(parts.drop_last()) {
            Ok(st) => apply_part(st, parts.last()),
            Err(m) => Err(m),
        }
    }
}

/// The characters of each part.
pub open spec fn parts_view(parts: Seq<&str>) -> Seq<Seq<char>> {
    Seq::new(parts.len(), |i: int| parts[i]@)
}

/// Reading the parts one after another reaches a step that sets an index of
/// `usize::MAX` in an array (see `set_hits_limit`), before any part fails.
pub open spec fn parts_hit_limit(parts: Seq<Seq<char>>) -> bool
    decreases parts.len(),
{
    if parts.len() == 0 {
        false
    } else {
        parts_hit_limit(parts.drop_last()) || match parse_parts(parts.drop_last()) {
            Ok(st) => match part_outcome(parts.last()) {
                Ok(PartView::Body(path, v)) => set_hits_limit(body_or_null(st.body), path, v),
                _ => false,
            },
            Err(_) => false,
        }
    }
}

/// A parse result, as mathematical values.
pub open spec fn input_result_view(r: Result<ParsedInput, ParseInputError>) -> Result<
    InputView,
    Seq<char>,
> {
    match r {
        Ok(p) => Ok(p@),
        Err(e) => Err(e@),
    }
}

/// Parsing stops at the first part that fails: once the parts up to some point end
/// in an error, all the parts end in that same error, whatever follows.
pub proof fn lemma_first_error_stands(parts: Seq<Seq<char>>, n: int)
    requires
        0 <= n <= parts.len(),
        parse_parts(parts.take(n)) is Err,
    ensures
        parse_parts(parts) == parse_parts(parts.take(n)),
    decreases parts.len(),
{
    if n == parts.len() {
        assert(parts.take(n) =~= parts);
    } else {
        assert(parts.drop_last().take(n) =~= parts.take(n));
        lemma_first_error_stands(parts.drop_last(), n);
    }
}

/// Once the parts up to some point end in an error, no later part is read, so the
/// index limit is reached exactly where it is reached in those parts.
pub proof fn lemma_limit_after_error(parts: Seq<Seq<char>>, n: int)
    requires
        0 <= n <= parts.len(),
        parse_parts(parts.take(n)) is Err,
    ensures
        parts_hit_limit(parts) == parts_hit_limit(parts.take(n)),
    decreases parts.len(),
{
    if n == parts.len() {
        assert(parts.take(n) =~= parts);
    } else {
        assert(parts.drop_last().take(n) =~= parts.take(n));
        lemma_limit_after_error(parts.drop_last(), n);
        lemma_first_error_stands(parts.drop_last(), n);
    }
}

/// Once the parts up to some point reach the index limit, all the parts do.
pub proof fn lemma_limit_stays(parts: Seq<Seq<char>>, n: int)
    requires
        0 <= n <= parts.len(),
        parts_hit_limit(parts.take(n)),
    ensures
        parts_hit_limit(parts),
    decreases parts.len(),
{
    if n == parts.len() {
        assert(parts.take(n) =~= parts);
    } else {
        assert(parts.drop_last().take(n) =~= parts.take(n));
        lemma_limit_stays(parts.drop_last(), n);
    }
}

/// Reads the parts one after another: `None` where a step that sets the index
/// `usize::MAX` in an array is reached.
fn run_parts(parts: &[&str]) -> (r: Option<Result<ParsedInput, ParseInputError>>)
    ensures
        r is None <==> parts_hit_limit(parts_view(parts@)),
        r matches Some(x) ==> input_result_view(x) == parse_parts(parts_view(parts@)),
        r matches Some(Ok(p)) ==> (p.body matches Some(b) ==> json_sorted(b@)),
{
    let ghost pv = parts_view(parts@);
    let mut headers: Vec<ParsedHeader> = Vec::new();
    let mut query_params: Vec<ParsedQueryParam> = Vec::new();
    let mut body: Option<JsonValue> = None;
    assert(pv.take(0) =~= Seq::<Seq<char>>::empty());
    assert(headers_view(headers@) =~= seq![]);
    assert(queries_view(query_params@) =~= seq![]);
    let mut i: usize = 0;
    while i < parts.len()
        invariant
            i <= parts@.len(),
            pv == parts_view(parts@),
            !parts_hit_limit(pv.take(i as int)),
            parse_parts(pv.take(i as int)) == Ok::<InputView, Seq<char>>(
                InputView {
                    headers: headers_view(headers@),
                    query_params: queries_view(query_params@),
                    body: body_view(body),
                },
            ),
            body matches Some(b) ==> json_sorted(b@),
        decreases parts@.len() - i,
    {
        let part = parts[i];
        proof {
            assert(pv.take(i + 1).drop_last() =~= pv.take(i as int));
            assert(pv.take(i + 1).last() == part@);
        }
        match parse_part(part) {
            Err(e) => {
                proof {
                    lemma_first_error_stands(pv, i + 1);
                    lemma_limit_after_error(pv, i + 1);
                }
                return Some(Err(e));
            },
            Ok(ParsedPart::Header(h)) => {
                let ghost old_view = headers_view(headers@);
                let ghost hv = h@;
                headers.push(h);
                assert(headers_view(headers@) =~= old_view.push(hv));
            },
            Ok(ParsedPart::Query(q)) => {
                let ghost old_view = queries_view(query_params@);
                let ghost qv = q@;
                query_params.push(q);
                assert(queries_view(query_params@) =~= old_view.push(qv));
            },
            Ok(ParsedPart::Body(component)) => {
                proof {
                    lemma_set_keeps_sorted(
                        body_or_null(body_view(body)),
                        segments_view(component.path@),
                        component.value@,
                    );
                }
                match apply_component(&mut body, component) {
                    Ok(()) => {},
                    Err(Some(e)) => {
                        proof {
                            lemma_first_error_stands(pv, i + 1);
                            lemma_limit_after_error(pv, i + 1);
                        }
                        return Some(Err(e));
                    },
                    Err(None) => {
                        proof {
                            lemma_limit_stays(pv, i + 1);
                        }
                        return None;
                    },
                }
            },
        }
        i = i + 1;
    }
    assert(pv.take(i as int) =~= pv);
    Some(Ok(ParsedInput { headers, query_params, body }))
}

/// Parses HTTP CLI input parts into headers, query params, and a JSON body.
pub fn parse_input(parts: &[&str]) -> (r: Result<ParsedInput, ParseInputError>)
    requires
        !parts_hit_limit(parts_view(parts@)),
    ensures
        input_result_view(r) == parse_parts(parts_view(parts@)),
        r matches Ok(p) ==> (p.body matches Some(b) ==> json_sorted(b@)),
{
    run_parts(parts).unwrap()
}

/// Parses the parts as `parse_input` does, where reading them does not reach a step
/// that sets the index `usize::MAX` in an array (see `parts_hit_limit`); `None`
/// where it does, an input on which parsing cannot go on.
pub fn try_parse_input(parts: &[&str]) -> (r: Option<Result<ParsedInput, ParseInputError>>)
    ensures
        r is None <==> parts_hit_limit(parts_view(parts@)),
        r matches Some(x) ==> input_result_view(x) == parse_parts(parts_view(parts@)),
        r matches Some(Ok(p)) ==> (p.body matches Some(b) ==> json_sorted(b@)),
{
    run_parts(parts)
}

} // verus!

verus! {

/// The headers that the parts hold, in their order.
pub open spec fn header_parts(parts: Seq<Seq<char>>) -> Seq<(Seq<char>, Seq<char>)>
    decreases parts.len(),
{
    if parts.len() == 0 {
        seq![]
    } else {
        header_parts(parts.drop_last()) + match part_outcome(parts.last()) {
            Ok(PartView::Header(name, value)) => seq![(name, value)],
            _ => seq![],
        }
    }
}

/// The query parameters that the parts hold, in their order.
pub open spec fn query_parts(parts: Seq<Seq<char>>) -> Seq<(Seq<char>, Seq<char>)>
    decreases parts.len(),
{
    if parts.len() == 0 {
        seq![]
    } else {
        query_parts(parts.drop_last()) + match part_outcome(parts.last()) {
            Ok(PartView::Query(name, value)) => seq![(name, value)],
            _ => seq![],
        }
    }
}

/// Some part is a body assignment.
pub open spec fn has_body_part(parts: Seq<Seq<char>>) -> bool {
    exists|i: int| 0 <= i < parts.len() && #[trigger] part_outcome(parts[i]) matches Ok(
        PartView::Body(_, _),
    )
}

/// Where the parts parse, the headers are exactly the header parts and the query
/// parameters exactly the query parts, each in input order, repeats kept; and the
/// body is absent exactly where no part is a body assignment.
pub proof fn lemma_parts_in_order(parts: Seq<Seq<char>>)
    ensures
        parse_parts(parts) matches Ok(st) ==> {
            &&& st.headers == header_parts(parts)
            &&& st.query_params == query_parts(parts)
            &&& (st.body is None <==> !has_body_part(parts))
        },
    decreases parts.len(),
{
    if parts.len() > 0 {
        let init = parts.drop_last();
        lemma_parts_in_order(init);
        if let Ok(st) = parse_parts(parts) {
            let last = parts.last();
            assert(has_body_part(parts) <==> has_body_part(init) || part_outcome(last) matches Ok(
                PartView::Body(_, _),
            )) by {
                if has_body_part(parts) {
                    let i = choose|i: int|
                        0 <= i < parts.len() && #[trigger] part_outcome(parts[i]) matches Ok(
                            PartView::Body(_, _),
                        );
                    if i < init.len() {
                        assert(init[i] == parts[i]);
                    }
                }
                if has_body_part(init) {
                    let i = choose|i: int|
                        0 <= i < init.len() && #[trigger] part_outcome(init[i]) matches Ok(
                            PartView::Body(_, _),
                        );
                    assert(init[i] == parts[i]);
                }
                if part_outcome(last) matches Ok(PartView::Body(_, _)) {
                    assert(parts[parts.len() - 1] == last);
                }
            }
            match part_outcome(last) {
                Ok(PartView::Header(name, value)) => {},
                Ok(PartView::Query(name, value)) => {},
                _ => {
                    assert(header_parts(parts) =~= header_parts(init));
                    assert(query_parts(parts) =~= query_parts(init));
                },
            }
        }
    }
}

/// A body part read after the parts before it sets its value at its path in the body
/// those parts built (in null where there is none yet), and changes nothing else:
/// the headers and query parameters stay, and the parts parse exactly where that
/// setting succeeds. A null value is set like any other.
pub proof fn lemma_body_part_sets(parts: Seq<Seq<char>>, path: Seq<Segment>, v: JsonView)
    requires
        parts.len() > 0,
        parse_parts(parts.drop_last()) is Ok,
        part_outcome(parts.last()) == Ok::<PartView, Seq<char>>(PartView::Body(path, v)),
    ensures
        ({
            let st = parse_parts(parts.drop_last())->Ok_0;
            match set_path(body_or_null(st.body), path, v) {
                Ok(b) => parse_parts(parts) matches Ok(r) && r.headers == st.headers
                    && r.query_params == st.query_params && r.body == Some(b),
                Err((kind, t)) => parse_parts(parts) == Err::<InputView, Seq<char>>(
                    mismatch_message(kind, t),
                ),
            }
        }),
{
}

/// After a successful parse, the body holds the value of every body part that no
/// later body part follows, at its path, whatever that value is (null included):
/// header and query parts read after it leave the body as it is.
pub proof fn lemma_body_part_reads_back(parts: Seq<Seq<char>>, n: int, path: Seq<Segment>, v: JsonView)
    requires
        0 <= n < parts.len(),
        parse_parts(parts) is Ok,
        part_outcome(parts[n]) == Ok::<PartView, Seq<char>>(PartView::Body(path, v)),
        forall|j: int| n < j < parts.len() ==> !(#[trigger] part_outcome(parts[j]) matches Ok(
            PartView::Body(_, _),
        )),
    ensures
        parse_parts(parts)->Ok_0.body matches Some(b) && get_path(b, path) == Some(v),
    decreases parts.len(),
{
    let init = parts.drop_last();
    assert(parse_parts(init) is Ok);
    let st = parse_parts(init)->Ok_0;
    if n == parts.len() - 1 {
        assert(parts.last() == parts[n]);
        lemma_body_part_sets(parts, path, v);
        lemma_get_after_set(body_or_null(st.body), path, v);
    } else {
        assert(init[n] == parts[n]);
        assert forall|j: int| n < j < init.len() implies !(#[trigger] part_outcome(init[j]) matches Ok(
            PartView::Body(_, _),
        )) by {
            assert(init[j] == parts[j]);
        }
        lemma_body_part_reads_back(init, n, path, v);
        let last = parts.last();
        assert(part_outcome(parts[parts.len() - 1]) == part_outcome(last));
        assert(parse_parts(parts)->Ok_0.body == st.body);
    }
}

} // verus!
