//! Building the JSON body: setting the value at a path, creating the objects and
//! arrays on the way.
use vstd::prelude::*;
use crate::error::{MismatchKind, ParseInputError, mismatch_message};
use crate::json::{
    JsonValue, JsonView, items_view, key_before, lemma_array_view, lemma_key_before_irreflexive,
    lemma_member_scan, lemma_member_get_put_same, lemma_member_put_put, lemma_member_put_members,
    lemma_member_put_sorted, lemma_member_get_in, json_sorted, keys_sorted, lemma_member_get_put_other,
    lemma_object_view, member_get, member_put, member_slot, members_view, nulls, pad_to,
};
use crate::path::{PathSegment, Segment, segments_view};
use crate::text::chars_of;

verus! {

/// A body assignment: the path it sets, and the value it sets there.
#[derive(Debug, PartialEq)]
pub struct BodyComponent {
    pub path: Vec<PathSegment>,
    pub value: JsonValue,
}

/// `value` set at `path` inside `target`, or the kind of step and the value at
/// which the path met something that is not the container it needs.
///
/// A null on the way becomes the container the step needs. A key step reads the
/// member (null where absent) and puts the result back under that key; an index
/// step pads the array with nulls up to the index; an append step adds an element.
pub open spec fn set_path(target: JsonView, path: Seq<Segment>, value: JsonView) -> Result<
    JsonView,
    (MismatchKind, JsonView),
>
    decreases path.len(),
{
    if path.len() == 0 {
        Ok(value)
    } else {
        let rest = path.drop_first();
        match path[0] {
            Segment::Key(k) => {
                let t = if target is Null {
                    JsonView::Object(seq![])
                } else {
                    target
                };
                match t {
                    JsonView::Object(members) => {
                        let child = match member_get(members, k) {
                            Some(c) => c,
                            None => JsonView::Null,
                        };
                        match set_path(child, rest, value) {
                            Ok(c) => Ok(JsonView::Object(member_put(members, k, c))),
                            Err(e) => Err(e),
                        }
                    },
                    _ => Err((MismatchKind::Key, t)),
                }
            },
            Segment::Index(i) => {
                let t = if target is Null {
                    JsonView::Array(seq![])
                } else {
                    target
                };
                match t {
                    JsonView::Array(items) => {
                        let padded = pad_to(items, i as int);
                        match set_path(padded[i as int], rest, value) {
                            Ok(c) => Ok(JsonView::Array(padded.update(i as int, c))),
                            Err(e) => Err(e),
                        }
                    },
                    _ => Err((MismatchKind::Index, t)),
                }
            },
            Segment::End => {
                let t = if target is Null {
                    JsonView::Array(seq![])
                } else {
                    target
                };
                match t {
                    JsonView::Array(items) => match set_path(JsonView::Null, rest, value) {
                        Ok(c) => Ok(JsonView::Array(items.push(c))),
                        Err(e) => Err(e),
                    },
                    _ => Err((MismatchKind::End, t)),
                }
            },
        }
    }
}

/// The step that sets an index of `usize::MAX` in an array is reached: no array can
/// hold that index, as the index one past it does not fit in a `usize`. Steps
/// after a mismatch are never reached.
pub open spec fn set_hits_limit(target: JsonView, path: Seq<Segment>, value: JsonView) -> bool
    decreases path.len(),
{
    if path.len() == 0 {
        false
    } else {
        let rest = path.drop_first();
        match path[0] {
            Segment::Key(k) => {
                let t = if target is Null {
                    JsonView::Object(seq![])
                } else {
                    target
                };
                match t {
                    JsonView::Object(members) => {
                        let child = match member_get(members, k) {
                            Some(c) => c,
                            None => JsonView::Null,
                        };
                        set_hits_limit(child, rest, value)
                    },
                    _ => false,
                }
            },
            Segment::Index(i) => {
                let t = if target is Null {
                    JsonView::Array(seq![])
                } else {
                    target
                };
                match t {
                    JsonView::Array(items) => if i == usize::MAX {
                        true
                    } else {
                        set_hits_limit(pad_to(items, i as int)[i as int], rest, value)
                    },
                    _ => false,
                }
            },
            Segment::End => {
                let t = if target is Null {
                    JsonView::Array(seq![])
                } else {
                    target
                };
                match t {
                    JsonView::Array(_) => set_hits_limit(JsonView::Null, rest, value),
                    _ => false,
                }
            },
        }
    }
}

/// What `set_steps` comes to, stated over `set_path`: the new target where the
/// path is set; the target unchanged, with the mismatch error or with no error
/// (the index limit reached), where it is not.
pub open spec fn steps_outcome(
    target: JsonView,
    path: Seq<Segment>,
    value: JsonView,
    r: (JsonValue, Result<(), Option<ParseInputError>>),
) -> bool {
    if set_hits_limit(target, path, value) {
        r.1 == Err::<(), Option<ParseInputError>>(None) && r.0@ == target
    } else {
        match set_path(target, path, value) {
            Ok(x) => r.1 is Ok && r.0@ == x,
            Err((kind, t)) => r.1 matches Err(Some(e)) && e@ == mismatch_message(kind, t) && r.0@
                == target,
        }
    }
}

/// Sets `value` at the steps `path[k..]` inside `target`, and hands the target
/// back: changed where the path is set, as it was where it is not.
fn set_steps(target: JsonValue, path: &[PathSegment], k: usize, value: JsonValue) -> (r: (
    JsonValue,
    Result<(), Option<ParseInputError>>,
))
    requires
        k <= path@.len(),
    ensures
        steps_outcome(target@, segments_view(path@).skip(k as int), value@, r),
    decreases path@.len() - k,
{
    let ghost steps = segments_view(path@).skip(k as int);
    if k == path.len() {
        assert(steps.len() == 0);
        return (value, Ok(()));
    }
    assert(steps[0] == path@[k as int]@);
    assert(steps.drop_first() =~= segments_view(path@).skip(k + 1));
    let ghost t0 = target@;
    let ghost v0 = value@;
    let was_null = match &target {
        JsonValue::Null => true,
        _ => false,
    };
    match &path[k] {
        PathSegment::ObjectKey(key) => {
            let t = match target {
                JsonValue::Null => JsonValue::Object(Vec::new()),
                other => other,
            };
            match t {
                JsonValue::Object(mut members) => {
                    let ghost mv = members_view(members@);
                    proof {
                        lemma_object_view(members);
                        if t0 is Null {
                            assert(mv =~= seq![]);
                        }
                    }
                    let kc = chars_of(key.as_str());
                    let (i, found) = member_slot(&members, key, &kc);
                    proof {
                        assert forall|j: int| 0 <= j < i implies mv[j].0 != key@ && !key_before(
                            key@,
                            #[trigger] mv[j].0,
                        ) by {
                            assert(mv[j].0 == members@[j].0@);
                        }
                        lemma_member_scan(mv, key@, JsonView::Null, i as int);
                        if !found && i < members@.len() {
                            lemma_key_before_irreflexive(key@);
                            assert(mv.skip(i as int)[0] == mv[i as int]);
                        }
                    }
                    if found {
                        let mut child = JsonValue::Null;
                        std::mem::swap(&mut child, &mut members[i].1);
                        proof {
                            assert(mv.skip(i as int)[0] == mv[i as int]);
                            assert(member_get(mv, key@) == Some(child@));
                        }
                        let (mut c, status) = set_steps(child, path, k + 1, value);
                        let ghost cv = c@;
                        std::mem::swap(&mut c, &mut members[i].1);
                        proof {
                            lemma_member_scan(mv, key@, cv, i as int);
                            assert(mv.skip(i as int).drop_first() =~= mv.skip(i + 1));
                            lemma_object_view(members);
                            assert(members_view(members@) =~= mv.take(i as int) + seq![(key@, cv)]
                                + mv.skip(i + 1));
                            assert(member_put(mv, key@, cv) =~= mv.take(i as int) + seq![
                                (key@, cv),
                            ] + mv.skip(i + 1));
                            if status is Err {
                                assert(members_view(members@) =~= mv);
                            }
                        }
                        (JsonValue::Object(members), status)
                    } else {
                        let (c, status) = set_steps(JsonValue::Null, path, k + 1, value);
                        match status {
                            Ok(()) => {
                                let ghost cv = c@;
                                members.insert(i, (key.clone(), c));
                                proof {
                                    lemma_member_scan(mv, key@, cv, i as int);
                                    lemma_object_view(members);
                                    assert(members_view(members@) =~= mv.take(i as int) + seq![
                                        (key@, cv),
                                    ] + mv.skip(i as int));
                                    assert(member_put(mv, key@, cv) =~= mv.take(i as int) + seq![
                                        (key@, cv),
                                    ] + mv.skip(i as int));
                                }
                                (JsonValue::Object(members), Ok(()))
                            },
                            Err(e) => {
                                proof {
                                    lemma_object_view(members);
                                }
                                if was_null {
                                    (JsonValue::Null, Err(e))
                                } else {
                                    (JsonValue::Object(members), Err(e))
                                }
                            },
                        }
                    }
                },
                other => {
                    let e = ParseInputError::type_mismatch(MismatchKind::Key, &other);
                    (other, Err(Some(e)))
                },
            }
        },
        PathSegment::ArrayIndex(index) => {
            let index = *index;
            let t = match target {
                JsonValue::Null => JsonValue::Array(Vec::new()),
                other => other,
            };
            match t {
                JsonValue::Array(mut items) => {
                    let ghost iv = items_view(items@);
                    proof {
                        lemma_array_view(items);
                        if t0 is Null {
                            assert(iv =~= seq![]);
                        }
                    }
                    if index == usize::MAX {
                        if was_null {
                            return (JsonValue::Null, Err(None));
                        } else {
                            return (JsonValue::Array(items), Err(None));
                        }
                    }
                    let start = items.len();
                    while items.len() <= index
                        invariant
                            index < usize::MAX,
                            start == iv.len(),
                            start <= items@.len() <= index + 1 || items@.len() == start,
                            items_view(items@) =~= iv + nulls((items@.len() - start) as nat),
                        decreases index + 1 - items@.len(),
                    {
                        let ghost before = items_view(items@);
                        items.push(JsonValue::Null);
                        assert(items_view(items@) =~= before.push(JsonView::Null));
                        assert(iv + nulls((items@.len() - start) as nat) =~= (iv + nulls(
                            (items@.len() - 1 - start) as nat,
                        )).push(JsonView::Null));
                    }
                    assert(items_view(items@) =~= pad_to(iv, index as int));
                    let mut child = JsonValue::Null;
                    std::mem::swap(&mut child, &mut items[index]);
                    let (mut c, status) = set_steps(child, path, k + 1, value);
                    let ghost cv = c@;
                    std::mem::swap(&mut c, &mut items[index]);
                    proof {
                        assert(items_view(items@) =~= pad_to(iv, index as int).update(
                            index as int,
                            cv,
                        ));
                    }
                    match status {
                        Ok(()) => {
                            proof {
                                lemma_array_view(items);
                            }
                            (JsonValue::Array(items), Ok(()))
                        },
                        Err(e) => {
                            let ghost before = items_view(items@);
                            proof {
                                assert(cv == pad_to(iv, index as int)[index as int]);
                                assert(before =~= pad_to(iv, index as int));
                            }
                            items.truncate(start);
                            proof {
                                assert(items_view(items@) =~= before.subrange(0, start as int));
                                assert(items_view(items@) =~= iv);
                                lemma_array_view(items);
                            }
                            if was_null {
                                (JsonValue::Null, Err(e))
                            } else {
                                (JsonValue::Array(items), Err(e))
                            }
                        },
                    }
                },
                other => {
                    let e = ParseInputError::type_mismatch(MismatchKind::Index, &other);
                    (other, Err(Some(e)))
                },
            }
        },
        PathSegment::ArrayEnd => {
            let t = match target {
                JsonValue::Null => JsonValue::Array(Vec::new()),
                other => other,
            };
            match t {
                JsonValue::Array(mut items) => {
                    let ghost iv = items_view(items@);
                    proof {
                        lemma_array_view(items);
                        if t0 is Null {
                            assert(iv =~= seq![]);
                        }
                    }
                    let (c, status) = set_steps(JsonValue::Null, path, k + 1, value);
                    match status {
                        Ok(()) => {
                            let ghost cv = c@;
                            items.push(c);
                            proof {
                                lemma_array_view(items);
                                assert(items_view(items@) =~= iv.push(cv));
                            }
                            (JsonValue::Array(items), Ok(()))
                        },
                        Err(e) => {
                            proof {
                                lemma_array_view(items);
                            }
                            if was_null {
                                (JsonValue::Null, Err(e))
                            } else {
                                (JsonValue::Array(items), Err(e))
                            }
                        },
                    }
                },
                other => {
                    let e = ParseInputError::type_mismatch(MismatchKind::End, &other);
                    (other, Err(Some(e)))
                },
            }
        },
    }
}

/// Sets `value` at `path` inside `target`. Where the path meets a value that is not
/// the container a step needs, the error names that step and value, and the target
/// is left as it was.
pub fn set_path_value(target: &mut JsonValue, path: &[PathSegment], value: JsonValue) -> (r: Result<
    (),
    ParseInputError,
>)
    requires
        !set_hits_limit(old(target)@, segments_view(path@), value@),
    ensures
        match set_path(old(target)@, segments_view(path@), value@) {
            Ok(x) => r is Ok && final(target)@ == x,
            Err((kind, t)) => r matches Err(e) && e@ == mismatch_message(kind, t) && final(target)@
                == old(target)@,
        },
        json_sorted(old(target)@) && json_sorted(value@) ==> json_sorted(final(target)@),
{
    proof {
        if json_sorted(old(target)@) && json_sorted(value@) {
            lemma_set_keeps_sorted(old(target)@, segments_view(path@), value@);
        }
    }
    let mut current = JsonValue::Null;
    std::mem::swap(&mut current, target);
    assert(segments_view(path@).skip(0) =~= segments_view(path@));
    let (next, status) = set_steps(current, path, 0, value);
    *target = next;
    match status {
        Ok(()) => Ok(()),
        Err(Some(e)) => Err(e),
        Err(None) => {
            proof {
                assert(false);
            }
            Ok(())
        },
    }
}

/// The value at `path` inside `t`, where each step finds one: a key step reads a
/// member of an object, an index step an element of an array, and an append step
/// the last element of an array.
pub open spec fn get_path(t: JsonView, path: Seq<Segment>) -> Option<JsonView>
    decreases path.len(),
{
    if path.len() == 0 {
        Some(t)
    } else {
        match path[0] {
            Segment::Key(k) => match t {
                JsonView::Object(members) => match member_get(members, k) {
                    Some(c) => get_path(c, path.drop_first()),
                    None => None,
                },
                _ => None,
            },
            Segment::Index(i) => match t {
                JsonView::Array(items) => if i < items.len() {
                    get_path(items[i as int], path.drop_first())
                } else {
                    None
                },
                _ => None,
            },
            Segment::End => match t {
                JsonView::Array(items) => if items.len() > 0 {
                    get_path(items.last(), path.drop_first())
                } else {
                    None
                },
                _ => None,
            },
        }
    }
}

/// The path has no append step.
pub open spec fn has_no_end(path: Seq<Segment>) -> bool {
    forall|j: int| 0 <= j < path.len() ==> path[j] != Segment::End
}

/// The kind of mismatch that a step reports.
pub open spec fn step_kind(step: Segment) -> MismatchKind {
    match step {
        Segment::Key(_) => MismatchKind::Key,
        Segment::Index(_) => MismatchKind::Index,
        Segment::End => MismatchKind::End,
    }
}

/// Reading a path back after setting a value there gives that value, an append
/// step reading the element it added.
pub proof fn lemma_get_after_set(t: JsonView, path: Seq<Segment>, v: JsonView)
    requires
        set_path(t, path, v) is Ok,
    ensures
        get_path(set_path(t, path, v)->Ok_0, path) == Some(v),
    decreases path.len(),
{
    if path.len() > 0 {
        let rest = path.drop_first();
        match path[0] {
            Segment::Key(k) => {
                let t1 = if t is Null {
                    JsonView::Object(seq![])
                } else {
                    t
                };
                let members = t1->Object_0;
                let child = match member_get(members, k) {
                    Some(c) => c,
                    None => JsonView::Null,
                };
                lemma_get_after_set(child, rest, v);
                let c2 = set_path(child, rest, v)->Ok_0;
                lemma_member_get_put_same(members, k, c2);
            },
            Segment::Index(i) => {
                let t1 = if t is Null {
                    JsonView::Array(seq![])
                } else {
                    t
                };
                let padded = pad_to(t1->Array_0, i as int);
                lemma_get_after_set(padded[i as int], rest, v);
            },
            Segment::End => {
                lemma_get_after_set(JsonView::Null, rest, v);
            },
        }
    }
}

/// Setting a path a second time leaves what setting it only the second time does:
/// the later value overwrites the earlier (for paths without append steps).
pub proof fn lemma_set_twice(t: JsonView, path: Seq<Segment>, a: JsonView, b: JsonView)
    requires
        has_no_end(path),
        set_path(t, path, a) is Ok,
    ensures
        set_path(set_path(t, path, a)->Ok_0, path, b) == set_path(t, path, b),
    decreases path.len(),
{
    if path.len() > 0 {
        let rest = path.drop_first();
        assert(has_no_end(rest)) by {
            assert forall|j: int| 0 <= j < rest.len() implies rest[j] != Segment::End by {
                assert(rest[j] == path[j + 1]);
            }
        }
        match path[0] {
            Segment::Key(k) => {
                let t1 = if t is Null {
                    JsonView::Object(seq![])
                } else {
                    t
                };
                let members = t1->Object_0;
                let child = match member_get(members, k) {
                    Some(c) => c,
                    None => JsonView::Null,
                };
                lemma_set_twice(child, rest, a, b);
                let c1 = set_path(child, rest, a)->Ok_0;
                lemma_member_get_put_same(members, k, c1);
                match set_path(child, rest, b) {
                    Ok(c2) => {
                        lemma_member_put_put(members, k, c1, c2);
                    },
                    Err(_) => {},
                }
            },
            Segment::Index(i) => {
                let t1 = if t is Null {
                    JsonView::Array(seq![])
                } else {
                    t
                };
                let padded = pad_to(t1->Array_0, i as int);
                lemma_set_twice(padded[i as int], rest, a, b);
                let c1 = set_path(padded[i as int], rest, a)->Ok_0;
                let once = padded.update(i as int, c1);
                assert(pad_to(once, i as int) == once);
                match set_path(padded[i as int], rest, b) {
                    Ok(c2) => {
                        assert(once.update(i as int, c2) =~= padded.update(i as int, c2));
                    },
                    Err(_) => {},
                }
            },
            Segment::End => {
                assert(path[0] != Segment::End);
            },
        }
    }
}

/// Setting a value inside a null (the body before any assignment) never meets a
/// mismatch: the objects and arrays the path needs are created.
pub proof fn lemma_set_into_null(path: Seq<Segment>, v: JsonView)
    ensures
        set_path(JsonView::Null, path, v) is Ok,
    decreases path.len(),
{
    if path.len() > 0 {
        let rest = path.drop_first();
        lemma_set_into_null(rest, v);
        match path[0] {
            Segment::Index(i) => {
                let padded = pad_to(seq![], i as int);
                assert(padded[i as int] == JsonView::Null);
            },
            _ => {},
        }
    }
}

/// An append step adds the value as a new last element.
pub proof fn lemma_append(items: Seq<JsonView>, v: JsonView)
    ensures
        set_path(JsonView::Array(items), seq![Segment::End], v) == Ok::<JsonView, (MismatchKind, JsonView)>(
            JsonView::Array(items.push(v)),
        ),
{
    let rest = seq![Segment::End].drop_first();
    assert(rest.len() == 0);
    assert(set_path(JsonView::Null, rest, v) == Ok::<JsonView, (MismatchKind, JsonView)>(v));
}

/// Setting an index past the end pads the array with nulls up to it.
pub proof fn lemma_set_past_end(items: Seq<JsonView>, i: usize, v: JsonView)
    requires
        items.len() <= i,
    ensures
        set_path(JsonView::Array(items), seq![Segment::Index(i)], v) == Ok::<JsonView, (MismatchKind, JsonView)>(
            JsonView::Array(items + nulls((i - items.len()) as nat) + seq![v]),
        ),
{
    let rest = seq![Segment::Index(i)].drop_first();
    assert(rest.len() == 0);
    let padded = pad_to(items, i as int);
    assert(set_path(padded[i as int], rest, v) == Ok::<JsonView, (MismatchKind, JsonView)>(v));
    assert(padded.update(i as int, v) =~= items + nulls((i - items.len()) as nat) + seq![v]);
}

/// A path that meets a scalar (a boolean, number or string) before its end fails,
/// naming its step and that value.
pub proof fn lemma_scalar_blocks(t: JsonView, path: Seq<Segment>, v: JsonView)
    requires
        path.len() > 0,
        t is Bool || t is Number || t is Str,
    ensures
        set_path(t, path, v) == Err::<JsonView, (MismatchKind, JsonView)>((step_kind(path[0]), t)),
{
}

/// A key step on an array, and an index or append step on an object, fail.
pub proof fn lemma_container_mismatch(t: JsonView, path: Seq<Segment>, v: JsonView)
    requires
        path.len() > 0,
        (t is Array && path[0] is Key) || (t is Object && !(path[0] is Key)),
    ensures
        set_path(t, path, v) == Err::<JsonView, (MismatchKind, JsonView)>((step_kind(path[0]), t)),
{
}

/// A key step on null or on an object (members in key order) sets the member `k`
/// to what setting the rest of the path inside its old value (null where absent)
/// gives, creating the object from null; every other key keeps its value.
pub proof fn lemma_key_step(t: JsonView, k: Seq<char>, rest: Seq<Segment>, v: JsonView)
    requires
        t is Null || (t is Object && keys_sorted(t->Object_0)),
    ensures
        ({
            let members = if t is Null {
                seq![]
            } else {
                t->Object_0
            };
            let child = match member_get(members, k) {
                Some(c) => c,
                None => JsonView::Null,
            };
            match set_path(child, rest, v) {
                Ok(c) => {
                    &&& set_path(t, seq![Segment::Key(k)] + rest, v) == Ok::<
                        JsonView,
                        (MismatchKind, JsonView),
                    >(JsonView::Object(member_put(members, k, c)))
                    &&& member_get(member_put(members, k, c), k) == Some(c)
                    &&& forall|other: Seq<char>|
                        other != k ==> #[trigger] member_get(member_put(members, k, c), other)
                            == member_get(members, other)
                },
                Err(e) => set_path(t, seq![Segment::Key(k)] + rest, v) == Err::<
                    JsonView,
                    (MismatchKind, JsonView),
                >(e),
            }
        }),
{
    let path = seq![Segment::Key(k)] + rest;
    assert(path[0] == Segment::Key(k));
    assert(path.drop_first() =~= rest);
    let members = if t is Null {
        seq![]
    } else {
        t->Object_0
    };
    let child = match member_get(members, k) {
        Some(c) => c,
        None => JsonView::Null,
    };
    if let Ok(c) = set_path(child, rest, v) {
        lemma_member_get_put_same(members, k, c);
        assert forall|other: Seq<char>| other != k implies #[trigger] member_get(
            member_put(members, k, c),
            other,
        ) == member_get(members, other) by {
            lemma_member_get_put_other(members, k, other, c);
        }
    }
}

/// An index step on null or on an array sets element `i` to what setting the rest
/// of the path inside its old value (null past the end) gives: the array is padded
/// with nulls up to `i`, created from null, and its other elements are kept.
pub proof fn lemma_index_step(t: JsonView, i: usize, rest: Seq<Segment>, v: JsonView)
    requires
        t is Null || t is Array,
    ensures
        ({
            let items = if t is Null {
                seq![]
            } else {
                t->Array_0
            };
            let child = if i < items.len() {
                items[i as int]
            } else {
                JsonView::Null
            };
            match set_path(child, rest, v) {
                Ok(c) => set_path(t, seq![Segment::Index(i)] + rest, v) matches Ok(
                    JsonView::Array(x),
                ) && {
                    &&& x.len() == if i < items.len() {
                        items.len() as int
                    } else {
                        i + 1
                    }
                    &&& forall|j: int| 0 <= j < items.len() && j != i ==> #[trigger] x[j] == items[j]
                    &&& forall|j: int| items.len() <= j < i ==> #[trigger] x[j] == JsonView::Null
                    &&& x[i as int] == c
                },
                Err(e) => set_path(t, seq![Segment::Index(i)] + rest, v) == Err::<
                    JsonView,
                    (MismatchKind, JsonView),
                >(e),
            }
        }),
{
    let path = seq![Segment::Index(i)] + rest;
    assert(path[0] == Segment::Index(i));
    assert(path.drop_first() =~= rest);
    let items = if t is Null {
        seq![]
    } else {
        t->Array_0
    };
    let padded = pad_to(items, i as int);
    if i >= items.len() {
        assert(padded[i as int] == JsonView::Null);
    }
}

/// An append step on null or on an array adds, as a new last element, what setting
/// the rest of the path inside null gives, which never fails.
pub proof fn lemma_end_step(t: JsonView, rest: Seq<Segment>, v: JsonView)
    requires
        t is Null || t is Array,
    ensures
        ({
            let items = if t is Null {
                seq![]
            } else {
                t->Array_0
            };
            &&& set_path(JsonView::Null, rest, v) is Ok
            &&& set_path(t, seq![Segment::End] + rest, v) == Ok::<JsonView, (MismatchKind, JsonView)>(
                JsonView::Array(items.push(set_path(JsonView::Null, rest, v)->Ok_0)),
            )
        }),
{
    let path = seq![Segment::End] + rest;
    assert(path[0] == Segment::End);
    assert(path.drop_first() =~= rest);
    lemma_set_into_null(rest, v);
}

/// Setting a value keeps every object's members in key order.
pub proof fn lemma_set_keeps_sorted(t: JsonView, path: Seq<Segment>, v: JsonView)
    requires
        json_sorted(t),
        json_sorted(v),
    ensures
        set_path(t, path, v) matches Ok(t2) ==> json_sorted(t2),
    decreases path.len(),
{
    if path.len() > 0 {
        let rest = path.drop_first();
        match path[0] {
            Segment::Key(k) => {
                let t1 = if t is Null {
                    JsonView::Object(seq![])
                } else {
                    t
                };
                if t1 is Object {
                    let members = t1->Object_0;
                    let child = match member_get(members, k) {
                        Some(c) => c,
                        None => JsonView::Null,
                    };
                    lemma_member_get_in(members, k);
                    lemma_set_keeps_sorted(child, rest, v);
                    if let Ok(c2) = set_path(child, rest, v) {
                        lemma_member_put_sorted(members, k, c2);
                        lemma_member_put_members(members, k, c2);
                        let put = member_put(members, k, c2);
                        assert forall|i: int| 0 <= i < put.len() implies json_sorted(
                            #[trigger] put[i].1,
                        ) by {
                            if put[i] != (k, c2) {
                                let j = choose|j: int| 0 <= j < members.len() && put[i] == members[j];
                            }
                        }
                    }
                }
            },
            Segment::Index(i) => {
                let t1 = if t is Null {
                    JsonView::Array(seq![])
                } else {
                    t
                };
                if t1 is Array {
                    let items = t1->Array_0;
                    let padded = pad_to(items, i as int);
                    assert forall|j: int| 0 <= j < padded.len() implies json_sorted(
                        #[trigger] padded[j],
                    ) by {
                        if j >= items.len() {
                            assert(padded[j] == JsonView::Null);
                        }
                    }
                    lemma_set_keeps_sorted(padded[i as int], rest, v);
                }
            },
            Segment::End => {
                lemma_set_keeps_sorted(JsonView::Null, rest, v);
            },
        }
    }
}

/// The current body, or null where there is none yet.
pub open spec fn body_or_null(body: Option<JsonView>) -> JsonView {
    match body {
        Some(b) => b,
        None => JsonView::Null,
    }
}

/// A body, as a mathematical value.
pub open spec fn body_view(body: Option<JsonValue>) -> Option<JsonView> {
    match body {
        Some(b) => Some(b@),
        None => None,
    }
}

/// Applies a body assignment to the body built so far, handing back no error where
/// the path reaches the index limit; the body is left as it was wherever the
/// assignment fails.
pub(crate) fn apply_component(body: &mut Option<JsonValue>, component: BodyComponent) -> (r: Result<
    (),
    Option<ParseInputError>,
>)
    ensures
        ({
            let t = body_or_null(body_view(*old(body)));
            let path = segments_view(component.path@);
            if set_hits_limit(t, path, component.value@) {
                r == Err::<(), Option<ParseInputError>>(None) && body_view(*final(body))
                    == body_view(*old(body))
            } else {
                match set_path(t, path, component.value@) {
                    Ok(v) => r is Ok && body_view(*final(body)) == Some(v),
                    Err((kind, t)) => r matches Err(Some(e)) && e@ == mismatch_message(kind, t)
                        && body_view(*final(body)) == body_view(*old(body)),
                }
            }
        }),
{
    let mut current: Option<JsonValue> = None;
    std::mem::swap(&mut current, body);
    let (target, was_none) = match current {
        Some(b) => (b, false),
        None => (JsonValue::Null, true),
    };
    let BodyComponent { path, value } = component;
    assert(segments_view(path@).skip(0) =~= segments_view(path@));
    let (next, status) = set_steps(target, path.as_slice(), 0, value);
    match status {
        Ok(()) => {
            *body = Some(next);
            Ok(())
        },
        Err(e) => {
            if !was_none {
                *body = Some(next);
            }
            Err(e)
        },
    }
}

/// Applies a body assignment to the body built so far: the body starts as null and
/// the value is set at the component's path. Where that fails, the body is left as
/// it was.
pub fn apply_body_component(body: &mut Option<JsonValue>, component: BodyComponent) -> (r: Result<
    (),
    ParseInputError,
>)
    requires
        !set_hits_limit(
            body_or_null(body_view(*old(body))),
            segments_view(component.path@),
            component.value@,
        ),
        json_sorted(body_or_null(body_view(*old(body)))),
        json_sorted(component.value@),
    ensures
        match set_path(
            body_or_null(body_view(*old(body))),
            segments_view(component.path@),
            component.value@,
        ) {
            Ok(v) => r is Ok && body_view(*final(body)) == Some(v),
            Err((kind, t)) => r matches Err(e) && e@ == mismatch_message(kind, t) && body_view(
                *final(body),
            ) == body_view(*old(body)),
        },
        r is Ok ==> (body_view(*final(body)) matches Some(b) && json_sorted(b)),
{
    proof {
        lemma_set_keeps_sorted(
            body_or_null(body_view(*body)),
            segments_view(component.path@),
            component.value@,
        );
    }
    match apply_component(body, component) {
        Ok(()) => Ok(()),
        Err(Some(e)) => Err(e),
        Err(None) => {
            proof {
                assert(false);
            }
            Ok(())
        },
    }
}

} // verus!
