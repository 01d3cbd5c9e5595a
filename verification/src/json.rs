//! The JSON values that a body is built of, their mathematical model, and the
//! object and array operations that body paths are carried out with.
//!
//! An object holds its members in the order of their keys (character by
//! character, which is the byte order of their UTF-8 text), as `serde_json`'s
//! default map does; looking a key up and inserting one scan the members in that
//! order and stop at the first key that is not before the one sought.
use vstd::prelude::*;
use crate::text::chars_of;

verus! {

broadcast use {vstd::std_specs::vec::axiom_vec_decreases_to_view, vstd::seq::axiom_seq_index_decreases};

/// Makes `serde_json::Number` known to Verus, as an opaque type: numbers are
/// carried through, never looked into.
#[verifier::external_type_specification]
#[verifier::external_body]
pub struct ExJsonNumber(serde_json::Number);

/// `Clone` for `serde_json::Number`, which `derive(Clone)` writes over a `Copy`
/// field: the copy equals the original.
pub assume_specification[ <serde_json::Number as Clone>::clone ](n: &serde_json::Number) -> (r:
    serde_json::Number)
    ensures
        r == *n,
;

/// A JSON value.
#[derive(Debug, PartialEq)]
pub enum JsonValue {
    Null,
    Bool(bool),
    /// A number, carried as `serde_json` read it.
    Number(serde_json::Number),
    String(String),
    Array(Vec<JsonValue>),
    /// The members of an object, by increasing key.
    Object(Vec<(String, JsonValue)>),
}

/// The mathematical value of a [`JsonValue`].
pub enum JsonView {
    Null,
    Bool(bool),
    Number(serde_json::Number),
    Str(Seq<char>),
    Array(Seq<JsonView>),
    Object(Seq<(Seq<char>, JsonView)>),
}

impl View for JsonValue {
    type V = JsonView;

    open spec fn view(&self) -> JsonView
        decreases self,
    {
        match self {
            JsonValue::Null => JsonView::Null,
            JsonValue::Bool(b) => JsonView::Bool(*b),
            JsonValue::Number(n) => JsonView::Number(*n),
            JsonValue::String(s) => JsonView::Str(s@),
            JsonValue::Array(items) => JsonView::Array(
                Seq::new(
                    items@.len(),
                    |i: int|
                        if 0 <= i < items@.len() {
                            items@[i].view()
                        } else {
                            JsonView::Null
                        },
                ),
            ),
            JsonValue::Object(members) => JsonView::Object(
                Seq::new(
                    members@.len(),
                    |i: int|
                        (
                            members@[i].0@,
                            if 0 <= i < members@.len() {
                                members@[i].1.view()
                            } else {
                                JsonView::Null
                            },
                        ),
                ),
            ),
        }
    }
}

/// A copy of `value`, node for node.
#[verifier::loop_isolation(false)]
pub fn clone_value(value: &JsonValue) -> (r: JsonValue)
    ensures
        r@ == value@,
    decreases value,
{
    broadcast use vstd::std_specs::vec::axiom_vec_index_decreases;

    match value {
        JsonValue::Null => JsonValue::Null,
        JsonValue::Bool(b) => JsonValue::Bool(*b),
        JsonValue::Number(n) => JsonValue::Number(n.clone()),
        JsonValue::String(s) => JsonValue::String(s.clone()),
        JsonValue::Array(items) => {
            let mut out: Vec<JsonValue> = Vec::new();
            let mut i: usize = 0;
            while i < items.len()
                invariant
                    i <= items@.len(),
                    out@.len() == i,
                    forall|j: int| 0 <= j < i ==> #[trigger] out@[j]@ == items@[j]@,
                decreases items@.len() - i,
            {
                assert(decreases_to!(value => items@[i as int]));
                let c = clone_value(&items[i]);
                out.push(c);
                i = i + 1;
            }
            proof {
                lemma_array_view(out);
                lemma_array_view(*items);
                assert(items_view(out@) =~= items_view(items@));
            }
            JsonValue::Array(out)
        },
        JsonValue::Object(members) => {
            let mut out: Vec<(String, JsonValue)> = Vec::new();
            let mut i: usize = 0;
            while i < members.len()
                invariant
                    i <= members@.len(),
                    out@.len() == i,
                    forall|j: int|
                        0 <= j < i ==> #[trigger] out@[j].0@ == members@[j].0@ && out@[j].1@
                            == members@[j].1@,
                decreases members@.len() - i,
            {
                assert(decreases_to!(value => members@[i as int].1));
                let k = members[i].0.clone();
                let c = clone_value(&members[i].1);
                out.push((k, c));
                i = i + 1;
            }
            proof {
                lemma_object_view(out);
                lemma_object_view(*members);
                assert(members_view(out@) =~= members_view(members@));
            }
            JsonValue::Object(out)
        },
    }
}

impl Clone for JsonValue {
    fn clone(&self) -> (r: Self)
        ensures
            r@ == self@,
    {
        clone_value(self)
    }
}

/// The values of a sequence of elements.
pub open spec fn items_view(items: Seq<JsonValue>) -> Seq<JsonView> {
    Seq::new(items.len(), |i: int| items[i]@)
}

/// The keys and values of a sequence of members.
pub open spec fn members_view(members: Seq<(String, JsonValue)>) -> Seq<(Seq<char>, JsonView)> {
    Seq::new(members.len(), |i: int| (members[i].0@, members[i].1@))
}

pub proof fn lemma_array_view(items: Vec<JsonValue>)
    ensures
        JsonValue::Array(items)@ == JsonView::Array(items_view(items@)),
{
    assert(JsonValue::Array(items)@->Array_0 =~= items_view(items@));
}

pub proof fn lemma_object_view(members: Vec<(String, JsonValue)>)
    ensures
        JsonValue::Object(members)@ == JsonView::Object(members_view(members@)),
{
    assert(JsonValue::Object(members)@->Object_0 =~= members_view(members@));
}

/// The order of object keys: `a` comes before `b`, comparing character by character.
pub open spec fn key_before(a: Seq<char>, b: Seq<char>) -> bool
    decreases a.len(),
{
    if a.len() == 0 {
        b.len() > 0
    } else if b.len() == 0 {
        false
    } else if a[0] != b[0] {
        a[0] < b[0]
    } else {
        key_before(a.drop_first(), b.drop_first())
    }
}

/// The value of the key `k` among `members`.
pub open spec fn member_get(members: Seq<(Seq<char>, JsonView)>, k: Seq<char>) -> Option<JsonView>
    decreases members.len(),
{
    if members.len() == 0 {
        None
    } else if members[0].0 == k {
        Some(members[0].1)
    } else if key_before(k, members[0].0) {
        None
    } else {
        member_get(members.drop_first(), k)
    }
}

/// `members` with the value of `k` set to `v`: replaced where `k` is present,
/// inserted in key order where it is not.
pub open spec fn member_put(members: Seq<(Seq<char>, JsonView)>, k: Seq<char>, v: JsonView) -> Seq<
    (Seq<char>, JsonView),
>
    decreases members.len(),
{
    if members.len() == 0 {
        seq![(k, v)]
    } else if members[0].0 == k {
        seq![(k, v)] + members.drop_first()
    } else if key_before(k, members[0].0) {
        seq![(k, v)] + members
    } else {
        seq![members[0]] + member_put(members.drop_first(), k, v)
    }
}

/// The members are in strictly increasing key order.
pub open spec fn keys_sorted(members: Seq<(Seq<char>, JsonView)>) -> bool {
    forall|i: int, j: int|
        0 <= i < j < members.len() ==> key_before(#[trigger] members[i].0, #[trigger] members[j].0)
}

/// Every object inside `v`, `v` included, has its members in strictly increasing
/// key order.
pub open spec fn json_sorted(v: JsonView) -> bool
    decreases v,
{
    match v {
        JsonView::Array(items) => forall|i: int|
            0 <= i < items.len() ==> json_sorted(#[trigger] items[i]),
        JsonView::Object(members) => keys_sorted(members) && forall|i: int|
            0 <= i < members.len() ==> json_sorted(#[trigger] members[i].1),
        _ => true,
    }
}

/// `n` nulls.
pub open spec fn nulls(n: nat) -> Seq<JsonView> {
    Seq::new(n, |i: int| JsonView::Null)
}

/// `items`, padded with nulls so that `i` is one of its indexes.
pub open spec fn pad_to(items: Seq<JsonView>, i: int) -> Seq<JsonView> {
    if i < items.len() {
        items
    } else {
        items + nulls((i + 1 - items.len()) as nat)
    }
}

/// The name of the kind of a value, as error messages give it.
pub open spec fn kind_name(v: JsonView) -> Seq<char> {
    match v {
        JsonView::Null => "null"@,
        JsonView::Bool(_) => "bool"@,
        JsonView::Number(_) => "number"@,
        JsonView::Str(_) => "string"@,
        JsonView::Array(_) => "array"@,
        JsonView::Object(_) => "object"@,
    }
}

/// The name of the kind of `value`.
pub fn value_type_name(value: &JsonValue) -> (r: &'static str)
    ensures
        r@ == kind_name(value@),
{
    match value {
        JsonValue::Null => "null",
        JsonValue::Bool(_) => "bool",
        JsonValue::Number(_) => "number",
        JsonValue::String(_) => "string",
        JsonValue::Array(_) => "array",
        JsonValue::Object(_) => "object",
    }
}

pub proof fn lemma_key_before_irreflexive(a: Seq<char>)
    ensures
        !key_before(a, a),
    decreases a.len(),
{
    if a.len() > 0 {
        lemma_key_before_irreflexive(a.drop_first());
    }
}

pub proof fn lemma_key_before_asymmetric(a: Seq<char>, b: Seq<char>)
    ensures
        !(key_before(a, b) && key_before(b, a)),
    decreases a.len(),
{
    if a.len() > 0 && b.len() > 0 && a[0] == b[0] {
        lemma_key_before_asymmetric(a.drop_first(), b.drop_first());
    }
}

pub proof fn lemma_key_before_transitive(a: Seq<char>, b: Seq<char>, c: Seq<char>)
    requires
        key_before(a, b),
        key_before(b, c),
    ensures
        key_before(a, c),
    decreases a.len(),
{
    if a.len() > 0 && b.len() > 0 && c.len() > 0 && a[0] == b[0] && b[0] == c[0] {
        lemma_key_before_transitive(a.drop_first(), b.drop_first(), c.drop_first());
    }
}

pub proof fn lemma_key_before_total(a: Seq<char>, b: Seq<char>)
    ensures
        key_before(a, b) || a == b || key_before(b, a),
    decreases a.len(),
{
    if a.len() == 0 && b.len() == 0 {
        assert(a =~= b);
    } else if a.len() > 0 && b.len() > 0 && a[0] == b[0] {
        lemma_key_before_total(a.drop_first(), b.drop_first());
        if a.drop_first() == b.drop_first() {
            assert(a =~= seq![a[0]] + a.drop_first());
            assert(b =~= seq![b[0]] + b.drop_first());
        }
    } else if a.len() > 0 && b.len() > 0 {
        assert((a[0] as int) != (b[0] as int));
    }
}

pub proof fn lemma_key_before_suffix(a: Seq<char>, b: Seq<char>, i: int)
    requires
        0 <= i <= a.len(),
        i <= b.len(),
        a.take(i) == b.take(i),
    ensures
        key_before(a, b) == key_before(a.skip(i), b.skip(i)),
    decreases i,
{
    if i > 0 {
        assert(a.take(i - 1) =~= a.take(i).take(i - 1));
        assert(b.take(i - 1) =~= b.take(i).take(i - 1));
        lemma_key_before_suffix(a, b, i - 1);
        assert(a[i - 1] == a.take(i)[i - 1]);
        assert(b[i - 1] == b.take(i)[i - 1]);
        assert(a.skip(i - 1).drop_first() =~= a.skip(i));
        assert(b.skip(i - 1).drop_first() =~= b.skip(i));
    } else {
        assert(a.skip(0) =~= a);
        assert(b.skip(0) =~= b);
    }
}

/// Whether the key `a` comes before the key `b`.
pub fn key_before_exec(a: &Vec<char>, b: &Vec<char>) -> (r: bool)
    ensures
        r == key_before(a@, b@),
{
    let mut i: usize = 0;
    while i < a.len() && i < b.len() && a[i] == b[i]
        invariant
            i <= a@.len(),
            i <= b@.len(),
            a@.take(i as int) == b@.take(i as int),
        decreases a@.len() - i,
    {
        assert(a@.take(i + 1) =~= a@.take(i as int).push(a@[i as int]));
        assert(b@.take(i + 1) =~= b@.take(i as int).push(b@[i as int]));
        i = i + 1;
    }
    proof {
        lemma_key_before_suffix(a@, b@, i as int);
    }
    if i == a.len() {
        i < b.len()
    } else if i == b.len() {
        false
    } else {
        a[i] < b[i]
    }
}

pub proof fn lemma_member_scan(
    members: Seq<(Seq<char>, JsonView)>,
    k: Seq<char>,
    v: JsonView,
    i: int,
)
    requires
        0 <= i <= members.len(),
        forall|j: int| 0 <= j < i ==> members[j].0 != k && !key_before(k, #[trigger] members[j].0),
    ensures
        member_get(members, k) == member_get(members.skip(i), k),
        member_put(members, k, v) == members.take(i) + member_put(members.skip(i), k, v),
    decreases i,
{
    if i > 0 {
        lemma_member_scan(members, k, v, i - 1);
        let rest = members.skip(i - 1);
        assert(rest[0] == members[i - 1]);
        assert(rest.drop_first() =~= members.skip(i));
        assert(members.take(i - 1) + (seq![members[i - 1]] + member_put(members.skip(i), k, v))
            =~= members.take(i) + member_put(members.skip(i), k, v));
    } else {
        assert(members.skip(0) =~= members);
        assert(members.take(0) + member_put(members, k, v) =~= member_put(members, k, v));
    }
}

/// A value read from members is one of their values.
pub proof fn lemma_member_get_in(members: Seq<(Seq<char>, JsonView)>, k: Seq<char>)
    ensures
        member_get(members, k) matches Some(c) ==> exists|j: int|
            0 <= j < members.len() && members[j].1 == c,
    decreases members.len(),
{
    if members.len() > 0 && members[0].0 != k && !key_before(k, members[0].0) {
        let rest = members.drop_first();
        lemma_member_get_in(rest, k);
        if let Some(c) = member_get(rest, k) {
            let j = choose|j: int| 0 <= j < rest.len() && rest[j].1 == c;
            assert(members[j + 1] == rest[j]);
        }
    }
}

/// Reading a key just put gives back the value put.
pub proof fn lemma_member_get_put_same(members: Seq<(Seq<char>, JsonView)>, k: Seq<char>, v: JsonView)
    ensures
        member_get(member_put(members, k, v), k) == Some(v),
    decreases members.len(),
{
    if members.len() > 0 && members[0].0 != k && !key_before(k, members[0].0) {
        lemma_member_get_put_same(members.drop_first(), k, v);
        assert((seq![members[0]] + member_put(members.drop_first(), k, v)).drop_first()
            =~= member_put(members.drop_first(), k, v));
    }
}

/// Putting a key twice leaves the second value.
pub proof fn lemma_member_put_put(
    members: Seq<(Seq<char>, JsonView)>,
    k: Seq<char>,
    a: JsonView,
    b: JsonView,
)
    ensures
        member_put(member_put(members, k, a), k, b) == member_put(members, k, b),
    decreases members.len(),
{
    if members.len() == 0 {
        assert(member_put(member_put(members, k, a), k, b) =~= seq![(k, b)]);
    } else if members[0].0 == k {
        let once = member_put(members, k, a);
        assert(once.drop_first() =~= members.drop_first());
    } else if key_before(k, members[0].0) {
        let once = member_put(members, k, a);
        assert(once.drop_first() =~= members);
    } else {
        lemma_member_put_put(members.drop_first(), k, a, b);
        let once = member_put(members, k, a);
        assert(once.drop_first() =~= member_put(members.drop_first(), k, a));
    }
}

/// Every member of `member_put(members, k, v)` is `(k, v)` or a member of `members`,
/// and the key `k` is there.
pub proof fn lemma_member_put_members(members: Seq<(Seq<char>, JsonView)>, k: Seq<char>, v: JsonView)
    ensures
        forall|i: int|
            0 <= i < member_put(members, k, v).len() ==> #[trigger] member_put(members, k, v)[i]
                == (k, v) || exists|j: int|
                0 <= j < members.len() && member_put(members, k, v)[i] == members[j],
    decreases members.len(),
{
    let put = member_put(members, k, v);
    if members.len() == 0 {
    } else if members[0].0 == k {
        assert forall|i: int| 0 <= i < put.len() implies put[i] == (k, v) || exists|j: int|
            0 <= j < members.len() && put[i] == members[j] by {
            if i > 0 {
                assert(put[i] == members[i]);
            }
        }
    } else if key_before(k, members[0].0) {
        assert forall|i: int| 0 <= i < put.len() implies put[i] == (k, v) || exists|j: int|
            0 <= j < members.len() && put[i] == members[j] by {
            if i > 0 {
                assert(put[i] == members[i - 1]);
            }
        }
    } else {
        let rest = members.drop_first();
        lemma_member_put_members(rest, k, v);
        assert forall|i: int| 0 <= i < put.len() implies put[i] == (k, v) || exists|j: int|
            0 <= j < members.len() && put[i] == members[j] by {
            if i == 0 {
                assert(put[0] == members[0]);
            } else {
                let r = member_put(rest, k, v);
                assert(put[i] == r[i - 1]);
                if r[i - 1] != (k, v) {
                    let j = choose|j: int| 0 <= j < rest.len() && r[i - 1] == rest[j];
                    assert(put[i] == members[j + 1]);
                }
            }
        }
    }
}

/// Putting a key keeps the members in key order.
pub proof fn lemma_member_put_sorted(members: Seq<(Seq<char>, JsonView)>, k: Seq<char>, v: JsonView)
    requires
        keys_sorted(members),
    ensures
        keys_sorted(member_put(members, k, v)),
    decreases members.len(),
{
    let put = member_put(members, k, v);
    if members.len() == 0 {
    } else if members[0].0 == k {
        assert forall|i: int, j: int| 0 <= i < j < put.len() implies key_before(
            #[trigger] put[i].0,
            #[trigger] put[j].0,
        ) by {
            assert(put[j] == members[j]);
            if i > 0 {
                assert(put[i] == members[i]);
            }
        }
    } else if key_before(k, members[0].0) {
        assert forall|i: int, j: int| 0 <= i < j < put.len() implies key_before(
            #[trigger] put[i].0,
            #[trigger] put[j].0,
        ) by {
            assert(put[j] == members[j - 1]);
            if i > 0 {
                assert(put[i] == members[i - 1]);
            } else if j > 1 {
                assert(key_before(members[0].0, members[j - 1].0));
                lemma_key_before_transitive(k, members[0].0, members[j - 1].0);
            }
        }
    } else {
        let rest = members.drop_first();
        let r = member_put(rest, k, v);
        assert(keys_sorted(rest)) by {
            assert forall|i: int, j: int| 0 <= i < j < rest.len() implies key_before(
                #[trigger] rest[i].0,
                #[trigger] rest[j].0,
            ) by {
                assert(rest[i] == members[i + 1]);
                assert(rest[j] == members[j + 1]);
            }
        }
        lemma_member_put_sorted(rest, k, v);
        lemma_member_put_members(rest, k, v);
        lemma_key_before_total(members[0].0, k);
        assert forall|i: int, j: int| 0 <= i < j < put.len() implies key_before(
            #[trigger] put[i].0,
            #[trigger] put[j].0,
        ) by {
            assert(put[j] == r[j - 1]);
            if i > 0 {
                assert(put[i] == r[i - 1]);
            } else {
                assert(put[0] == members[0]);
                if r[j - 1] != (k, v) {
                    let m = choose|m: int| 0 <= m < rest.len() && r[j - 1] == rest[m];
                    assert(rest[m] == members[m + 1]);
                }
            }
        }
    }
}

/// In members in key order, putting one key leaves every other key's value as it was.
pub proof fn lemma_member_get_put_other(
    members: Seq<(Seq<char>, JsonView)>,
    k: Seq<char>,
    other: Seq<char>,
    v: JsonView,
)
    requires
        keys_sorted(members),
        k != other,
    ensures
        member_get(member_put(members, k, v), other) == member_get(members, other),
    decreases members.len(),
{
    if members.len() == 0 {
        let put = member_put(members, k, v);
        assert(put.drop_first() =~= members);
    } else if members[0].0 == k {
        let put = member_put(members, k, v);
        assert(put.drop_first() =~= members.drop_first());
    } else if key_before(k, members[0].0) {
        let put = member_put(members, k, v);
        assert(put.drop_first() =~= members);
        if key_before(other, k) {
            lemma_key_before_transitive(other, k, members[0].0);
            lemma_key_before_irreflexive(other);
        }
    } else {
        let rest = members.drop_first();
        assert(keys_sorted(rest)) by {
            assert forall|i: int, j: int| 0 <= i < j < rest.len() implies key_before(
                #[trigger] rest[i].0,
                #[trigger] rest[j].0,
            ) by {
                assert(rest[i] == members[i + 1]);
                assert(rest[j] == members[j + 1]);
            }
        }
        lemma_member_get_put_other(rest, k, other, v);
        let put = member_put(members, k, v);
        assert(put.drop_first() =~= member_put(rest, k, v));
    }
}

/// Where the key `k` belongs among `members` (which are in key order): the index
/// of the first member whose key is `k` or comes after it, and whether that key is `k`.
pub fn member_slot(members: &Vec<(String, JsonValue)>, key: &String, k: &Vec<char>) -> (r: (
    usize,
    bool,
))
    requires
        k@ == key@,
    ensures
        r.0 <= members@.len(),
        forall|j: int|
            0 <= j < r.0 ==> members@[j].0@ != k@ && !key_before(k@, #[trigger] members@[j].0@),
        r.1 ==> r.0 < members@.len() && members@[r.0 as int].0@ == k@,
        !r.1 ==> r.0 == members@.len() || key_before(k@, members@[r.0 as int].0@),
{
    let mut i: usize = 0;
    while i < members.len()
        invariant
            i <= members@.len(),
            k@ == key@,
            forall|j: int|
                0 <= j < i ==> members@[j].0@ != k@ && !key_before(k@, #[trigger] members@[j].0@),
        decreases members@.len() - i,
    {
        if members[i].0 == *key {
            return (i, true);
        }
        let here = chars_of(members[i].0.as_str());
        if key_before_exec(k, &here) {
            return (i, false);
        }
        i = i + 1;
    }
    (i, false)
}

} // verus!
