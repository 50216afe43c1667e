//! When two values are the same. Objects are compared as mappings: what
//! counts is which keys they have and what each key is mapped to, not the
//! order of their members.

use crate::value::{
    element_views, index_of_key, lemma_index_of_key, member_views, position_of, JsonValue, Num,
    ValueView,
};
use vstd::prelude::*;
use vstd::std_specs::cmp::PartialEqSpecImpl;

verus! {

/// Two values are the same when they are of one kind and hold the same:
/// the same boolean, number or text; the same elements in the same order;
/// or the same keys, each mapped to the same value. A number is the same as
/// another only when both are integers or both are decimals, and decimals
/// only when they have the same sign and digits.
pub open spec fn same_value(a: ValueView, b: ValueView) -> bool
    decreases a,
{
    match (a, b) {
        (ValueView::Null, ValueView::Null) => true,
        (ValueView::Bool(x), ValueView::Bool(y)) => x == y,
        (ValueView::Number(x), ValueView::Number(y)) => x == y,
        (ValueView::String(x), ValueView::String(y)) => x == y,
        (ValueView::Array(xs), ValueView::Array(ys)) => {
            &&& xs.len() == ys.len()
            &&& forall|i: int| 0 <= i < xs.len() ==> same_value(#[trigger] xs[i], ys[i])
        },
        (ValueView::Object(ms), ValueView::Object(ns)) => {
            &&& forall|i: int|
                0 <= i < ms.len() && index_of_key(ms, (#[trigger] ms[i]).0) == Some(i) ==> {
                    &&& index_of_key(ns, ms[i].0) matches Some(j)
                    &&& same_value(ms[i].1, ns[j].1)
                }
            &&& forall|j: int|
                0 <= j < ns.len() ==> index_of_key(ms, (#[trigger] ns[j]).0) is Some
        },
        _ => false,
    }
}

/// Every value is the same as itself.
pub proof fn lemma_same_as_itself(v: ValueView)
    ensures
        same_value(v, v),
    decreases v,
{
    match v {
        ValueView::Array(xs) => {
            assert forall|i: int| 0 <= i < xs.len() implies same_value(#[trigger] xs[i], xs[i]) by {
                lemma_same_as_itself(xs[i]);
            }
        },
        ValueView::Object(ms) => {
            assert forall|i: int|
                0 <= i < ms.len() && index_of_key(ms, (#[trigger] ms[i]).0) == Some(
                    i,
                ) implies same_value(ms[i].1, ms[i].1) by {
                lemma_same_as_itself(ms[i].1);
            }
            assert forall|j: int| 0 <= j < ms.len() implies index_of_key(
                ms,
                (#[trigger] ms[j]).0,
            ) is Some by {
                lemma_index_of_key(ms, ms[j].0);
            }
        },
        _ => {},
    }
}

/// If one value is the same as another, the other is the same as the one.
pub proof fn lemma_same_both_ways(a: ValueView, b: ValueView)
    requires
        same_value(a, b),
    ensures
        same_value(b, a),
    decreases a,
{
    match (a, b) {
        (ValueView::Array(xs), ValueView::Array(ys)) => {
            assert forall|i: int| 0 <= i < ys.len() implies same_value(#[trigger] ys[i], xs[i]) by {
                lemma_same_both_ways(xs[i], ys[i]);
            }
        },
        (ValueView::Object(ms), ValueView::Object(ns)) => {
            assert forall|j: int|
                0 <= j < ns.len() && index_of_key(ns, (#[trigger] ns[j]).0) == Some(j) implies {
                &&& index_of_key(ms, ns[j].0) matches Some(i)
                &&& same_value(ns[j].1, ms[i].1)
            } by {
                let key = ns[j].0;
                lemma_index_of_key(ms, key);
                let i = index_of_key(ms, key)->Some_0;
                assert(index_of_key(ms, ms[i].0) == Some(i));
                lemma_same_both_ways(ms[i].1, ns[j].1);
            }
            assert forall|i: int| 0 <= i < ms.len() implies index_of_key(
                ns,
                (#[trigger] ms[i]).0,
            ) is Some by {
                let key = ms[i].0;
                lemma_index_of_key(ms, key);
                let first = index_of_key(ms, key)->Some_0;
                assert(index_of_key(ms, ms[first].0) == Some(first));
            }
        },
        _ => {},
    }
}

/// Two values that are the same as a third are the same.
pub proof fn lemma_same_carries_over(a: ValueView, b: ValueView, c: ValueView)
    requires
        same_value(a, b),
        same_value(b, c),
    ensures
        same_value(a, c),
    decreases a,
{
    match (a, b, c) {
        (ValueView::Array(xs), ValueView::Array(ys), ValueView::Array(zs)) => {
            assert forall|i: int| 0 <= i < xs.len() implies same_value(#[trigger] xs[i], zs[i]) by {
                lemma_same_carries_over(xs[i], ys[i], zs[i]);
            }
        },
        (ValueView::Object(ms), ValueView::Object(ns), ValueView::Object(os)) => {
            assert forall|i: int|
                0 <= i < ms.len() && index_of_key(ms, (#[trigger] ms[i]).0) == Some(i) implies {
                &&& index_of_key(os, ms[i].0) matches Some(l)
                &&& same_value(ms[i].1, os[l].1)
            } by {
                let key = ms[i].0;
                let j = index_of_key(ns, key)->Some_0;
                lemma_index_of_key(ns, key);
                assert(index_of_key(ns, ns[j].0) == Some(j));
                let l = index_of_key(os, key)->Some_0;
                lemma_same_carries_over(ms[i].1, ns[j].1, os[l].1);
            }
            assert forall|l: int| 0 <= l < os.len() implies index_of_key(
                ms,
                (#[trigger] os[l]).0,
            ) is Some by {
                let key = os[l].0;
                lemma_index_of_key(ns, key);
                let j = index_of_key(ns, key)->Some_0;
                assert(index_of_key(ms, ns[j].0) is Some);
            }
        },
        _ => {},
    }
}

/// Whether two runs of digits are the same.
fn same_digits(a: &Vec<u8>, b: &Vec<u8>) -> (same: bool)
    ensures
        same == (a@ == b@),
{
    if a.len() != b.len() {
        return false;
    }
    let mut i: usize = 0;
    while i < a.len()
        invariant
            a@.len() == b@.len(),
            i <= a@.len(),
            forall|k: int| 0 <= k < i ==> a@[k] == b@[k],
        decreases a@.len() - i,
    {
        if a[i] != b[i] {
            return false;
        }
        i += 1;
    }
    assert(a@ =~= b@);
    true
}

/// Whether two numbers are the same.
fn same_numbers(a: &Num, b: &Num) -> (same: bool)
    ensures
        same == (a@ == b@),
{
    match (a, b) {
        (Num::Int(x), Num::Int(y)) => *x == *y,
        (Num::Float(x), Num::Float(y)) => x.is_negative() == y.is_negative() && same_digits(
            x.integer_digits(),
            y.integer_digits(),
        ) && same_digits(x.fraction_digits(), y.fraction_digits()),
        _ => false,
    }
}

/// Whether two values are the same.
#[verifier::loop_isolation(false)]
fn same_values(a: &JsonValue, b: &JsonValue) -> (same: bool)
    ensures
        same == same_value(a@, b@),
    decreases a,
{
    match (a, b) {
        (JsonValue::Null, JsonValue::Null) => true,
        (JsonValue::Bool(x), JsonValue::Bool(y)) => *x == *y,
        (JsonValue::Number(x), JsonValue::Number(y)) => same_numbers(x, y),
        (JsonValue::String(x), JsonValue::String(y)) => *x == *y,
        (JsonValue::Array(xs), JsonValue::Array(ys)) => {
            if xs.len() != ys.len() {
                return false;
            }
            let mut i: usize = 0;
            while i < xs.len()
                invariant
                    i <= xs@.len(),
                    forall|k: int|
                        0 <= k < i ==> same_value(
                            #[trigger] element_views(xs@)[k],
                            element_views(ys@)[k],
                        ),
                decreases xs@.len() - i,
            {
                if !same_values(&xs[i], &ys[i]) {
                    assert(!same_value(element_views(xs@)[i as int], element_views(ys@)[i as int]));
                    return false;
                }
                i += 1;
            }
            true
        },
        (JsonValue::Object(ms), JsonValue::Object(ns)) => {
            let ghost left = member_views(ms@);
            let ghost right = member_views(ns@);
            let mut i: usize = 0;
            while i < ms.len()
                invariant
                    i <= ms@.len(),
                    forall|k: int|
                        0 <= k < i && index_of_key(left, (#[trigger] left[k]).0) == Some(k) ==> {
                            &&& index_of_key(right, left[k].0) matches Some(j)
                            &&& same_value(left[k].1, right[j].1)
                        },
                decreases ms@.len() - i,
            {
                let key = ms[i].key.as_str();
                assert(left[i as int] == (ms@[i as int].key@, ms@[i as int].value@));
                let first = position_of(ms, key);
                if first == Some(i) {
                    match position_of(ns, key) {
                        Some(j) => {
                            assert(right[j as int] == (ns@[j as int].key@, ns@[j as int].value@));
                            if !same_values(&ms[i].value, &ns[j].value) {
                                return false;
                            }
                        },
                        None => {
                            return false;
                        },
                    }
                }
                i += 1;
            }
            let mut j: usize = 0;
            while j < ns.len()
                invariant
                    j <= ns@.len(),
                    forall|k: int|
                        0 <= k < j ==> index_of_key(left, (#[trigger] right[k]).0) is Some,
                decreases ns@.len() - j,
            {
                assert(right[j as int] == (ns@[j as int].key@, ns@[j as int].value@));
                if position_of(ms, ns[j].key.as_str()).is_none() {
                    return false;
                }
                j += 1;
            }
            true
        },
        _ => false,
    }
}

impl PartialEq for JsonValue {
    fn eq(&self, other: &JsonValue) -> (same: bool) {
        same_values(self, other)
    }
}

impl PartialEqSpecImpl for JsonValue {
    open spec fn obeys_eq_spec() -> bool {
        true
    }

    open spec fn eq_spec(&self, other: &JsonValue) -> bool {
        same_value(self@, other@)
    }
}

impl Eq for JsonValue {

}

} // verus!
