//! The value model: what a parsed document is.

use vstd::prelude::*;
use vstd::string::*;
use vstd::utf8::*;

verus! {

/// A number literal with a decimal point, kept as it was written: its sign
/// and the decimal digits (each `0` to `9`, most significant first) before
/// and after the point. It stands for the number
/// `± (integer digits . fraction digits)`.
#[derive(Debug, PartialEq, Eq)]
pub struct Decimal {
    negative: bool,
    integer: Vec<u8>,
    fraction: Vec<u8>,
}

/// A number: an integer where the literal had no decimal point, a decimal
/// where it had one.
#[derive(Debug, PartialEq, Eq)]
pub enum Num {
    Int(i64),
    Float(Decimal),
}

/// A value. In one that was parsed, the members of an object stand in the
/// order in which their keys first appeared, and no key occurs twice.
///
/// Two values are `==` when they are the same in the sense of
/// `equality::same_value`, for which the order of members does not count.
#[derive(Debug)]
pub enum JsonValue {
    Null,
    Bool(bool),
    Number(Num),
    String(String),
    Array(Vec<JsonValue>),
    Object(Vec<Member>),
}

/// One member of an object: a key and the value it maps to.
#[derive(Debug, PartialEq, Eq)]
pub struct Member {
    pub key: String,
    pub value: JsonValue,
}

/// The mathematical counterpart of [`Decimal`].
pub struct DecimalView {
    pub negative: bool,
    pub integer: Seq<u8>,
    pub fraction: Seq<u8>,
}

/// The mathematical counterpart of [`Num`].
pub enum NumView {
    Int(int),
    Float(DecimalView),
}

/// The mathematical counterpart of [`JsonValue`].
pub enum ValueView {
    Null,
    Bool(bool),
    Number(NumView),
    String(Seq<char>),
    Array(Seq<ValueView>),
    Object(Seq<(Seq<char>, ValueView)>),
}

/// The index of the first member with the given key, if there is one.
pub open spec fn index_of_key(members: Seq<(Seq<char>, ValueView)>, key: Seq<char>) -> Option<
    int,
>
    decreases members.len(),
{
    if members.len() == 0 {
        None
    } else if index_of_key(members.drop_last(), key) is Some {
        index_of_key(members.drop_last(), key)
    } else if members.last().0 == key {
        Some(members.len() - 1)
    } else {
        None
    }
}

/// What `index_of_key` returns, stated without recursion: the first index
/// at which the key stands.
pub proof fn lemma_index_of_key(members: Seq<(Seq<char>, ValueView)>, key: Seq<char>)
    ensures
        match index_of_key(members, key) {
            Some(i) => {
                &&& 0 <= i < members.len()
                &&& members[i].0 == key
                &&& forall|j: int| 0 <= j < i ==> members[j].0 != key
            },
            None => forall|j: int| 0 <= j < members.len() ==> members[j].0 != key,
        },
    decreases members.len(),
{
    if members.len() > 0 {
        let front = members.drop_last();
        lemma_index_of_key(front, key);
        assert(forall|j: int| 0 <= j < front.len() ==> front[j] == members[j]);
    }
}

/// The members with `key` mapped to `value`: in place of what it was mapped
/// to, where the key is there already, and at the end otherwise.
pub open spec fn with_member(
    members: Seq<(Seq<char>, ValueView)>,
    key: Seq<char>,
    value: ValueView,
) -> Seq<(Seq<char>, ValueView)> {
    match index_of_key(members, key) {
        Some(i) => members.update(i, (key, value)),
        None => members.push((key, value)),
    }
}

/// The values that the grammar can express within `depth` levels of
/// nesting: integers other than `i64::MIN`, decimals with digits on both
/// sides of the point, strings without a quote, and arrays and objects that
/// are not empty, hold such values, and have each key once.
pub open spec fn well_formed(v: ValueView, depth: nat) -> bool
    decreases v,
{
    match v {
        ValueView::Null => true,
        ValueView::Bool(_) => true,
        ValueView::Number(NumView::Int(i)) => -i64::MAX <= i <= i64::MAX,
        ValueView::Number(NumView::Float(d)) => d.is_valid(),
        ValueView::String(s) => !s.contains('"'),
        ValueView::Array(items) => {
            &&& depth > 0
            &&& items.len() > 0
            &&& forall|i: int|
                0 <= i < items.len() ==> well_formed(#[trigger] items[i], (depth - 1) as nat)
        },
        ValueView::Object(members) => {
            &&& depth > 0
            &&& members.len() > 0
            &&& forall|i: int|
                0 <= i < members.len() ==> !(#[trigger] members[i]).0.contains('"')
                    && well_formed(members[i].1, (depth - 1) as nat)
            &&& forall|i: int, j: int|
                0 <= i < j < members.len() ==> (#[trigger] members[i]).0 != (
                #[trigger] members[j]).0
        },
    }
}

impl DecimalView {
    /// There is a digit before the point and one after it, and every digit
    /// is at most 9.
    pub open spec fn is_valid(self) -> bool {
        &&& self.integer.len() > 0
        &&& self.fraction.len() > 0
        &&& forall|i: int| 0 <= i < self.integer.len() ==> #[trigger] self.integer[i] <= 9
        &&& forall|i: int| 0 <= i < self.fraction.len() ==> #[trigger] self.fraction[i] <= 9
    }
}

impl View for Decimal {
    type V = DecimalView;

    closed spec fn view(&self) -> DecimalView {
        DecimalView { negative: self.negative, integer: self.integer@, fraction: self.fraction@ }
    }
}

impl Clone for Decimal {
    fn clone(&self) -> (copy: Decimal)
        ensures
            copy@ == self@,
    {
        proof {
            use_type_invariant(self);
        }
        let integer = self.integer.clone();
        let fraction = self.fraction.clone();
        assert(integer@ == self.integer@);
        assert(fraction@ == self.fraction@);
        Decimal { negative: self.negative, integer, fraction }
    }
}

/// Whether every digit of `digits` is at most 9.
fn all_digits(digits: &Vec<u8>) -> (yes: bool)
    ensures
        yes <==> forall|i: int| 0 <= i < digits@.len() ==> #[trigger] digits@[i] <= 9,
{
    let mut i: usize = 0;
    while i < digits.len()
        invariant
            i <= digits@.len(),
            forall|k: int| 0 <= k < i ==> #[trigger] digits@[k] <= 9,
        decreases digits@.len() - i,
    {
        if digits[i] > 9 {
            return false;
        }
        i += 1;
    }
    true
}

impl Decimal {
    #[verifier::type_invariant]
    spec fn well_formed(&self) -> bool {
        self@.is_valid()
    }

    /// The decimal with the given sign and digits, if there is a digit
    /// before the point and one after it, and every digit is at most 9.
    pub fn new(negative: bool, integer: Vec<u8>, fraction: Vec<u8>) -> (made: Option<Decimal>)
        ensures
            match made {
                Some(d) => d@ == (DecimalView {
                    negative,
                    integer: integer@,
                    fraction: fraction@,
                }) && d@.is_valid(),
                None => !(DecimalView { negative, integer: integer@, fraction: fraction@ }).is_valid(),
            },
    {
        if integer.len() > 0 && fraction.len() > 0 && all_digits(&integer) && all_digits(&fraction) {
            Some(Decimal { negative, integer, fraction })
        } else {
            None
        }
    }

    /// Whether the literal had a minus sign.
    pub fn is_negative(&self) -> (negative: bool)
        ensures
            negative == self@.negative,
            self@.is_valid(),
    {
        proof {
            use_type_invariant(self);
        }
        self.negative
    }

    /// The digits before the point.
    pub fn integer_digits(&self) -> (digits: &Vec<u8>)
        ensures
            digits@ == self@.integer,
            self@.is_valid(),
    {
        proof {
            use_type_invariant(self);
        }
        &self.integer
    }

    /// The digits after the point.
    pub fn fraction_digits(&self) -> (digits: &Vec<u8>)
        ensures
            digits@ == self@.fraction,
            self@.is_valid(),
    {
        proof {
            use_type_invariant(self);
        }
        &self.fraction
    }
}

impl View for Num {
    type V = NumView;

    open spec fn view(&self) -> NumView {
        match self {
            Num::Int(i) => NumView::Int(*i as int),
            Num::Float(d) => NumView::Float(d@),
        }
    }
}

/// The views of the elements of an array, in order.
pub open spec fn element_views(items: Seq<JsonValue>) -> Seq<ValueView>
    decreases items,
{
    Seq::new(
        items.len(),
        |i: int|
            if 0 <= i < items.len() {
                items[i]@
            } else {
                ValueView::Null
            },
    )
}

/// The views of the members of an object, in order.
pub open spec fn member_views(members: Seq<Member>) -> Seq<(Seq<char>, ValueView)>
    decreases members,
{
    Seq::new(
        members.len(),
        |i: int|
            if 0 <= i < members.len() {
                (members[i].key@, members[i].value@)
            } else {
                (Seq::empty(), ValueView::Null)
            },
    )
}

impl View for JsonValue {
    type V = ValueView;

    open spec fn view(&self) -> ValueView
        decreases self,
    {
        match self {
            JsonValue::Null => ValueView::Null,
            JsonValue::Bool(b) => ValueView::Bool(*b),
            JsonValue::Number(n) => ValueView::Number(n@),
            JsonValue::String(s) => ValueView::String(s@),
            JsonValue::Array(items) => ValueView::Array(element_views(items@)),
            JsonValue::Object(members) => ValueView::Object(member_views(members@)),
        }
    }
}

/// What an object maps `key` to. Only an object maps anything.
pub open spec fn lookup(v: ValueView, key: Seq<char>) -> Option<ValueView> {
    match v {
        ValueView::Object(members) => match index_of_key(members, key) {
            Some(i) => Some(members[i].1),
            None => None,
        },
        _ => None,
    }
}

/// Whether two texts are the same.
fn same_text(a: &str, b: &str) -> (same: bool)
    ensures
        same == (a@ == b@),
{
    broadcast use encode_utf8_decode_utf8;

    let left = a.as_bytes();
    let right = b.as_bytes();
    if left.len() != right.len() {
        return false;
    }
    let mut i: usize = 0;
    while i < left.len()
        invariant
            left@ == a.spec_bytes(),
            right@ == b.spec_bytes(),
            left@.len() == right@.len(),
            i <= left@.len(),
            forall|k: int| 0 <= k < i ==> left@[k] == right@[k],
        decreases left@.len() - i,
    {
        if left[i] != right[i] {
            return false;
        }
        i += 1;
    }
    assert(a.spec_bytes() =~= b.spec_bytes());
    assert(decode_utf8(a.spec_bytes()) == a@);
    assert(decode_utf8(b.spec_bytes()) == b@);
    true
}

/// The index of the first member with the given key, if there is one.
pub(crate) fn position_of(members: &Vec<Member>, key: &str) -> (found: Option<usize>)
    ensures
        match found {
            Some(i) => index_of_key(member_views(members@), key@) == Some(i as int)
                && i < members@.len(),
            None => index_of_key(member_views(members@), key@) is None,
        },
{
    let ghost views = member_views(members@);
    proof {
        lemma_index_of_key(views, key@);
    }
    let mut i: usize = 0;
    while i < members.len()
        invariant
            views == member_views(members@),
            i <= members@.len(),
            forall|k: int| 0 <= k < i ==> views[k].0 != key@,
        decreases members@.len() - i,
    {
        assert(views[i as int] == (members@[i as int].key@, members@[i as int].value@));
        if same_text(members[i].key.as_str(), key) {
            proof {
                lemma_index_of_key(views, key@);
            }
            return Some(i);
        }
        i += 1;
    }
    proof {
        lemma_index_of_key(views, key@);
    }
    None
}

impl JsonValue {
    /// The value that this object maps `key` to, if this is an object and
    /// has the key.
    pub fn get(&self, key: &str) -> (found: Option<&JsonValue>)
        ensures
            match found {
                Some(value) => lookup(self@, key@) == Some(value@),
                None => lookup(self@, key@) is None,
            },
    {
        match self {
            JsonValue::Object(members) => match position_of(members, key) {
                Some(i) => Some(&members[i].value),
                None => None,
            },
            _ => None,
        }
    }
}

impl Clone for Num {
    fn clone(&self) -> (copy: Num)
        ensures
            copy@ == self@,
    {
        match self {
            Num::Int(i) => Num::Int(*i),
            Num::Float(d) => Num::Float(d.clone()),
        }
    }
}

impl Clone for JsonValue {
    #[verifier::loop_isolation(false)]
    fn clone(&self) -> (copy: JsonValue)
        ensures
            copy@ == self@,
        decreases self,
    {
        match self {
            JsonValue::Null => JsonValue::Null,
            JsonValue::Bool(b) => JsonValue::Bool(*b),
            JsonValue::Number(n) => JsonValue::Number(n.clone()),
            JsonValue::String(s) => JsonValue::String(s.clone()),
            JsonValue::Array(items) => {
                let mut copies: Vec<JsonValue> = Vec::with_capacity(items.len());
                let mut i: usize = 0;
                while i < items.len()
                    invariant
                        i <= items@.len(),
                        copies@.len() == i,
                        forall|k: int| 0 <= k < i ==> (#[trigger] copies@[k])@ == items@[k]@,
                    decreases items@.len() - i,
                {
                    copies.push(items[i].clone());
                    i += 1;
                }
                assert(element_views(copies@) == element_views(items@));
                JsonValue::Array(copies)
            },
            JsonValue::Object(members) => {
                let mut copies: Vec<Member> = Vec::with_capacity(members.len());
                let mut i: usize = 0;
                while i < members.len()
                    invariant
                        i <= members@.len(),
                        copies@.len() == i,
                        forall|k: int|
                            0 <= k < i ==> (#[trigger] copies@[k]).key@ == members@[k].key@
                                && copies@[k].value@ == members@[k].value@,
                    decreases members@.len() - i,
                {
                    let key = members[i].key.clone();
                    let value = members[i].value.clone();
                    copies.push(Member { key, value });
                    i += 1;
                }
                assert(member_views(copies@) == member_views(members@));
                JsonValue::Object(copies)
            },
        }
    }
}

impl Clone for Member {
    fn clone(&self) -> (copy: Member)
        ensures
            copy.key@ == self.key@,
            copy.value@ == self.value@,
    {
        Member { key: self.key.clone(), value: self.value.clone() }
    }
}

} // verus!
