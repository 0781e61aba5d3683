//! Metadata filters over JSON payloads.
//!
//! A filter is a tree: leaves compare one field of the payload with a
//! value, inner nodes join sub-filters with AND or OR. Fields are named in
//! dot notation. A leaf on an absent field is false.

use vstd::prelude::*;
use vstd::utf8::*;
use vstd::string::*;

verus! {

/// The outcome of comparing two values.
#[derive(Debug, Clone, Copy, PartialEq, Eq, Structural)]
pub enum Order {
    /// The first is smaller.
    Less,
    /// They are equal.
    Equal,
    /// The first is larger.
    Greater,
}

/// A JSON value. A number is held as the bit pattern of its
/// double-precision value.
#[derive(Debug)]
pub enum Json {
    /// `null`.
    Null,
    /// `true` or `false`.
    Bool(bool),
    /// A number, by the bits of its IEEE-754 double-precision value.
    Number(u64),
    /// A string.
    String(String),
    /// An array.
    Array(Vec<Json>),
    /// An object: its members in order, each a name and a value.
    Object(Vec<(String, Json)>),
}

/// The order of two integers.
pub open spec fn order_of(a: int, b: int) -> Order {
    if a < b {
        Order::Less
    } else if a == b {
        Order::Equal
    } else {
        Order::Greater
    }
}

/// Whether a double-precision bit pattern is not a number.
pub open spec fn is_nan_bits(b: u64) -> bool {
    (b & 0x7FFF_FFFF_FFFF_FFFFu64) > 0x7FF0_0000_0000_0000u64
}

/// The rank of a double-precision bit pattern among all numbers: larger
/// numbers rank higher, and both zeros rank the same.
pub open spec fn number_rank(b: u64) -> u64 {
    if b == 0x8000_0000_0000_0000u64 {
        0x8000_0000_0000_0000u64
    } else if b & 0x8000_0000_0000_0000u64 != 0 {
        !b
    } else {
        b | 0x8000_0000_0000_0000u64
    }
}

/// The order of two numbers given by their bit patterns; none when either
/// is not a number.
pub open spec fn number_order(a: u64, b: u64) -> Option<Order> {
    if is_nan_bits(a) || is_nan_bits(b) {
        None
    } else {
        Some(order_of(number_rank(a) as int, number_rank(b) as int))
    }
}

/// The lexicographic order of two byte strings.
pub open spec fn bytes_order(a: Seq<u8>, b: Seq<u8>) -> Order
    decreases a.len(),
{
    if a.len() == 0 {
        if b.len() == 0 {
            Order::Equal
        } else {
            Order::Less
        }
    } else if b.len() == 0 {
        Order::Greater
    } else if a[0] < b[0] {
        Order::Less
    } else if a[0] > b[0] {
        Order::Greater
    } else {
        bytes_order(a.drop_first(), b.drop_first())
    }
}

/// The order of two texts: that of their UTF-8 bytes.
pub open spec fn text_order(a: Seq<char>, b: Seq<char>) -> Order {
    bytes_order(encode_utf8(a), encode_utf8(b))
}

/// The order of two booleans: `false` before `true`.
pub open spec fn bool_order(a: bool, b: bool) -> Order {
    order_of(if a { 1 } else { 0 }, if b { 1 } else { 0 })
}

/// Byte strings are in equal order exactly when they are the same.
pub proof fn lemma_bytes_order_equal(a: Seq<u8>, b: Seq<u8>)
    ensures
        bytes_order(a, b) == Order::Equal <==> a == b,
    decreases a.len(),
{
    if a.len() == 0 || b.len() == 0 {
        if a.len() == 0 && b.len() == 0 {
            assert(a =~= b);
        }
    } else if a[0] == b[0] {
        lemma_bytes_order_equal(a.drop_first(), b.drop_first());
        if a.drop_first() == b.drop_first() {
            assert(a =~= seq![a[0]] + a.drop_first());
            assert(b =~= seq![b[0]] + b.drop_first());
        }
    }
}

/// Texts are in equal order exactly when they are the same.
pub proof fn lemma_text_order_equal(a: Seq<char>, b: Seq<char>)
    ensures
        text_order(a, b) == Order::Equal <==> a == b,
{
    broadcast use encode_utf8_decode_utf8;

    lemma_bytes_order_equal(encode_utf8(a), encode_utf8(b));
    assert(decode_utf8(encode_utf8(a)) == a);
    assert(decode_utf8(encode_utf8(b)) == b);
}

/// The members of an object as they are compared.
pub open spec fn member_name(m: (String, Json)) -> Seq<u8> {
    encode_utf8(m.0@)
}

impl Json {
    /// Whether no number inside this value is a NaN pattern. JSON text
    /// cannot express such a number.
    pub open spec fn wf(&self) -> bool
        decreases self,
    {
        match self {
            Json::Number(b) => !is_nan_bits(*b),
            Json::Array(items) => forall|i: int|
                0 <= i < items@.len() ==> (#[trigger] items@[i]).wf(),
            Json::Object(members) => forall|i: int|
                0 <= i < members@.len() ==> (#[trigger] members@[i]).1.wf(),
            _ => true,
        }
    }

    /// Equality of values: numbers by their numeric value, strings by
    /// their text, arrays item by item, objects member by member in order.
    pub open spec fn same(&self, other: &Json) -> bool
        decreases self,
    {
        match (self, other) {
            (Json::Null, Json::Null) => true,
            (Json::Bool(a), Json::Bool(b)) => a == b,
            (Json::Number(a), Json::Number(b)) => number_order(*a, *b) == Some(Order::Equal),
            (Json::String(a), Json::String(b)) => a@ == b@,
            (Json::Array(a), Json::Array(b)) => a@.len() == b@.len() && forall|i: int|
                0 <= i < a@.len() ==> (#[trigger] a@[i]).same(&b@[i]),
            (Json::Object(a), Json::Object(b)) => a@.len() == b@.len() && forall|i: int|
                0 <= i < a@.len() ==> (#[trigger] a@[i]).0@ == b@[i].0@ && a@[i].1.same(
                    &b@[i].1,
                ),
            _ => false,
        }
    }

    /// The order of two values, where they can be ordered: numbers by
    /// value, strings lexicographically, booleans `false` before `true`.
    /// Values of different kinds, and nulls, arrays and objects, cannot.
    pub open spec fn order(&self, other: &Json) -> Option<Order> {
        match (self, other) {
            (Json::Number(a), Json::Number(b)) => number_order(*a, *b),
            (Json::String(a), Json::String(b)) => Some(text_order(a@, b@)),
            (Json::Bool(a), Json::Bool(b)) => Some(bool_order(*a, *b)),
            _ => None,
        }
    }
}

/// The value of the first member named `name`.
pub open spec fn member_of(members: Seq<(String, Json)>, name: Seq<u8>) -> Option<Json>
    decreases members.len(),
{
    if members.len() == 0 {
        None
    } else if member_name(members[0]) == name {
        Some(members[0].1)
    } else {
        member_of(members.drop_first(), name)
    }
}

/// The offset of the first dot in `path`, or its length if it has none.
pub open spec fn first_dot(path: Seq<u8>) -> int
    decreases path.len(),
{
    if path.len() == 0 {
        0
    } else if path[0] == 46u8 {
        0
    } else {
        1 + first_dot(path.drop_first())
    }
}

/// The value that the dotted `path` leads to inside `value`. Each part
/// between dots names a member of the object reached so far; a part that
/// names no member, or a value on the way that is no object, gives
/// nothing.
pub open spec fn field_of(value: Json, path: Seq<u8>) -> Option<Json>
    decreases path.len(),
{
    let k = first_dot(path);
    match value {
        Json::Object(members) => match member_of(members@, path.take(k)) {
            Some(child) => if k < 0 || k >= path.len() {
                Some(child)
            } else {
                field_of(child, path.skip(k + 1))
            },
            None => None,
        },
        _ => None,
    }
}

/// A dot at `k` with none before it is the first dot.
pub proof fn lemma_first_dot_at(path: Seq<u8>, k: int)
    requires
        0 <= k <= path.len(),
        k < path.len() ==> path[k] == 46u8,
        forall|i: int| 0 <= i < k ==> path[i] != 46u8,
    ensures
        first_dot(path) == k,
    decreases k,
{
    if k > 0 {
        lemma_first_dot_at(path.drop_first(), k - 1);
    }
}

/// Whether two byte strings are the same.
pub fn bytes_eq(a: &[u8], b: &[u8]) -> (r: bool)
    ensures
        r == (a@ == b@),
{
    if a.len() != b.len() {
        return false;
    }
    let mut i: usize = 0;
    while i < a.len()
        invariant
            i <= a@.len(),
            a@.len() == b@.len(),
            forall|j: int| 0 <= j < i ==> a@[j] == b@[j],
        decreases a@.len() - i,
    {
        if a[i] != b[i] {
            return false;
        }
        i += 1;
    }
    assert(a@ =~= b@);
    true
}

/// The lexicographic order of two byte strings.
pub fn compare_bytes(a: &[u8], b: &[u8]) -> (r: Order)
    ensures
        r == bytes_order(a@, b@),
{
    let mut i: usize = 0;
    assert(a@.skip(0) =~= a@);
    assert(b@.skip(0) =~= b@);
    while i < a.len() && i < b.len()
        invariant
            i <= a@.len(),
            i <= b@.len(),
            bytes_order(a@, b@) == bytes_order(a@.skip(i as int), b@.skip(i as int)),
        decreases a@.len() - i,
    {
        assert(a@.skip(i as int)[0] == a@[i as int]);
        assert(b@.skip(i as int)[0] == b@[i as int]);
        assert(a@.skip(i as int).drop_first() =~= a@.skip(i as int + 1));
        assert(b@.skip(i as int).drop_first() =~= b@.skip(i as int + 1));
        if a[i] < b[i] {
            return Order::Less;
        }
        if a[i] > b[i] {
            return Order::Greater;
        }
        i += 1;
    }
    if i < b.len() {
        Order::Less
    } else if i < a.len() {
        Order::Greater
    } else {
        Order::Equal
    }
}

/// The order of two numbers given by their bit patterns.
pub fn compare_numbers(a: u64, b: u64) -> (r: Option<Order>)
    ensures
        r == number_order(a, b),
{
    if (a & 0x7FFF_FFFF_FFFF_FFFFu64) > 0x7FF0_0000_0000_0000u64 || (b
        & 0x7FFF_FFFF_FFFF_FFFFu64) > 0x7FF0_0000_0000_0000u64 {
        return None;
    }
    let x = rank_number(a);
    let y = rank_number(b);
    if x < y {
        Some(Order::Less)
    } else if x == y {
        Some(Order::Equal)
    } else {
        Some(Order::Greater)
    }
}

/// The rank of a number given by its bit pattern.
pub fn rank_number(b: u64) -> (r: u64)
    ensures
        r == number_rank(b),
{
    if b == 0x8000_0000_0000_0000u64 {
        0x8000_0000_0000_0000u64
    } else if b & 0x8000_0000_0000_0000u64 != 0 {
        !b
    } else {
        b | 0x8000_0000_0000_0000u64
    }
}

/// The order of two values, where they can be ordered.
pub fn compare_values(a: &Json, b: &Json) -> (r: Option<Order>)
    ensures
        r == a.order(b),
{
    match (a, b) {
        (Json::Number(x), Json::Number(y)) => compare_numbers(*x, *y),
        (Json::String(s), Json::String(t)) => Some(
            compare_bytes(s.as_str().as_bytes(), t.as_str().as_bytes()),
        ),
        (Json::Bool(p), Json::Bool(q)) => {
            if *p == *q {
                Some(Order::Equal)
            } else if *q {
                Some(Order::Less)
            } else {
                Some(Order::Greater)
            }
        },
        _ => None,
    }
}

/// Equality of two values, numbers compared by value.
#[verifier::loop_isolation(false)]
pub fn values_equal(a: &Json, b: &Json) -> (r: bool)
    ensures
        r == a.same(b),
    decreases a,
{
    match (a, b) {
        (Json::Null, Json::Null) => true,
        (Json::Bool(p), Json::Bool(q)) => *p == *q,
        (Json::Number(x), Json::Number(y)) => {
            match compare_numbers(*x, *y) {
                Some(Order::Equal) => true,
                _ => false,
            }
        },
        (Json::String(s), Json::String(t)) => crate::codec::text_eq(s.as_str(), t.as_str()),
        (Json::Array(xs), Json::Array(ys)) => {
            if xs.len() != ys.len() {
                return false;
            }
            let mut i: usize = 0;
            while i < xs.len()
                invariant
                    i <= xs@.len(),
                    forall|j: int| 0 <= j < i ==> (#[trigger] xs@[j]).same(&ys@[j]),
                decreases xs@.len() - i,
            {
                if !values_equal(&xs[i], &ys[i]) {
                    return false;
                }
                i += 1;
            }
            true
        },
        (Json::Object(xs), Json::Object(ys)) => {
            if xs.len() != ys.len() {
                return false;
            }
            let mut i: usize = 0;
            while i < xs.len()
                invariant
                    i <= xs@.len(),
                    forall|j: int|
                        0 <= j < i ==> (#[trigger] xs@[j]).0@ == ys@[j].0@ && xs@[j].1.same(
                            &ys@[j].1,
                        ),
                decreases xs@.len() - i,
            {
                if !crate::codec::text_eq(xs[i].0.as_str(), ys[i].0.as_str()) {
                    return false;
                }
                if !values_equal(&xs[i].1, &ys[i].1) {
                    return false;
                }
                i += 1;
            }
            true
        },
        _ => false,
    }
}

/// The value of the first member named `name`.
fn find_member<'a>(members: &'a Vec<(String, Json)>, name: &[u8]) -> (r: Option<&'a Json>)
    ensures
        r is Some == member_of(members@, name@) is Some,
        r matches Some(v) ==> Some(*v) == member_of(members@, name@),
{
    let mut i: usize = 0;
    assert(members@.skip(0) =~= members@);
    while i < members.len()
        invariant
            i <= members@.len(),
            member_of(members@, name@) == member_of(members@.skip(i as int), name@),
        decreases members@.len() - i,
    {
        assert(members@.skip(i as int)[0] == members@[i as int]);
        assert(members@.skip(i as int).drop_first() =~= members@.skip(i as int + 1));
        if bytes_eq(members[i].0.as_str().as_bytes(), name) {
            return Some(&members[i].1);
        }
        i += 1;
    }
    None
}

/// Looks up a field of `payload` by its dotted path.
pub fn get_field<'a>(payload: &'a Json, field: &str) -> (r: Option<&'a Json>)
    ensures
        r is Some == field_of(*payload, encode_utf8(field@)) is Some,
        r matches Some(v) ==> Some(*v) == field_of(*payload, encode_utf8(field@)),
{
    let path = field.as_bytes();
    let mut current: &Json = payload;
    let mut start: usize = 0;
    assert(path@.skip(0) =~= path@);
    loop
        invariant
            start <= path@.len(),
            path@ == encode_utf8(field@),
            field_of(*payload, path@) == field_of(*current, path@.skip(start as int)),
        decreases path@.len() - start,
    {
        let ghost rest = path@.skip(start as int);
        let mut k: usize = start;
        while k < path.len() && path[k] != 46u8
            invariant
                start <= k <= path@.len(),
                forall|i: int| start <= i < k ==> path@[i] != 46u8,
            decreases path@.len() - k,
        {
            k += 1;
        }
        proof {
            assert forall|i: int| 0 <= i < k - start implies rest[i] != 46u8 by {
                assert(rest[i] == path@[start + i]);
            }
            lemma_first_dot_at(rest, k - start);
        }
        let part = vstd::slice::slice_subrange(path, start, k);
        assert(part@ =~= rest.take(k - start));
        let members = match current {
            Json::Object(ms) => ms,
            _ => { return None; },
        };
        let child = match find_member(members, part) {
            Some(c) => c,
            None => { return None; },
        };
        if k >= path.len() {
            return Some(child);
        }
        assert(rest.skip(k - start + 1) =~= path@.skip(k + 1));
        current = child;
        start = k + 1;
    }
}

/// A predicate on the payload of a document.
#[derive(Debug)]
pub enum Filter {
    /// The field equals the value.
    Eq { field: String, value: Json },
    /// The field is present and does not equal the value.
    Ne { field: String, value: Json },
    /// The field is greater than the value.
    Gt { field: String, value: Json },
    /// The field is greater than or equal to the value.
    Gte { field: String, value: Json },
    /// The field is less than the value.
    Lt { field: String, value: Json },
    /// The field is less than or equal to the value.
    Lte { field: String, value: Json },
    /// The field equals one of the values.
    In { field: String, values: Vec<Json> },
    /// Every sub-filter holds.
    And(Vec<Filter>),
    /// Some sub-filter holds.
    Or(Vec<Filter>),
}

/// The value that `payload` has at the dotted path `field`.
pub open spec fn leaf_value(payload: Json, field: Seq<char>) -> Option<Json> {
    field_of(payload, encode_utf8(field))
}

/// Whether `v` equals one of `values`.
pub open spec fn among(v: Json, values: Seq<Json>) -> bool {
    exists|i: int| 0 <= i < values.len() && v.same(&#[trigger] values[i])
}

impl Filter {
    /// Whether the filter holds of `payload`.
    ///
    /// A leaf on an absent field is false. An order leaf is false when the
    /// field and the value cannot be ordered. AND over no sub-filters is
    /// true, OR over none is false.
    pub open spec fn holds(&self, payload: Json) -> bool
        decreases self,
    {
        match self {
            Filter::Eq { field, value } => match leaf_value(payload, field@) {
                Some(v) => v.same(value),
                None => false,
            },
            Filter::Ne { field, value } => match leaf_value(payload, field@) {
                Some(v) => !v.same(value),
                None => false,
            },
            Filter::Gt { field, value } => match leaf_value(payload, field@) {
                Some(v) => v.order(value) == Some(Order::Greater),
                None => false,
            },
            Filter::Gte { field, value } => match leaf_value(payload, field@) {
                Some(v) => v.order(value) == Some(Order::Greater) || v.order(value) == Some(
                    Order::Equal,
                ),
                None => false,
            },
            Filter::Lt { field, value } => match leaf_value(payload, field@) {
                Some(v) => v.order(value) == Some(Order::Less),
                None => false,
            },
            Filter::Lte { field, value } => match leaf_value(payload, field@) {
                Some(v) => v.order(value) == Some(Order::Less) || v.order(value) == Some(
                    Order::Equal,
                ),
                None => false,
            },
            Filter::In { field, values } => match leaf_value(payload, field@) {
                Some(v) => among(v, values@),
                None => false,
            },
            Filter::And(filters) => forall|i: int|
                0 <= i < filters@.len() ==> (#[trigger] filters@[i]).holds(payload),
            Filter::Or(filters) => exists|i: int|
                0 <= i < filters@.len() && (#[trigger] filters@[i]).holds(payload),
        }
    }

    /// An equality filter.
    pub fn eq(field: &str, value: Json) -> (f: Filter)
        ensures
            f matches Filter::Eq { field: g, value: v } && g@ == field@ && v == value,
    {
        Filter::Eq { field: field.to_owned(), value }
    }

    /// An inequality filter.
    pub fn ne(field: &str, value: Json) -> (f: Filter)
        ensures
            f matches Filter::Ne { field: g, value: v } && g@ == field@ && v == value,
    {
        Filter::Ne { field: field.to_owned(), value }
    }

    /// A greater-than filter.
    pub fn gt(field: &str, value: Json) -> (f: Filter)
        ensures
            f matches Filter::Gt { field: g, value: v } && g@ == field@ && v == value,
    {
        Filter::Gt { field: field.to_owned(), value }
    }

    /// A greater-than-or-equal filter.
    pub fn gte(field: &str, value: Json) -> (f: Filter)
        ensures
            f matches Filter::Gte { field: g, value: v } && g@ == field@ && v == value,
    {
        Filter::Gte { field: field.to_owned(), value }
    }

    /// A less-than filter.
    pub fn lt(field: &str, value: Json) -> (f: Filter)
        ensures
            f matches Filter::Lt { field: g, value: v } && g@ == field@ && v == value,
    {
        Filter::Lt { field: field.to_owned(), value }
    }

    /// A less-than-or-equal filter.
    pub fn lte(field: &str, value: Json) -> (f: Filter)
        ensures
            f matches Filter::Lte { field: g, value: v } && g@ == field@ && v == value,
    {
        Filter::Lte { field: field.to_owned(), value }
    }

    /// A membership filter: the field equals one of `values`.
    pub fn in_(field: &str, values: Vec<Json>) -> (f: Filter)
        ensures
            f matches Filter::In { field: g, values: v } && g@ == field@ && v == values,
    {
        Filter::In { field: field.to_owned(), values }
    }

    /// The conjunction of `filters`.
    pub fn and(filters: Vec<Filter>) -> (f: Filter)
        ensures
            f == Filter::And(filters),
    {
        Filter::And(filters)
    }

    /// The disjunction of `filters`.
    pub fn or(filters: Vec<Filter>) -> (f: Filter)
        ensures
            f == Filter::Or(filters),
    {
        Filter::Or(filters)
    }

    /// Decides whether the filter holds of `payload`.
    #[verifier::loop_isolation(false)]
    pub fn evaluate(&self, payload: &Json) -> (r: bool)
        ensures
            r == self.holds(*payload),
        decreases self,
    {
        match self {
            Filter::Eq { field, value } => {
                match get_field(payload, field.as_str()) {
                    Some(v) => values_equal(v, value),
                    None => false,
                }
            },
            Filter::Ne { field, value } => {
                match get_field(payload, field.as_str()) {
                    Some(v) => !values_equal(v, value),
                    None => false,
                }
            },
            Filter::Gt { field, value } => {
                match get_field(payload, field.as_str()) {
                    Some(v) => match compare_values(v, value) {
                        Some(Order::Greater) => true,
                        _ => false,
                    },
                    None => false,
                }
            },
            Filter::Gte { field, value } => {
                match get_field(payload, field.as_str()) {
                    Some(v) => match compare_values(v, value) {
                        Some(Order::Greater) => true,
                        Some(Order::Equal) => true,
                        _ => false,
                    },
                    None => false,
                }
            },
            Filter::Lt { field, value } => {
                match get_field(payload, field.as_str()) {
                    Some(v) => match compare_values(v, value) {
                        Some(Order::Less) => true,
                        _ => false,
                    },
                    None => false,
                }
            },
            Filter::Lte { field, value } => {
                match get_field(payload, field.as_str()) {
                    Some(v) => match compare_values(v, value) {
                        Some(Order::Less) => true,
                        Some(Order::Equal) => true,
                        _ => false,
                    },
                    None => false,
                }
            },
            Filter::In { field, values } => {
                match get_field(payload, field.as_str()) {
                    Some(v) => {
                        let mut i: usize = 0;
                        while i < values.len()
                            invariant
                                i <= values@.len(),
                                forall|j: int| 0 <= j < i ==> !v.same(&#[trigger] values@[j]),
                            decreases values@.len() - i,
                        {
                            if values_equal(v, &values[i]) {
                                return true;
                            }
                            i += 1;
                        }
                        false
                    },
                    None => false,
                }
            },
            Filter::And(filters) => {
                let mut i: usize = 0;
                while i < filters.len()
                    invariant
                        i <= filters@.len(),
                        forall|j: int| 0 <= j < i ==> (#[trigger] filters@[j]).holds(*payload),
                    decreases filters@.len() - i,
                {
                    if !filters[i].evaluate(payload) {
                        return false;
                    }
                    i += 1;
                }
                true
            },
            Filter::Or(filters) => {
                let mut i: usize = 0;
                while i < filters.len()
                    invariant
                        i <= filters@.len(),
                        forall|j: int| 0 <= j < i ==> !(#[trigger] filters@[j]).holds(*payload),
                    decreases filters@.len() - i,
                {
                    if filters[i].evaluate(payload) {
                        return true;
                    }
                    i += 1;
                }
                false
            },
        }
    }
}

/// Whether a filter lets a document with the given payload through: with
/// no filter every document passes; with a filter, a document without a
/// payload does not, and one with a payload passes if the filter holds.
pub open spec fn passes(filter: Option<Filter>, payload: Option<Json>) -> bool {
    match filter {
        None => true,
        Some(f) => match payload {
            Some(p) => f.holds(p),
            None => false,
        },
    }
}

/// Decides whether a document with the given payload passes the filter.
pub fn admits(filter: Option<&Filter>, payload: Option<&Json>) -> (r: bool)
    ensures
        r == passes(
            match filter {
                Some(f) => Some(*f),
                None => None,
            },
            match payload {
                Some(p) => Some(*p),
                None => None,
            },
        ),
{
    match filter {
        None => true,
        Some(f) => match payload {
            Some(p) => f.evaluate(p),
            None => false,
        },
    }
}

/// AND over no sub-filters holds of every payload.
pub proof fn law_and_empty(filters: Vec<Filter>, payload: Json)
    requires
        filters@.len() == 0,
    ensures
        Filter::And(filters).holds(payload),
{
}

/// OR over no sub-filters holds of no payload.
pub proof fn law_or_empty(filters: Vec<Filter>, payload: Json)
    requires
        filters@.len() == 0,
    ensures
        !Filter::Or(filters).holds(payload),
{
}

/// Two values that can be ordered are in equal order exactly when they
/// are equal.
pub proof fn lemma_order_equal(a: Json, b: Json)
    requires
        a.order(&b) is Some,
    ensures
        a.order(&b) == Some(Order::Equal) <==> a.same(&b),
{
    match (a, b) {
        (Json::String(s), Json::String(t)) => {
            lemma_text_order_equal(s@, t@);
        },
        _ => {},
    }
}

/// Greater-or-equal is greater or equal: on every payload whose field is
/// absent, can be ordered against the value, or does not equal it.
/// (A null, array or object equal to the value is equal to it but not
/// ordered against it.)
pub proof fn law_gte_is_gt_or_eq(field: String, value: Json, payload: Json)
    requires
        leaf_value(payload, field@) matches Some(v) ==> v.order(&value) is Some || !v.same(
            &value,
        ),
    ensures
        (Filter::Gte { field, value }).holds(payload) == ((Filter::Gt { field, value }).holds(
            payload,
        ) || (Filter::Eq { field, value }).holds(payload)),
{
    match leaf_value(payload, field@) {
        Some(v) => {
            if v.order(&value) is Some {
                lemma_order_equal(v, value);
            }
        },
        None => {},
    }
}

/// Less-or-equal is less or equal: on every payload whose field is
/// absent, can be ordered against the value, or does not equal it.
pub proof fn law_lte_is_lt_or_eq(field: String, value: Json, payload: Json)
    requires
        leaf_value(payload, field@) matches Some(v) ==> v.order(&value) is Some || !v.same(
            &value,
        ),
    ensures
        (Filter::Lte { field, value }).holds(payload) == ((Filter::Lt { field, value }).holds(
            payload,
        ) || (Filter::Eq { field, value }).holds(payload)),
{
    match leaf_value(payload, field@) {
        Some(v) => {
            if v.order(&value) is Some {
                lemma_order_equal(v, value);
            }
        },
        None => {},
    }
}

/// Equality is reflexive on numbers and strings.
pub proof fn law_equality_reflexive(v: Json)
    requires
        v.wf(),
        v is Number || v is String,
    ensures
        v.same(&v),
        v.order(&v) == Some(Order::Equal),
{
    match v {
        Json::String(s) => {
            lemma_text_order_equal(s@, s@);
        },
        _ => {},
    }
}

} // verus!
