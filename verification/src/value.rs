//! The value model: a closed union of scalars and nested collections, with a
//! structural equality under which sets ignore order, and a hash that agrees
//! with that equality.

use vstd::prelude::*;

verus! {

/// A value of the language. Values are immutable: changing a collection means
/// building a new one.
#[derive(Debug)]
pub enum Value {
    /// A 32-bit signed integer.
    Int(i32),
    /// A 64-bit floating point number, held as its IEEE-754 bit pattern.
    Float(u64),
    Bool(bool),
    Str(String),
    /// An ordered sequence.
    List(Vec<Value>),
    /// An unordered collection of unique values. The order of the vector
    /// carries no meaning.
    Members(Vec<Value>),
}

/// The mathematical model of a [`Value`].
pub ghost enum Val {
    Int(i32),
    Float(u64),
    Bool(bool),
    Str(Seq<char>),
    List(Seq<Val>),
    Members(Seq<Val>),
}

/// The models of a sequence of values, position by position.
pub open spec fn model_seq(items: Seq<Value>) -> Seq<Val>
    decreases items,
{
    Seq::new(
        items.len(),
        |i: int|
            if 0 <= i < items.len() {
                items[i].view()
            } else {
                Val::Bool(false)
            },
    )
}

impl View for Value {
    type V = Val;

    open spec fn view(&self) -> Val
        decreases self,
    {
        match self {
            Value::Int(i) => Val::Int(*i),
            Value::Float(bits) => Val::Float(*bits),
            Value::Bool(b) => Val::Bool(*b),
            Value::Str(s) => Val::Str(s@),
            Value::List(items) => Val::List(model_seq(items@)),
            Value::Members(items) => Val::Members(model_seq(items@)),
        }
    }
}

/// `x` equals some element of `ys`.
pub open spec fn occurs(x: Val, ys: Seq<Val>) -> bool
    decreases x, 1nat,
{
    exists|j: int| 0 <= j < ys.len() && x.same(#[trigger] ys[j])
}

/// Some element of `xs` equals `y`.
pub open spec fn covered(xs: Seq<Val>, y: Val) -> bool
    decreases xs, 1nat,
{
    exists|i: int| 0 <= i < xs.len() && (#[trigger] xs[i]).same(y)
}

/// The elements of a set after `v` is put into it: the same elements where
/// one of them equals `v`, else `v` after them.
pub open spec fn inserted(xs: Seq<Val>, v: Val) -> Seq<Val> {
    if covered(xs, v) {
        xs
    } else {
        xs.push(v)
    }
}

/// No two positions of `xs` hold equal values.
pub open spec fn distinct(xs: Seq<Val>) -> bool {
    forall|i: int, j: int|
        #![trigger xs[i].same(xs[j])]
        0 <= i < j < xs.len() ==> !xs[i].same(xs[j])
}

impl Val {
    /// Structural equality. Floats are equal when their bit patterns are;
    /// lists are equal position by position; sets are equal when they have the
    /// same size and each element of one equals an element of the other.
    pub open spec fn same(self, other: Val) -> bool
        decreases self, 0nat,
    {
        match (self, other) {
            (Val::Int(a), Val::Int(b)) => a == b,
            (Val::Float(a), Val::Float(b)) => a == b,
            (Val::Bool(a), Val::Bool(b)) => a == b,
            (Val::Str(a), Val::Str(b)) => a == b,
            (Val::List(xs), Val::List(ys)) => {
                &&& xs.len() == ys.len()
                &&& forall|i: int| 0 <= i < xs.len() ==> (#[trigger] xs[i]).same(ys[i])
            },
            (Val::Members(xs), Val::Members(ys)) => {
                &&& xs.len() == ys.len()
                &&& forall|i: int| 0 <= i < xs.len() ==> occurs(#[trigger] xs[i], ys)
                &&& forall|j: int| 0 <= j < ys.len() ==> covered(xs, #[trigger] ys[j])
            },
            _ => false,
        }
    }

    /// Every set inside the value, at any depth, holds no element twice.
    pub open spec fn wf(self) -> bool
        decreases self,
    {
        match self {
            Val::List(xs) => forall|i: int| 0 <= i < xs.len() ==> (#[trigger] xs[i]).wf(),
            Val::Members(xs) => {
                &&& distinct(xs)
                &&& forall|i: int| 0 <= i < xs.len() ==> (#[trigger] xs[i]).wf()
            },
            _ => true,
        }
    }

    /// The 64-bit hash of the value.
    pub open spec fn digest(self) -> u64
        decreases self,
    {
        match self {
            Val::Int(i) => mix(SEED_INT, (i + 0x8000_0000) as u64),
            Val::Float(bits) => mix(SEED_FLOAT, bits),
            Val::Bool(b) => mix(SEED_BOOL, if b { 1 } else { 0 }),
            Val::Str(s) => fold_mix(SEED_STR, char_codes(s)),
            Val::List(xs) => fold_mix(SEED_LIST, digests(xs)),
            Val::Members(xs) => mix(SEED_MEMBERS, xor_all(digests(xs))),
        }
    }
}

/// The hashes of a sequence of values, position by position.
pub open spec fn digests(xs: Seq<Val>) -> Seq<u64>
    decreases xs,
{
    Seq::new(
        xs.len(),
        |i: int|
            if 0 <= i < xs.len() {
                xs[i].digest()
            } else {
                0u64
            },
    )
}

/// The factor of a mixing step.
pub const MULTIPLIER: u64 = 0x0000_0100_0000_01b3;

/// Where the hash of an integer starts.
pub const SEED_INT: u64 = 0xcbf2_9ce4_8422_2325;

/// Where the hash of a float starts.
pub const SEED_FLOAT: u64 = 0x9e37_79b9_7f4a_7c15;

/// Where the hash of a truth value starts.
pub const SEED_BOOL: u64 = 0xc2b2_ae3d_27d4_eb4f;

/// Where the hash of a string starts.
pub const SEED_STR: u64 = 0x1656_67b1_9e37_79f9;

/// Where the hash of a list starts.
pub const SEED_LIST: u64 = 0x27d4_eb2f_1656_67c5;

/// Where the hash of a set starts.
pub const SEED_MEMBERS: u64 = 0x85eb_ca77_c2b2_ae63;

/// One mixing step: xor the word in, then multiply modulo 2^64.
pub open spec fn mix(h: u64, x: u64) -> u64 {
    (((h ^ x) as nat * MULTIPLIER as nat) % 0x1_0000_0000_0000_0000nat) as u64
}

/// Mixes the words of `items` into `h`, first to last.
pub open spec fn fold_mix(h: u64, items: Seq<u64>) -> u64
    decreases items.len(),
{
    if items.len() == 0 {
        h
    } else {
        mix(fold_mix(h, items.drop_last()), items.last())
    }
}

/// The xor of all words of `items`; 0 for none.
pub open spec fn xor_all(items: Seq<u64>) -> u64
    decreases items.len(),
{
    if items.len() == 0 {
        0
    } else {
        xor_all(items.drop_last()) ^ items.last()
    }
}

/// The scalar values of the characters of `s`.
pub open spec fn char_codes(s: Seq<char>) -> Seq<u64> {
    Seq::new(s.len(), |i: int| s[i] as u64)
}

/// What equality of two sets means, spelled out.
pub proof fn lemma_same_members(xs: Seq<Val>, ys: Seq<Val>)
    ensures
        Val::Members(xs).same(Val::Members(ys)) == {
            &&& xs.len() == ys.len()
            &&& forall|i: int| 0 <= i < xs.len() ==> occurs(#[trigger] xs[i], ys)
            &&& forall|j: int| 0 <= j < ys.len() ==> covered(xs, #[trigger] ys[j])
        },
{
}

fn mix_words(h: u64, x: u64) -> (r: u64)
    ensures
        r == mix(h, x),
{
    (h ^ x).wrapping_mul(MULTIPLIER)
}

fn hash_str(s: &String) -> (r: u64)
    ensures
        r == fold_mix(SEED_STR, char_codes(s@)),
{
    let text = s.as_str();
    let n: usize = text.unicode_len();
    let mut h: u64 = SEED_STR;
    let mut i: usize = 0;
    while i < n
        invariant
            i <= n,
            n == text@.len(),
            text@ == s@,
            h == fold_mix(SEED_STR, char_codes(s@).take(i as int)),
        decreases n - i,
    {
        let c = text.get_char(i);
        h = mix_words(h, c as u64);
        i += 1;
        assert(char_codes(s@).take(i as int).drop_last() =~= char_codes(s@).take(i - 1));
    }
    assert(char_codes(s@).take(n as int) =~= char_codes(s@));
    h
}

fn hash_list(items: &Vec<Value>) -> (r: u64)
    ensures
        r == fold_mix(SEED_LIST, digests(model_seq(items@))),
    decreases items,
{
    let ghost words = digests(model_seq(items@));
    let mut h: u64 = SEED_LIST;
    let mut i: usize = 0;
    while i < items.len()
        invariant
            i <= items.len(),
            words == digests(model_seq(items@)),
            h == fold_mix(SEED_LIST, words.take(i as int)),
        decreases items.len() - i,
    {
        let d = items[i].hash();
        h = mix_words(h, d);
        i += 1;
        assert(words.take(i as int).drop_last() =~= words.take(i - 1));
    }
    assert(words.take(items.len() as int) =~= words);
    h
}

fn hash_members(items: &Vec<Value>) -> (r: u64)
    ensures
        r == xor_all(digests(model_seq(items@))),
    decreases items,
{
    let ghost words = digests(model_seq(items@));
    let mut acc: u64 = 0;
    let mut i: usize = 0;
    while i < items.len()
        invariant
            i <= items.len(),
            words == digests(model_seq(items@)),
            acc == xor_all(words.take(i as int)),
        decreases items.len() - i,
    {
        let d = items[i].hash();
        acc = acc ^ d;
        i += 1;
        assert(words.take(i as int).drop_last() =~= words.take(i - 1));
    }
    assert(words.take(items.len() as int) =~= words);
    acc
}

fn duplicate_all(items: &Vec<Value>) -> (r: Vec<Value>)
    ensures
        model_seq(r@) == model_seq(items@),
    decreases items,
{
    let mut out: Vec<Value> = Vec::new();
    let mut i: usize = 0;
    while i < items.len()
        invariant
            i <= items.len(),
            out@.len() == i,
            forall|j: int| 0 <= j < i ==> (#[trigger] out@[j])@ == items@[j]@,
        decreases items.len() - i,
    {
        let d = items[i].duplicate();
        out.push(d);
        i += 1;
    }
    assert(model_seq(out@) =~= model_seq(items@));
    out
}

fn lists_equal(xs: &Vec<Value>, ys: &Vec<Value>) -> (r: bool)
    requires
        xs.len() == ys.len(),
    ensures
        r == (forall|i: int|
            0 <= i < xs.len() ==> (#[trigger] model_seq(xs@)[i]).same(model_seq(ys@)[i])),
    decreases xs, 1nat,
{
    let mut i: usize = 0;
    while i < xs.len()
        invariant
            i <= xs.len(),
            xs.len() == ys.len(),
            forall|k: int| 0 <= k < i ==> (#[trigger] model_seq(xs@)[k]).same(model_seq(ys@)[k]),
        decreases xs.len() - i,
    {
        if !xs[i].equals(&ys[i]) {
            assert(!model_seq(xs@)[i as int].same(model_seq(ys@)[i as int]));
            return false;
        }
        i += 1;
    }
    true
}

fn member_of(x: &Value, ys: &Vec<Value>) -> (r: bool)
    ensures
        r == occurs(x@, model_seq(ys@)),
    decreases x, 1nat,
{
    let mut j: usize = 0;
    while j < ys.len()
        invariant
            j <= ys.len(),
            forall|k: int| 0 <= k < j ==> !x@.same(#[trigger] model_seq(ys@)[k]),
        decreases ys.len() - j,
    {
        if x.equals(&ys[j]) {
            assert(x@.same(model_seq(ys@)[j as int]));
            assert(occurs(x@, model_seq(ys@)));
            return true;
        }
        j += 1;
    }
    false
}

fn has_member(xs: &Vec<Value>, y: &Value) -> (r: bool)
    ensures
        r == covered(model_seq(xs@), y@),
    decreases xs, 1nat,
{
    let mut i: usize = 0;
    while i < xs.len()
        invariant
            i <= xs.len(),
            forall|k: int| 0 <= k < i ==> !(#[trigger] model_seq(xs@)[k]).same(y@),
        decreases xs.len() - i,
    {
        if xs[i].equals(y) {
            assert(model_seq(xs@)[i as int].same(y@));
            assert(covered(model_seq(xs@), y@));
            return true;
        }
        i += 1;
    }
    false
}

fn members_equal(xs: &Vec<Value>, ys: &Vec<Value>) -> (r: bool)
    requires
        xs.len() == ys.len(),
    ensures
        r == ((forall|i: int|
            0 <= i < xs.len() ==> occurs(#[trigger] model_seq(xs@)[i], model_seq(ys@)))
            && (forall|j: int|
            0 <= j < ys.len() ==> covered(model_seq(xs@), #[trigger] model_seq(ys@)[j]))),
    decreases xs, 2nat,
{
    let mut i: usize = 0;
    while i < xs.len()
        invariant
            i <= xs.len(),
            forall|k: int| 0 <= k < i ==> occurs(#[trigger] model_seq(xs@)[k], model_seq(ys@)),
        decreases xs.len() - i,
    {
        if !member_of(&xs[i], ys) {
            assert(!occurs(model_seq(xs@)[i as int], model_seq(ys@)));
            return false;
        }
        i += 1;
    }
    let mut j: usize = 0;
    while j < ys.len()
        invariant
            j <= ys.len(),
            forall|k: int| 0 <= k < j ==> covered(model_seq(xs@), #[trigger] model_seq(ys@)[k]),
        decreases ys.len() - j,
    {
        if !has_member(xs, &ys[j]) {
            assert(!covered(model_seq(xs@), model_seq(ys@)[j as int]));
            return false;
        }
        j += 1;
    }
    true
}

impl Value {
    /// Structural equality of two values.
    pub fn equals(&self, other: &Value) -> (r: bool)
        ensures
            r == self@.same(other@),
        decreases self, 0nat,
    {
        match self {
            Value::Int(a) => match other {
                Value::Int(b) => *a == *b,
                _ => false,
            },
            Value::Float(a) => match other {
                Value::Float(b) => *a == *b,
                _ => false,
            },
            Value::Bool(a) => match other {
                Value::Bool(b) => *a == *b,
                _ => false,
            },
            Value::Str(a) => match other {
                Value::Str(b) => *a == *b,
                _ => false,
            },
            Value::List(xs) => match other {
                Value::List(ys) => xs.len() == ys.len() && lists_equal(xs, ys),
                _ => false,
            },
            Value::Members(xs) => match other {
                Value::Members(ys) => {
                    let r = xs.len() == ys.len() && members_equal(xs, ys);
                    proof {
                        lemma_same_members(model_seq(xs@), model_seq(ys@));
                    }
                    r
                },
                _ => false,
            },
        }
    }

    /// The hash of the value. Equal well-formed values have equal hashes.
    pub fn hash(&self) -> (r: u64)
        ensures
            r == self@.digest(),
        decreases self,
    {
        match self {
            Value::Int(i) => mix_words(SEED_INT, (*i as i64 + 0x8000_0000i64) as u64),
            Value::Float(bits) => mix_words(SEED_FLOAT, *bits),
            Value::Bool(b) => mix_words(
                SEED_BOOL,
                if *b {
                    1
                } else {
                    0
                },
            ),
            Value::Str(s) => hash_str(s),
            Value::List(items) => hash_list(items),
            Value::Members(items) => mix_words(SEED_MEMBERS, hash_members(items)),
        }
    }

    /// A copy of the value that shares nothing with it.
    pub fn duplicate(&self) -> (r: Value)
        ensures
            r@ == self@,
        decreases self,
    {
        match self {
            Value::Int(i) => Value::Int(*i),
            Value::Float(bits) => Value::Float(*bits),
            Value::Bool(b) => Value::Bool(*b),
            Value::Str(s) => Value::Str(s.clone()),
            Value::List(items) => Value::List(duplicate_all(items)),
            Value::Members(items) => Value::Members(duplicate_all(items)),
        }
    }

    /// The list that holds the elements of this list and then `value`; `None`
    /// where this value is no list. The list itself is left as it is.
    pub fn with_pushed(&self, value: &Value) -> (r: Option<Value>)
        ensures
            r.is_some() == (self@ is List),
            self@ is List ==> r.unwrap()@ == Val::List(self@->List_0.push(value@)),
    {
        match self {
            Value::List(items) => {
                let mut out = duplicate_all(items);
                let ghost before = out@;
                out.push(value.duplicate());
                assert(model_seq(out@) =~= model_seq(before).push(value@));
                Some(Value::List(out))
            },
            _ => None,
        }
    }

    /// The set that holds the elements of this set and `value`: the same
    /// elements where `value` equals one of them, else `value` after them.
    /// `None` where this value is no set. The set itself is left as it is.
    pub fn with_inserted(&self, value: &Value) -> (r: Option<Value>)
        ensures
            r.is_some() == (self@ is Members),
            self@ is Members ==> r.unwrap()@ == Val::Members(inserted(self@->Members_0, value@)),
    {
        match self {
            Value::Members(items) => {
                let mut out = duplicate_all(items);
                if !has_member(items, value) {
                    let ghost before = out@;
                    out.push(value.duplicate());
                    assert(model_seq(out@) =~= model_seq(before).push(value@));
                }
                Some(Value::Members(out))
            },
            _ => None,
        }
    }
}

} // verus!
