use vstd::prelude::*;
use crate::text::same_text;

verus! {

broadcast use vstd::std_specs::vec::axiom_vec_index_decreases;

/// A decimal literal kept as its text. The lexer makes it canonical
/// (`lexer::canonical_text`): an optional `-`, whole digits without a leading
/// zero (a lone `0` allowed), a `.`, and fraction digits without a trailing
/// zero (a lone `0` allowed).
#[derive(Debug)]
pub struct Decimal {
    pub text: String,
}

/// One `key = value` pair of a dictionary.
#[derive(Debug)]
pub struct Entry {
    pub key: String,
    pub value: Value,
}

/// A node of a parsed script tree.
#[derive(Debug)]
pub enum Value {
    Integer(i64),
    Float(Decimal),
    String(String),
    Array(Vec<Value>),
    Dictionary(Vec<Entry>),
}

/// The mathematical model of a `Value`.
pub enum Tree {
    Int(int),
    Dec(Seq<char>),
    Str(Seq<char>),
    List(Seq<Tree>),
    Dict(Seq<(Seq<char>, Tree)>),
}

impl Value {
    pub open spec fn view(&self) -> Tree
        decreases self,
    {
        match self {
            Value::Integer(i) => Tree::Int(*i as int),
            Value::Float(d) => Tree::Dec(d.text@),
            Value::String(s) => Tree::Str(s@),
            Value::Array(a) => Tree::List(Seq::new(a.len() as nat, |i: int| if 0 <= i < a.len() { a[i].view() } else { Tree::Int(0) })),
            Value::Dictionary(d) => Tree::Dict(
                Seq::new(d.len() as nat, |i: int|
                    if 0 <= i < d.len() { (d[i].key@, d[i].value.view()) } else { (Seq::empty(), Tree::Int(0)) }),
            ),
        }
    }
}

/// The models of a sequence of values.
pub open spec fn list_view(a: Seq<Value>) -> Seq<Tree> {
    Seq::new(a.len(), |i: int| a[i].view())
}

/// The model of a dictionary's entries: each key's characters with its value's model.
pub open spec fn dict_view(d: Seq<Entry>) -> Seq<(Seq<char>, Tree)> {
    Seq::new(d.len(), |i: int| (d[i].key@, d[i].value.view()))
}

/// No key stands twice among a dictionary's entries.
pub open spec fn keys_unique(d: Seq<(Seq<char>, Tree)>) -> bool {
    forall|i: int, j: int| 0 <= i < j < d.len() ==> #[trigger] d[i].0 != #[trigger] d[j].0
}

/// The position of the first entry whose key is `k`, or the length if there is none.
pub open spec fn first_index(d: Seq<(Seq<char>, Tree)>, k: Seq<char>) -> int
    decreases d.len(),
{
    if d.len() == 0 {
        0
    } else if d[0].0 == k {
        0
    } else {
        1 + first_index(d.drop_first(), k)
    }
}

/// The value under key `k`, as a lookup in the dictionary finds it.
pub open spec fn lookup(d: Seq<(Seq<char>, Tree)>, k: Seq<char>) -> Option<Tree> {
    let i = first_index(d, k);
    if 0 <= i < d.len() {
        Some(d[i].1)
    } else {
        None
    }
}

/// `d` with the value under key `k` replaced by `v` (unchanged if `k` is absent).
pub open spec fn set_value(d: Seq<(Seq<char>, Tree)>, k: Seq<char>, v: Tree) -> Seq<
    (Seq<char>, Tree),
> {
    let i = first_index(d, k);
    if 0 <= i < d.len() {
        d.update(i, (d[i].0, v))
    } else {
        d
    }
}

pub proof fn lemma_first_index(d: Seq<(Seq<char>, Tree)>, k: Seq<char>)
    ensures
        0 <= first_index(d, k) <= d.len(),
        forall|j: int| 0 <= j < first_index(d, k) ==> #[trigger] d[j].0 != k,
        first_index(d, k) < d.len() ==> d[first_index(d, k)].0 == k,
    decreases d.len(),
{
    if d.len() > 0 && d[0].0 != k {
        lemma_first_index(d.drop_first(), k);
        assert forall|j: int| 0 <= j < first_index(d, k) implies #[trigger] d[j].0 != k by {
            if j > 0 {
                assert(d[j] == d.drop_first()[j - 1]);
            }
        }
    }
}

pub proof fn lemma_first_index_unique(d: Seq<(Seq<char>, Tree)>, k: Seq<char>, i: int)
    requires
        0 <= i <= d.len(),
        forall|j: int| 0 <= j < i ==> #[trigger] d[j].0 != k,
        i < d.len() ==> d[i].0 == k,
    ensures
        first_index(d, k) == i,
    decreases d.len(),
{
    if d.len() > 0 && d[0].0 != k {
        assert forall|j: int| 0 <= j < i - 1 implies #[trigger] d.drop_first()[j].0 != k by {
            assert(d[j + 1].0 != k);
        }
        lemma_first_index_unique(d.drop_first(), k, i - 1);
    }
}

/// Where key `k` first stands in a dictionary's entries.
pub fn find_key(d: &Vec<Entry>, k: &str) -> (r: usize)
    ensures
        r as int == first_index(dict_view(d@), k@),
        r <= d.len(),
{
    let mut i: usize = 0;
    while i < d.len()
        invariant
            i <= d.len(),
            forall|j: int| 0 <= j < i ==> #[trigger] dict_view(d@)[j].0 != k@,
        decreases d.len() - i,
    {
        if same_text(&d[i].key, k) {
            proof {
                lemma_first_index_unique(dict_view(d@), k@, i as int);
            }
            return i;
        }
        i += 1;
    }
    proof {
        lemma_first_index_unique(dict_view(d@), k@, i as int);
    }
    i
}

pub proof fn lemma_view_array(v: Value)
    requires
        v is Array,
    ensures
        v.view() == Tree::List(list_view(v->Array_0@)),
{
    assert(v.view()->List_0 =~= list_view(v->Array_0@));
}

pub proof fn lemma_view_dictionary(v: Value)
    requires
        v is Dictionary,
    ensures
        v.view() == Tree::Dict(dict_view(v->Dictionary_0@)),
{
    assert(v.view()->Dict_0 =~= dict_view(v->Dictionary_0@));
}

pub proof fn lemma_set_value(d: Seq<(Seq<char>, Tree)>, k: Seq<char>, v: Tree)
    ensures
        first_index(set_value(d, k, v), k) == first_index(d, k),
        lookup(d, k) is Some ==> lookup(set_value(d, k, v), k) == Some(v),
        forall|w: Tree| set_value(set_value(d, k, v), k, w) == set_value(d, k, w),
        set_value(d, k, v).len() == d.len(),
{
    lemma_first_index(d, k);
    let i = first_index(d, k);
    let e = set_value(d, k, v);
    assert forall|j: int| 0 <= j < i implies #[trigger] e[j].0 != k by {
        assert(d[j].0 != k);
    }
    lemma_first_index_unique(e, k, i);
    assert forall|w: Tree| set_value(set_value(d, k, v), k, w) == set_value(d, k, w) by {
        if 0 <= i < d.len() {
            assert(set_value(set_value(d, k, v), k, w) =~= set_value(d, k, w));
        }
    }
}

impl Value {
    pub fn as_string(&self) -> (r: Option<&String>)
        ensures
            r == (match self {
                Value::String(s) => Some(s),
                _ => None,
            }),
    {
        match self {
            Value::String(s) => Some(s),
            _ => None,
        }
    }

    pub fn as_string_mut(&mut self) -> (r: Option<&mut String>)
        ensures
            (r is Some) == (*old(self) is String),
            r matches Some(s) ==> *s == (*old(self))->String_0 && *final(self) == Value::String(*final(s)),
            r is None ==> *final(self) == *old(self),
    {
        match self {
            Value::String(s) => Some(s),
            _ => None,
        }
    }

    pub fn is_array(&self) -> (r: bool)
        ensures
            r == self is Array,
    {
        match self {
            Value::Array(_) => true,
            _ => false,
        }
    }

    pub fn as_array(&self) -> (r: Option<&Vec<Value>>)
        ensures
            r == (match self {
                Value::Array(a) => Some(a),
                _ => None,
            }),
    {
        match self {
            Value::Array(a) => Some(a),
            _ => None,
        }
    }

    pub fn as_array_mut(&mut self) -> (r: Option<&mut Vec<Value>>)
        ensures
            (r is Some) == (*old(self) is Array),
            r matches Some(a) ==> *a == (*old(self))->Array_0 && *final(self) == Value::Array(*final(a)),
            r is None ==> *final(self) == *old(self),
    {
        match self {
            Value::Array(a) => Some(a),
            _ => None,
        }
    }

    pub fn is_dictionary(&self) -> (r: bool)
        ensures
            r == self is Dictionary,
    {
        match self {
            Value::Dictionary(_) => true,
            _ => false,
        }
    }

    pub fn as_dictionary(&self) -> (r: Option<&Vec<Entry>>)
        ensures
            r == (match self {
                Value::Dictionary(d) => Some(d),
                _ => None,
            }),
    {
        match self {
            Value::Dictionary(d) => Some(d),
            _ => None,
        }
    }

    pub fn as_dictionary_mut(&mut self) -> (r: Option<&mut Vec<Entry>>)
        ensures
            (r is Some) == (*old(self) is Dictionary),
            r matches Some(d) ==> *d == (*old(self))->Dictionary_0 && *final(self) == Value::Dictionary(
                *final(d),
            ),
            r is None ==> *final(self) == *old(self),
    {
        match self {
            Value::Dictionary(d) => Some(d),
            _ => None,
        }
    }

    pub fn as_integer(&self) -> (r: Option<i64>)
        ensures
            r == (match self {
                Value::Integer(i) => Some(*i),
                _ => None,
            }),
    {
        match self {
            Value::Integer(i) => Some(*i),
            _ => None,
        }
    }

    /// The decimal held by a float value.
    pub fn as_float(&self) -> (r: Option<&Decimal>)
        ensures
            r == (match self {
                Value::Float(d) => Some(d),
                _ => None,
            }),
    {
        match self {
            Value::Float(d) => Some(d),
            _ => None,
        }
    }
}

} // verus!
