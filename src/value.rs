//! Record values, and their model.
use vstd::prelude::*;

verus! {

broadcast use vstd::std_specs::vec::axiom_vec_decreases_to_view, vstd::seq::axiom_seq_index_decreases, vstd::seq::axiom_seq_subrange_decreases;

/// A record value, or a part of one, laid out by a schema.
///
/// Integer fields hold `Unsigned` or `Signed` according to the signedness
/// of their type; `byte` fields hold `Unsigned`; floating-point fields hold
/// the IEEE-754 bit pattern of the number as `Unsigned`. `string` and
/// `cstring` fields hold their UTF-8 bytes as `Text`. A field of a struct
/// type holds a `Record` with one value per item of that struct, and an
/// array field holds a `List` of its elements (a `cstring` array of constant
/// size holds one `Text`: the array is the text's capacity).
#[derive(Debug, PartialEq, Eq)]
pub enum Value {
    Unsigned(u64),
    Signed(i64),
    Text(Vec<u8>),
    Record(Vec<Value>),
    List(Vec<Value>),
}

/// The mathematical model of a `Value`.
pub enum Val {
    Unsigned(u64),
    Signed(i64),
    Text(Seq<u8>),
    Record(Seq<Val>),
    List(Seq<Val>),
}

pub open spec fn val_of(v: Value) -> Val
    decreases v,
{
    match v {
        Value::Unsigned(x) => Val::Unsigned(x),
        Value::Signed(x) => Val::Signed(x),
        Value::Text(b) => Val::Text(b@),
        Value::Record(fs) => Val::Record(vals_of(fs@)),
        Value::List(es) => Val::List(vals_of(es@)),
    }
}

pub open spec fn vals_of(s: Seq<Value>) -> Seq<Val>
    decreases s,
{
    if s.len() == 0 {
        Seq::empty()
    } else {
        vals_of(s.drop_last()).push(val_of(s.last()))
    }
}

impl View for Value {
    type V = Val;

    open spec fn view(&self) -> Val {
        val_of(*self)
    }
}

pub proof fn lemma_vals_of_push(s: Seq<Value>, v: Value)
    ensures
        vals_of(s.push(v)) == vals_of(s).push(val_of(v)),
{
    assert(s.push(v).drop_last() =~= s);
}

pub proof fn lemma_vals_of_len(s: Seq<Value>)
    ensures
        vals_of(s).len() == s.len(),
    decreases s.len(),
{
    if s.len() > 0 {
        lemma_vals_of_len(s.drop_last());
    }
}

pub proof fn lemma_vals_of_index(s: Seq<Value>, i: int)
    requires
        0 <= i < s.len(),
    ensures
        vals_of(s).len() == s.len(),
        vals_of(s)[i] == val_of(s[i]),
    decreases s.len(),
{
    lemma_vals_of_len(s);
    if i < s.len() - 1 {
        lemma_vals_of_index(s.drop_last(), i);
    }
}

} // verus!
