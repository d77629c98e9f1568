//! The wire format, stated over the models: what a value encodes to, what
//! bytes decode to, and how long an encoding is.
use vstd::prelude::*;
use crate::primitive::{PError, pow256, uint_bytes, uint_value};
use crate::types::{Array, Endian, File, Item, Struct, Type, fixed_width, is_integer, is_signed};
use crate::value::Val;

verus! {

/// Number of struct levels the codec follows below the record it starts at.
pub const MAX_NESTING: usize = 64;

/// Index of the first of the first `n` names that equals `name`.
pub open spec fn first_index(names: Seq<Seq<char>>, name: Seq<char>, n: nat) -> Option<nat>
    decreases n,
{
    if n == 0 {
        None
    } else {
        match first_index(names, name, (n - 1) as nat) {
            Some(k) => Some(k),
            None => if names[n - 1] == name {
                Some((n - 1) as nat)
            } else {
                None
            },
        }
    }
}

pub open spec fn struct_names(f: File) -> Seq<Seq<char>> {
    f.structs@.map_values(|s: Struct| s.name@)
}

pub open spec fn item_names(items: Seq<Item>) -> Seq<Seq<char>> {
    items.map_values(|i: Item| i.name@)
}

/// The struct of the file that a type name refers to: the first of that name.
pub open spec fn find_struct(f: File, name: Seq<char>) -> Option<nat> {
    first_index(struct_names(f), name, f.structs@.len())
}

pub open spec fn items_of(f: File, k: nat) -> Seq<Item> {
    f.structs@[k as int].items@
}

/// The element count that an integer value stands for.
pub open spec fn count_of(v: Val) -> Option<nat> {
    match v {
        Val::Unsigned(x) => Some(x as nat),
        Val::Signed(x) => if x >= 0 {
            Some(x as nat)
        } else {
            None
        },
        _ => None,
    }
}

pub open spec fn half(w: nat) -> nat {
    pow256(w) / 2
}

/// Two's complement bits of `x` in `w` bytes.
pub open spec fn signed_bits(x: int, w: nat) -> nat {
    if x >= 0 {
        x as nat
    } else {
        (x + pow256(w)) as nat
    }
}

/// The number that two's complement bits `n` of `w` bytes stand for.
pub open spec fn from_signed_bits(n: nat, w: nat) -> int {
    if n >= half(w) {
        n - pow256(w)
    } else {
        n as int
    }
}

/// Whether a count of `n` elements can be written as an integer of type `t`.
pub open spec fn count_fits(n: nat, t: Type) -> bool {
    let w = fixed_width(t).unwrap();
    if is_signed(t) {
        n < half(w)
    } else {
        n < pow256(w)
    }
}

/// The text of a zero-padded field: its bytes up to the first zero.
pub open spec fn cstr_text(b: Seq<u8>) -> Seq<u8>
    decreases b.len(),
{
    if b.len() == 0 || b[0] == 0 {
        Seq::empty()
    } else {
        seq![b[0]] + cstr_text(b.drop_first())
    }
}

pub open spec fn zeros(n: nat) -> Seq<u8> {
    Seq::new(n, |i: int| 0u8)
}

/// The encoding of one element of type `t` in byte order `e`.
pub open spec fn enc_elem(f: File, t: Type, e: Endian, v: Val, d: nat) -> Result<Seq<u8>, PError>
    decreases d, 0nat, 0nat,
{
    match t {
        Type::String => match v {
            Val::Text(b) => if b.len() <= 0xFFFF {
                Ok(uint_bytes(b.len(), 2, e) + b)
            } else {
                Err(PError::InvalidValue)
            },
            _ => Err(PError::InvalidValue),
        },
        Type::CString => Err(PError::InvalidValue),
        Type::User(name) => match v {
            Val::Record(fs) => match find_struct(f, name@) {
                Some(k) => if d == 0 {
                    Err(PError::TooDeep)
                } else {
                    enc_record(f, k, fs, (d - 1) as nat)
                },
                None => Err(PError::InvalidValue),
            },
            _ => Err(PError::InvalidValue),
        },
        _ => {
            let w = fixed_width(t).unwrap();
            match v {
                Val::Unsigned(x) => if !is_signed(t) && (x as nat) < pow256(w) {
                    Ok(uint_bytes(x as nat, w, e))
                } else {
                    Err(PError::InvalidValue)
                },
                Val::Signed(x) => if is_signed(t) && -half(w) <= x < half(w) {
                    Ok(uint_bytes(signed_bits(x as int, w), w, e))
                } else {
                    Err(PError::InvalidValue)
                },
                _ => Err(PError::InvalidValue),
            }
        },
    }
}

/// The encoding of the first `n` elements of `es`, one after the other.
pub open spec fn enc_list(f: File, t: Type, e: Endian, es: Seq<Val>, n: nat, d: nat) -> Result<
    Seq<u8>,
    PError,
>
    decreases d, 0nat, n,
{
    if n == 0 {
        Ok(Seq::empty())
    } else {
        match enc_list(f, t, e, es, (n - 1) as nat, d) {
            Ok(b) => match enc_elem(f, t, e, es[n - 1], d) {
                Ok(c) => Ok(b + c),
                Err(x) => Err(x),
            },
            Err(x) => Err(x),
        }
    }
}

/// The encoding of item `i` of a record whose item values are `fs`.
pub open spec fn enc_item(f: File, items: Seq<Item>, fs: Seq<Val>, i: nat, d: nat) -> Result<
    Seq<u8>,
    PError,
>
    decreases d, 1nat, 0nat,
{
    let it = items[i as int];
    let v = fs[i as int];
    match it.array {
        None => enc_elem(f, it.kind, it.byte_order, v, d),
        Some(Array::Constant(n)) => match it.kind {
            Type::CString => match v {
                Val::Text(b) => if b.len() <= n && !b.contains(0u8) {
                    Ok(b + zeros((n - b.len()) as nat))
                } else {
                    Err(PError::InvalidValue)
                },
                _ => Err(PError::InvalidValue),
            },
            _ => match v {
                Val::List(es) => if es.len() == n {
                    enc_list(f, it.kind, it.byte_order, es, es.len(), d)
                } else {
                    Err(PError::InvalidValue)
                },
                _ => Err(PError::InvalidValue),
            },
        },
        Some(Array::Variable(name, _)) => match v {
            Val::List(es) => match first_index(item_names(items), name@, i) {
                Some(j) => if count_of(fs[j as int]) == Some(es.len()) {
                    enc_list(f, it.kind, it.byte_order, es, es.len(), d)
                } else {
                    Err(PError::InvalidValue)
                },
                None => Err(PError::InvalidValue),
            },
            _ => Err(PError::InvalidValue),
        },
        Some(Array::Unknown(pt)) => match v {
            Val::List(es) => if is_integer(pt) && count_fits(es.len(), pt) {
                match enc_list(f, it.kind, it.byte_order, es, es.len(), d) {
                    Ok(b) => Ok(uint_bytes(es.len(), fixed_width(pt).unwrap(), it.byte_order) + b),
                    Err(x) => Err(x),
                }
            } else {
                Err(PError::InvalidValue)
            },
            _ => Err(PError::InvalidValue),
        },
    }
}

/// The encoding of the first `n` items, in order.
pub open spec fn enc_items(f: File, items: Seq<Item>, fs: Seq<Val>, n: nat, d: nat) -> Result<
    Seq<u8>,
    PError,
>
    decreases d, 2nat, n,
{
    if n == 0 {
        Ok(Seq::empty())
    } else {
        match enc_items(f, items, fs, (n - 1) as nat, d) {
            Ok(b) => match enc_item(f, items, fs, (n - 1) as nat, d) {
                Ok(c) => Ok(b + c),
                Err(x) => Err(x),
            },
            Err(x) => Err(x),
        }
    }
}

/// The encoding of a record of struct `k` whose item values are `fs`,
/// following at most `d` further levels of nested records.
pub open spec fn enc_record(f: File, k: nat, fs: Seq<Val>, d: nat) -> Result<Seq<u8>, PError>
    decreases d, 3nat, 0nat,
{
    if k < f.structs@.len() && fs.len() == items_of(f, k).len() {
        enc_items(f, items_of(f, k), fs, fs.len(), d)
    } else {
        Err(PError::InvalidValue)
    }
}

/// Decoding one element from the front of `data`: the value and the number
/// of bytes it took.
pub open spec fn dec_elem(f: File, t: Type, e: Endian, data: Seq<u8>, d: nat) -> Result<
    (Val, nat),
    PError,
>
    decreases d, 0nat, 0nat,
{
    match t {
        Type::String => if data.len() < 2 {
            Err(PError::NotEnoughData)
        } else {
            let n = uint_value(data.subrange(0, 2), e);
            if data.len() < 2 + n {
                Err(PError::NotEnoughData)
            } else {
                Ok((Val::Text(data.subrange(2, 2 + n as int)), 2 + n))
            }
        },
        Type::CString => Err(PError::InvalidData),
        Type::User(name) => match find_struct(f, name@) {
            Some(k) => if d == 0 {
                Err(PError::TooDeep)
            } else {
                match dec_record(f, k, data, (d - 1) as nat) {
                    Ok((fs, n)) => Ok((Val::Record(fs), n)),
                    Err(x) => Err(x),
                }
            },
            None => Err(PError::InvalidData),
        },
        _ => {
            let w = fixed_width(t).unwrap();
            if data.len() < w {
                Err(PError::NotEnoughData)
            } else {
                let n = uint_value(data.subrange(0, w as int), e);
                if is_signed(t) {
                    Ok((Val::Signed(from_signed_bits(n, w) as i64), w))
                } else {
                    Ok((Val::Unsigned(n as u64), w))
                }
            }
        },
    }
}

/// Decoding `n` elements one after the other from the front of `data`.
pub open spec fn dec_list(f: File, t: Type, e: Endian, data: Seq<u8>, n: nat, d: nat) -> Result<
    (Seq<Val>, nat),
    PError,
>
    decreases d, 0nat, n,
{
    if n == 0 {
        Ok((Seq::empty(), 0))
    } else {
        match dec_list(f, t, e, data, (n - 1) as nat, d) {
            Ok((es, m)) => match dec_elem(f, t, e, data.subrange(m as int, data.len() as int), d) {
                Ok((v, c)) => Ok((es.push(v), m + c)),
                Err(x) => Err(x),
            },
            Err(x) => Err(x),
        }
    }
}

/// Decoding item `i` from the front of `data`, where `prior` holds the
/// values of the items before it.
pub open spec fn dec_item(
    f: File,
    items: Seq<Item>,
    prior: Seq<Val>,
    i: nat,
    data: Seq<u8>,
    d: nat,
) -> Result<(Val, nat), PError>
    decreases d, 1nat, 0nat,
{
    let it = items[i as int];
    match it.array {
        None => dec_elem(f, it.kind, it.byte_order, data, d),
        Some(Array::Constant(n)) => match it.kind {
            Type::CString => if data.len() < n {
                Err(PError::NotEnoughData)
            } else {
                Ok((Val::Text(cstr_text(data.subrange(0, n as int))), n as nat))
            },
            _ => match dec_list(f, it.kind, it.byte_order, data, n as nat, d) {
                Ok((es, c)) => Ok((Val::List(es), c)),
                Err(x) => Err(x),
            },
        },
        Some(Array::Variable(name, _)) => match first_index(item_names(items), name@, i) {
            Some(j) => match count_of(prior[j as int]) {
                Some(n) => match dec_list(f, it.kind, it.byte_order, data, n, d) {
                    Ok((es, c)) => Ok((Val::List(es), c)),
                    Err(x) => Err(x),
                },
                None => Err(PError::InvalidData),
            },
            None => Err(PError::InvalidData),
        },
        Some(Array::Unknown(pt)) => if !is_integer(pt) {
            Err(PError::InvalidData)
        } else {
            let w = fixed_width(pt).unwrap();
            if data.len() < w {
                Err(PError::NotEnoughData)
            } else {
                let raw = uint_value(data.subrange(0, w as int), it.byte_order);
                if is_signed(pt) && raw >= half(w) {
                    Err(PError::InvalidData)
                } else {
                    match dec_list(
                        f,
                        it.kind,
                        it.byte_order,
                        data.subrange(w as int, data.len() as int),
                        raw,
                        d,
                    ) {
                        Ok((es, c)) => Ok((Val::List(es), w + c)),
                        Err(x) => Err(x),
                    }
                }
            }
        },
    }
}

/// Decoding the first `n` items one after the other from the front of `data`.
pub open spec fn dec_items(f: File, items: Seq<Item>, data: Seq<u8>, n: nat, d: nat) -> Result<
    (Seq<Val>, nat),
    PError,
>
    decreases d, 2nat, n,
{
    if n == 0 {
        Ok((Seq::empty(), 0))
    } else {
        match dec_items(f, items, data, (n - 1) as nat, d) {
            Ok((fs, m)) => match dec_item(
                f,
                items,
                fs,
                (n - 1) as nat,
                data.subrange(m as int, data.len() as int),
                d,
            ) {
                Ok((v, c)) => Ok((fs.push(v), m + c)),
                Err(x) => Err(x),
            },
            Err(x) => Err(x),
        }
    }
}

/// Decoding a record of struct `k` from the front of `data`, following at
/// most `d` further levels of nested records; data shorter than the
/// smallest record of the struct fails at once.
pub open spec fn dec_record(f: File, k: nat, data: Seq<u8>, d: nat) -> Result<
    (Seq<Val>, nat),
    PError,
>
    decreases d, 3nat, 0nat,
{
    if k < f.structs@.len() {
        if data.len() < min_record(f, k, d) {
            Err(PError::NotEnoughData)
        } else {
            dec_items(f, items_of(f, k), data, items_of(f, k).len(), d)
        }
    } else {
        Err(PError::InvalidData)
    }
}

/// The encoding of record value `v` of the struct named `name`.
pub open spec fn encoding(f: File, name: Seq<char>, v: Val) -> Result<Seq<u8>, PError> {
    match find_struct(f, name) {
        Some(k) => match v {
            Val::Record(fs) => enc_record(f, k, fs, MAX_NESTING as nat),
            _ => Err(PError::InvalidValue),
        },
        None => Err(PError::InvalidValue),
    }
}

/// Decoding a record of the struct named `name` from the front of `data`:
/// the record and the number of bytes it took.
pub open spec fn decoding(f: File, name: Seq<char>, data: Seq<u8>) -> Result<(Val, nat), PError> {
    match find_struct(f, name) {
        Some(k) => match dec_record(f, k, data, MAX_NESTING as nat) {
            Ok((fs, n)) => Ok((Val::Record(fs), n)),
            Err(x) => Err(x),
        },
        None => Err(PError::InvalidData),
    }
}

/// Size of one element by the size rule: the fixed width of a primitive,
/// the length prefix and bytes of a string, the size of a nested record.
pub open spec fn size_elem(f: File, t: Type, v: Val, d: nat) -> nat
    decreases d, 0nat, 0nat,
{
    match t {
        Type::String => match v {
            Val::Text(b) => 2 + b.len(),
            _ => 2,
        },
        Type::CString => 0,
        Type::User(name) => match v {
            Val::Record(fs) => match find_struct(f, name@) {
                Some(k) => if d == 0 {
                    0
                } else {
                    size_record(f, k, fs, (d - 1) as nat)
                },
                None => 0,
            },
            _ => 0,
        },
        _ => fixed_width(t).unwrap(),
    }
}

/// Sum of the sizes of the first `n` elements of `es`.
pub open spec fn size_list(f: File, t: Type, es: Seq<Val>, n: nat, d: nat) -> nat
    decreases d, 0nat, n,
{
    if n == 0 {
        0
    } else {
        size_list(f, t, es, (n - 1) as nat, d) + size_elem(f, t, es[n - 1], d)
    }
}

/// Size of an item by the size rule: a constant-size text is its capacity;
/// an array is the sum over its elements, after its count where the count
/// is written inline.
pub open spec fn size_item(f: File, it: Item, v: Val, d: nat) -> nat
    decreases d, 1nat, 0nat,
{
    let elements = match v {
        Val::List(es) => size_list(f, it.kind, es, es.len(), d),
        _ => 0,
    };
    match it.array {
        None => size_elem(f, it.kind, v, d),
        Some(Array::Constant(n)) => match it.kind {
            Type::CString => n as nat,
            _ => elements,
        },
        Some(Array::Variable(_, _)) => elements,
        Some(Array::Unknown(pt)) => match fixed_width(pt) {
            Some(w) => w + elements,
            None => elements,
        },
    }
}

/// Sum of the sizes of the first `n` items.
pub open spec fn size_items(f: File, items: Seq<Item>, fs: Seq<Val>, n: nat, d: nat) -> nat
    decreases d, 2nat, n,
{
    if n == 0 {
        0
    } else {
        size_items(f, items, fs, (n - 1) as nat, d) + size_item(f, items[n - 1], fs[n - 1], d)
    }
}

/// Size of a record of struct `k`: the sum of its item sizes.
pub open spec fn size_record(f: File, k: nat, fs: Seq<Val>, d: nat) -> nat
    decreases d, 3nat, 0nat,
{
    if k < f.structs@.len() && fs.len() == items_of(f, k).len() {
        size_items(f, items_of(f, k), fs, fs.len(), d)
    } else {
        0
    }
}

/// Wire size of record value `v` of the struct named `name`.
pub open spec fn wire_size(f: File, name: Seq<char>, v: Val) -> nat {
    match find_struct(f, name) {
        Some(k) => match v {
            Val::Record(fs) => size_record(f, k, fs, MAX_NESTING as nat),
            _ => 0,
        },
        None => 0,
    }
}

/// A size as a machine word, where it fits in one.
pub open spec fn fit(n: nat) -> Option<usize> {
    if n <= usize::MAX {
        Some(n as usize)
    } else {
        None
    }
}

pub proof fn lemma_first_index_stable(names: Seq<Seq<char>>, name: Seq<char>, m: nat, n: nat)
    requires
        m <= n,
        first_index(names, name, m) is Some,
    ensures
        first_index(names, name, n) == first_index(names, name, m),
    decreases n,
{
    if n > m {
        lemma_first_index_stable(names, name, m, (n - 1) as nat);
    }
}

pub proof fn lemma_first_index_bound(names: Seq<Seq<char>>, name: Seq<char>, n: nat)
    ensures
        first_index(names, name, n) matches Some(k) ==> k < n && names[k as int] == name,
    decreases n,
{
    if n > 0 {
        lemma_first_index_bound(names, name, (n - 1) as nat);
    }
}


/// The fewest bytes an element of type `t` takes.
pub open spec fn min_elem(f: File, t: Type, d: nat) -> nat
    decreases d, 0nat, 0nat,
{
    match t {
        Type::String => 2,
        Type::CString => 0,
        Type::User(name) => match find_struct(f, name@) {
            Some(k) => if d == 0 {
                0
            } else {
                min_record(f, k, (d - 1) as nat)
            },
            None => 0,
        },
        _ => fixed_width(t).unwrap(),
    }
}

/// The fewest bytes an item takes: what a record with empty texts and empty
/// arrays of unwritten size would give it.
pub open spec fn min_item(f: File, it: Item, d: nat) -> nat
    decreases d, 1nat, 0nat,
{
    match it.array {
        None => min_elem(f, it.kind, d),
        Some(Array::Constant(n)) => match it.kind {
            Type::CString => n as nat,
            _ => (n * min_elem(f, it.kind, d)) as nat,
        },
        Some(Array::Variable(_, _)) => 0,
        Some(Array::Unknown(pt)) => match fixed_width(pt) {
            Some(w) => w,
            None => 0,
        },
    }
}

/// The fewest bytes the first `n` items take.
pub open spec fn min_items(f: File, items: Seq<Item>, n: nat, d: nat) -> nat
    decreases d, 2nat, n,
{
    if n == 0 {
        0
    } else {
        min_items(f, items, (n - 1) as nat, d) + min_item(f, items[n - 1], d)
    }
}

/// The fewest bytes a record of struct `k` takes.
pub open spec fn min_record(f: File, k: nat, d: nat) -> nat
    decreases d, 3nat, 0nat,
{
    if k < f.structs@.len() {
        min_items(f, items_of(f, k), items_of(f, k).len(), d)
    } else {
        0
    }
}

} // verus!
