//! Facts about the wire format: decoding inverts encoding, and a decoder
//! that runs out of bytes says so.
use vstd::prelude::*;
use crate::primitive::{PError, pow256, uint_bytes, uint_value, lemma_pow256_facts, lemma_uint_round_trip};
use crate::types::{Array, Endian, File, Item, Type, fixed_width, is_integer, is_signed};
use crate::value::Val;
use crate::wire::{
    first_index,
    lemma_first_index_bound,
    item_names,
    find_struct,
    items_of,
    count_of,
    half,
    signed_bits,
    from_signed_bits,
    count_fits,
    cstr_text,
    zeros,
    enc_elem,
    enc_list,
    enc_item,
    enc_items,
    enc_record,
    dec_elem,
    dec_list,
    dec_item,
    dec_items,
    dec_record,
    size_elem,
    size_list,
    size_item,
    size_items,
    size_record,
    min_elem,
    min_item,
    min_items,
    min_record,
};
use crate::primitive::lemma_le_bytes_len;

verus! {

/// A text without zero bytes, padded with zeros, reads back as itself.
pub proof fn lemma_cstr_padded(b: Seq<u8>, m: nat)
    requires
        !b.contains(0u8),
    ensures
        cstr_text(b + zeros(m)) == b,
    decreases b.len(),
{
    if b.len() == 0 {
        assert(b + zeros(m) =~= zeros(m));
        if m > 0 {
            assert(zeros(m)[0] == 0u8);
        }
        assert(b =~= Seq::<u8>::empty());
    } else {
        let s = b + zeros(m);
        assert(s[0] == b[0]);
        assert(b[0] != 0u8) by {
            if b[0] == 0u8 {
                assert(b.contains(0u8));
            }
        }
        assert(!b.drop_first().contains(0u8)) by {
            if b.drop_first().contains(0u8) {
                let k = choose|k: int| 0 <= k < b.drop_first().len() && b.drop_first()[k] == 0u8;
                assert(b[k + 1] == 0u8);
            }
        }
        lemma_cstr_padded(b.drop_first(), m);
        assert(s.drop_first() =~= b.drop_first() + zeros(m));
        assert(seq![b[0]] + b.drop_first() =~= b);
    }
}

/// Signed values survive the round trip through their two's complement bits.
pub proof fn lemma_signed_round_trip(x: int, w: nat)
    requires
        w == 1 || w == 2 || w == 4 || w == 8,
        -half(w) <= x < half(w),
    ensures
        signed_bits(x, w) < pow256(w),
        from_signed_bits(signed_bits(x, w), w) == x,
{
    lemma_pow256_facts();
}

pub proof fn lemma_rt_elem(f: File, t: Type, e: Endian, v: Val, d: nat, rest: Seq<u8>)
    requires
        enc_elem(f, t, e, v, d) is Ok,
    ensures
        dec_elem(f, t, e, enc_elem(f, t, e, v, d)->Ok_0 + rest, d) == Ok::<(Val, nat), PError>(
            (v, enc_elem(f, t, e, v, d)->Ok_0.len()),
        ),
    decreases d, 0nat, 0nat,
{
    lemma_pow256_facts();
    let b = enc_elem(f, t, e, v, d)->Ok_0;
    let data = b + rest;
    match t {
        Type::String => {
            let s = v->Text_0;
            lemma_uint_round_trip(s.len(), 2, e);
            assert(data.subrange(0, 2) =~= uint_bytes(s.len(), 2, e));
            assert(data.subrange(2, 2 + s.len() as int) =~= s);
        },
        Type::CString => {},
        Type::User(name) => {
            let k = find_struct(f, name@)->Some_0;
            lemma_rt_record(f, k, v->Record_0, (d - 1) as nat, rest);
        },
        _ => {
            let w = fixed_width(t).unwrap();
            match v {
                Val::Unsigned(x) => {
                    lemma_uint_round_trip(x as nat, w, e);
                    assert(data.subrange(0, w as int) =~= b);
                },
                Val::Signed(x) => {
                    lemma_signed_round_trip(x as int, w);
                    lemma_uint_round_trip(signed_bits(x as int, w), w, e);
                    assert(data.subrange(0, w as int) =~= b);
                },
                _ => {},
            }
        },
    }
}

pub proof fn lemma_rt_list(
    f: File,
    t: Type,
    e: Endian,
    es: Seq<Val>,
    n: nat,
    d: nat,
    rest: Seq<u8>,
)
    requires
        n <= es.len(),
        enc_list(f, t, e, es, n, d) is Ok,
    ensures
        dec_list(f, t, e, enc_list(f, t, e, es, n, d)->Ok_0 + rest, n, d) == Ok::<
            (Seq<Val>, nat),
            PError,
        >((es.take(n as int), enc_list(f, t, e, es, n, d)->Ok_0.len())),
    decreases d, 0nat, n,
{
    let b = enc_list(f, t, e, es, n, d)->Ok_0;
    if n == 0 {
        assert(es.take(0) =~= Seq::<Val>::empty());
    } else {
        let b1 = enc_list(f, t, e, es, (n - 1) as nat, d)->Ok_0;
        let c = enc_elem(f, t, e, es[n - 1], d)->Ok_0;
        assert(b == b1 + c);
        lemma_rt_list(f, t, e, es, (n - 1) as nat, d, c + rest);
        assert(b + rest =~= b1 + (c + rest));
        let data = b + rest;
        assert(data.subrange(b1.len() as int, data.len() as int) =~= c + rest);
        lemma_rt_elem(f, t, e, es[n - 1], d, rest);
        assert(es.take(n - 1).push(es[n - 1]) =~= es.take(n as int));
    }
}

pub proof fn lemma_rt_item(f: File, items: Seq<Item>, fs: Seq<Val>, i: nat, d: nat, rest: Seq<u8>)
    requires
        i < items.len(),
        i < fs.len(),
        enc_item(f, items, fs, i, d) is Ok,
    ensures
        dec_item(f, items, fs.take(i as int), i, enc_item(f, items, fs, i, d)->Ok_0 + rest, d)
            == Ok::<(Val, nat), PError>((fs[i as int], enc_item(f, items, fs, i, d)->Ok_0.len())),
    decreases d, 2nat, 0nat,
{
    let it = items[i as int];
    match it.array {
        None => {
            lemma_rt_elem(f, it.kind, it.byte_order, fs[i as int], d, rest);
        },
        Some(Array::Constant(n)) => {
            lemma_rt_constant(f, items, fs, i, d, rest);
        },
        Some(Array::Variable(name, _)) => {
            lemma_rt_variable(f, items, fs, i, d, rest);
        },
        Some(Array::Unknown(pt)) => {
            lemma_rt_prefixed(f, items, fs, i, d, rest);
        },
    }
}

pub proof fn lemma_rt_constant(f: File, items: Seq<Item>, fs: Seq<Val>, i: nat, d: nat, rest: Seq<u8>)
    requires
        i < items.len(),
        i < fs.len(),
        items[i as int].array matches Some(Array::Constant(_)),
        enc_item(f, items, fs, i, d) is Ok,
    ensures
        dec_item(f, items, fs.take(i as int), i, enc_item(f, items, fs, i, d)->Ok_0 + rest, d)
            == Ok::<(Val, nat), PError>((fs[i as int], enc_item(f, items, fs, i, d)->Ok_0.len())),
    decreases d, 1nat, 0nat,
{
    let it = items[i as int];
    let v = fs[i as int];
    let b = enc_item(f, items, fs, i, d)->Ok_0;
    let data = b + rest;
    let n = it.array->Some_0->Constant_0;
    match it.kind {
        Type::CString => {
            let s = v->Text_0;
            lemma_cstr_padded(s, (n - s.len()) as nat);
            assert(data.subrange(0, n as int) =~= b);
        },
        _ => {
            let es = v->List_0;
            lemma_rt_list(f, it.kind, it.byte_order, es, es.len(), d, rest);
            assert(es.take(es.len() as int) =~= es);
        },
    }
}

pub proof fn lemma_rt_variable(f: File, items: Seq<Item>, fs: Seq<Val>, i: nat, d: nat, rest: Seq<u8>)
    requires
        i < items.len(),
        i < fs.len(),
        items[i as int].array matches Some(Array::Variable(_, _)),
        enc_item(f, items, fs, i, d) is Ok,
    ensures
        dec_item(f, items, fs.take(i as int), i, enc_item(f, items, fs, i, d)->Ok_0 + rest, d)
            == Ok::<(Val, nat), PError>((fs[i as int], enc_item(f, items, fs, i, d)->Ok_0.len())),
    decreases d, 1nat, 0nat,
{
    let it = items[i as int];
    let v = fs[i as int];
    let name = it.array->Some_0->Variable_0;
    let es = v->List_0;
    lemma_first_index_bound(item_names(items), name@, i);
    let j = first_index(item_names(items), name@, i)->Some_0;
    assert(fs.take(i as int)[j as int] == fs[j as int]);
    lemma_rt_list(f, it.kind, it.byte_order, es, es.len(), d, rest);
    assert(es.take(es.len() as int) =~= es);
}

#[verifier::rlimit(100)]
pub proof fn lemma_rt_prefixed(f: File, items: Seq<Item>, fs: Seq<Val>, i: nat, d: nat, rest: Seq<u8>)
    requires
        i < items.len(),
        i < fs.len(),
        items[i as int].array matches Some(Array::Unknown(_)),
        enc_item(f, items, fs, i, d) is Ok,
    ensures
        dec_item(f, items, fs.take(i as int), i, enc_item(f, items, fs, i, d)->Ok_0 + rest, d)
            == Ok::<(Val, nat), PError>((fs[i as int], enc_item(f, items, fs, i, d)->Ok_0.len())),
    decreases d, 1nat, 0nat,
{
    
    let it = items[i as int];
    let v = fs[i as int];
    let b = enc_item(f, items, fs, i, d)->Ok_0;
    let data = b + rest;
    let pt = it.array->Some_0->Unknown_0;
    let es = v->List_0;
    assert(is_integer(pt) && count_fits(es.len(), pt));
    let w = fixed_width(pt).unwrap();
    assert(w == 1 || w == 2 || w == 4 || w == 8);
    assert(es.len() < pow256(w)) by {
        if is_signed(pt) {
            assert(half(w) <= pow256(w));
        }
    }
    let lb = enc_list(f, it.kind, it.byte_order, es, es.len(), d)->Ok_0;
    let pre = uint_bytes(es.len(), w, it.byte_order);
    assert(b == pre + lb);
    lemma_uint_round_trip(es.len(), w, it.byte_order);
    assert(data.subrange(0, w as int) =~= pre);
    assert(uint_value(data.subrange(0, w as int), it.byte_order) == es.len());
    assert(data.subrange(w as int, data.len() as int) =~= lb + rest);
    lemma_rt_list(f, it.kind, it.byte_order, es, es.len(), d, rest);
    assert(es.take(es.len() as int) =~= es);
    assert(dec_list(f, it.kind, it.byte_order, lb + rest, es.len(), d) == Ok::<(Seq<Val>, nat), PError>((es, lb.len())));
}

pub proof fn lemma_rt_items(
    f: File,
    items: Seq<Item>,
    fs: Seq<Val>,
    n: nat,
    d: nat,
    rest: Seq<u8>,
)
    requires
        n <= items.len(),
        n <= fs.len(),
        enc_items(f, items, fs, n, d) is Ok,
    ensures
        dec_items(f, items, enc_items(f, items, fs, n, d)->Ok_0 + rest, n, d) == Ok::<
            (Seq<Val>, nat),
            PError,
        >((fs.take(n as int), enc_items(f, items, fs, n, d)->Ok_0.len())),
    decreases d, 3nat, n,
{
    let b = enc_items(f, items, fs, n, d)->Ok_0;
    if n == 0 {
        assert(fs.take(0) =~= Seq::<Val>::empty());
    } else {
        let b1 = enc_items(f, items, fs, (n - 1) as nat, d)->Ok_0;
        let c = enc_item(f, items, fs, (n - 1) as nat, d)->Ok_0;
        assert(b == b1 + c);
        lemma_rt_items(f, items, fs, (n - 1) as nat, d, c + rest);
        assert(b + rest =~= b1 + (c + rest));
        let data = b + rest;
        assert(data.subrange(b1.len() as int, data.len() as int) =~= c + rest);
        lemma_rt_item(f, items, fs, (n - 1) as nat, d, rest);
        assert(fs.take(n - 1).push(fs[n - 1]) =~= fs.take(n as int));
    }
}

pub proof fn lemma_rt_record(f: File, k: nat, fs: Seq<Val>, d: nat, rest: Seq<u8>)
    requires
        enc_record(f, k, fs, d) is Ok,
    ensures
        dec_record(f, k, enc_record(f, k, fs, d)->Ok_0 + rest, d) == Ok::<(Seq<Val>, nat), PError>(
            (fs, enc_record(f, k, fs, d)->Ok_0.len()),
        ),
    decreases d, 4nat, 0nat,
{
    lemma_min_enc_record(f, k, fs, d);
    lemma_rt_items(f, items_of(f, k), fs, fs.len(), d, rest);
    assert(fs.take(fs.len() as int) =~= fs);
}


/// The result of decoding from the first `l` bytes of `data`, when decoding
/// from all of `data` gave `full`: the same where it took no more than `l`
/// bytes, and otherwise a report that the bytes ran out.
pub open spec fn truncated<T>(full: Result<(T, nat), PError>, l: nat) -> Result<(T, nat), PError> {
    if l >= full->Ok_0.1 {
        full
    } else {
        Err(PError::NotEnoughData)
    }
}

pub proof fn lemma_tr_elem(f: File, t: Type, e: Endian, data: Seq<u8>, d: nat, l: nat)
    requires
        dec_elem(f, t, e, data, d) is Ok,
        l <= data.len(),
    ensures
        dec_elem(f, t, e, data.take(l as int), d) == truncated(dec_elem(f, t, e, data, d), l),
    decreases d, 0nat, 0nat,
{
    let short = data.take(l as int);
    match t {
        Type::String => {
            if l >= 2 {
                assert(short.subrange(0, 2) =~= data.subrange(0, 2));
                let n = uint_value(data.subrange(0, 2), e);
                if l >= 2 + n {
                    assert(short.subrange(2, 2 + n as int) =~= data.subrange(2, 2 + n as int));
                }
            }
        },
        Type::CString => {},
        Type::User(name) => {
            let k = find_struct(f, name@)->Some_0;
            lemma_tr_record(f, k, data, (d - 1) as nat, l);
        },
        _ => {
            let w = fixed_width(t).unwrap();
            if l >= w {
                assert(short.subrange(0, w as int) =~= data.subrange(0, w as int));
            }
        },
    }
}

pub proof fn lemma_tr_list(f: File, t: Type, e: Endian, data: Seq<u8>, n: nat, d: nat, l: nat)
    requires
        dec_list(f, t, e, data, n, d) is Ok,
        l <= data.len(),
    ensures
        dec_list(f, t, e, data.take(l as int), n, d) == truncated(dec_list(f, t, e, data, n, d), l),
    decreases d, 0nat, n,
{
    if n > 0 {
        let short = data.take(l as int);
        let m = dec_list(f, t, e, data, (n - 1) as nat, d)->Ok_0.1;
        lemma_tr_list(f, t, e, data, (n - 1) as nat, d, l);
        if l >= m {
            let tail = data.subrange(m as int, data.len() as int);
            assert(short.subrange(m as int, short.len() as int) =~= tail.take(l - m));
            lemma_tr_elem(f, t, e, tail, d, (l - m) as nat);
        }
    }
}

pub proof fn lemma_tr_item(
    f: File,
    items: Seq<Item>,
    prior: Seq<Val>,
    i: nat,
    data: Seq<u8>,
    d: nat,
    l: nat,
)
    requires
        i < items.len(),
        dec_item(f, items, prior, i, data, d) is Ok,
        l <= data.len(),
    ensures
        dec_item(f, items, prior, i, data.take(l as int), d) == truncated(
            dec_item(f, items, prior, i, data, d),
            l,
        ),
    decreases d, 2nat, 0nat,
{
    let it = items[i as int];
    match it.array {
        None => {
            lemma_tr_elem(f, it.kind, it.byte_order, data, d, l);
        },
        Some(Array::Unknown(_)) => {
            lemma_tr_prefixed(f, items, prior, i, data, d, l);
        },
        _ => {
            lemma_tr_counted(f, items, prior, i, data, d, l);
        },
    }
}

pub proof fn lemma_tr_counted(
    f: File,
    items: Seq<Item>,
    prior: Seq<Val>,
    i: nat,
    data: Seq<u8>,
    d: nat,
    l: nat,
)
    requires
        i < items.len(),
        items[i as int].array matches Some(a) && !(a is Unknown),
        dec_item(f, items, prior, i, data, d) is Ok,
        l <= data.len(),
    ensures
        dec_item(f, items, prior, i, data.take(l as int), d) == truncated(
            dec_item(f, items, prior, i, data, d),
            l,
        ),
    decreases d, 1nat, 0nat,
{
    let it = items[i as int];
    let short = data.take(l as int);
    match it.array {
        Some(Array::Constant(n)) => match it.kind {
            Type::CString => {
                if l >= n {
                    assert(short.subrange(0, n as int) =~= data.subrange(0, n as int));
                }
            },
            _ => {
                lemma_tr_list(f, it.kind, it.byte_order, data, n as nat, d, l);
            },
        },
        Some(Array::Variable(name, _)) => {
            let j = first_index(item_names(items), name@, i)->Some_0;
            let c = count_of(prior[j as int])->Some_0;
            lemma_tr_list(f, it.kind, it.byte_order, data, c, d, l);
        },
        _ => {},
    }
}

#[verifier::rlimit(100)]
pub proof fn lemma_tr_prefixed(
    f: File,
    items: Seq<Item>,
    prior: Seq<Val>,
    i: nat,
    data: Seq<u8>,
    d: nat,
    l: nat,
)
    requires
        i < items.len(),
        items[i as int].array matches Some(Array::Unknown(_)),
        dec_item(f, items, prior, i, data, d) is Ok,
        l <= data.len(),
    ensures
        dec_item(f, items, prior, i, data.take(l as int), d) == truncated(
            dec_item(f, items, prior, i, data, d),
            l,
        ),
    decreases d, 1nat, 0nat,
{
    let it = items[i as int];
    let short = data.take(l as int);
    let pt = it.array->Some_0->Unknown_0;
    let w = fixed_width(pt).unwrap();
    if l >= w {
        assert(short.subrange(0, w as int) =~= data.subrange(0, w as int));
        let raw = uint_value(data.subrange(0, w as int), it.byte_order);
        let tail = data.subrange(w as int, data.len() as int);
        assert(short.subrange(w as int, short.len() as int) =~= tail.take(l - w));
        lemma_tr_list(f, it.kind, it.byte_order, tail, raw, d, (l - w) as nat);
    }
}

pub proof fn lemma_tr_items(f: File, items: Seq<Item>, data: Seq<u8>, n: nat, d: nat, l: nat)
    requires
        n <= items.len(),
        dec_items(f, items, data, n, d) is Ok,
        l <= data.len(),
    ensures
        dec_items(f, items, data.take(l as int), n, d) == truncated(dec_items(f, items, data, n, d), l),
    decreases d, 3nat, n,
{
    if n > 0 {
        let short = data.take(l as int);
        let fs = dec_items(f, items, data, (n - 1) as nat, d)->Ok_0.0;
        let m = dec_items(f, items, data, (n - 1) as nat, d)->Ok_0.1;
        lemma_tr_items(f, items, data, (n - 1) as nat, d, l);
        if l >= m {
            let tail = data.subrange(m as int, data.len() as int);
            assert(short.subrange(m as int, short.len() as int) =~= tail.take(l - m));
            lemma_tr_item(f, items, fs, (n - 1) as nat, tail, d, (l - m) as nat);
        }
    }
}

pub proof fn lemma_tr_record(f: File, k: nat, data: Seq<u8>, d: nat, l: nat)
    requires
        dec_record(f, k, data, d) is Ok,
        l <= data.len(),
    ensures
        dec_record(f, k, data.take(l as int), d) == truncated(dec_record(f, k, data, d), l),
    decreases d, 4nat, 0nat,
{
    lemma_min_dec_record(f, k, data, d);
    if l >= min_record(f, k, d) {
        lemma_tr_items(f, items_of(f, k), data, items_of(f, k).len(), d, l);
    }
}


pub proof fn lemma_uint_bytes_len(n: nat, w: nat, e: Endian)
    ensures
        uint_bytes(n, w, e).len() == w,
{
    lemma_le_bytes_len(n, w);
}

pub proof fn lemma_sz_elem(f: File, t: Type, e: Endian, v: Val, d: nat)
    requires
        enc_elem(f, t, e, v, d) is Ok,
    ensures
        enc_elem(f, t, e, v, d)->Ok_0.len() == size_elem(f, t, v, d),
    decreases d, 0nat, 0nat,
{
    match t {
        Type::String => {
            lemma_uint_bytes_len(v->Text_0.len(), 2, e);
        },
        Type::CString => {},
        Type::User(name) => {
            let k = find_struct(f, name@)->Some_0;
            lemma_sz_record(f, k, v->Record_0, (d - 1) as nat);
        },
        _ => {
            let w = fixed_width(t).unwrap();
            match v {
                Val::Unsigned(x) => lemma_uint_bytes_len(x as nat, w, e),
                Val::Signed(x) => lemma_uint_bytes_len(signed_bits(x as int, w), w, e),
                _ => {},
            }
        },
    }
}

pub proof fn lemma_sz_list(f: File, t: Type, e: Endian, es: Seq<Val>, n: nat, d: nat)
    requires
        enc_list(f, t, e, es, n, d) is Ok,
    ensures
        enc_list(f, t, e, es, n, d)->Ok_0.len() == size_list(f, t, es, n, d),
    decreases d, 0nat, n,
{
    if n > 0 {
        lemma_sz_list(f, t, e, es, (n - 1) as nat, d);
        lemma_sz_elem(f, t, e, es[n - 1], d);
    }
}

pub proof fn lemma_sz_item(f: File, items: Seq<Item>, fs: Seq<Val>, i: nat, d: nat)
    requires
        i < items.len(),
        i < fs.len(),
        enc_item(f, items, fs, i, d) is Ok,
    ensures
        enc_item(f, items, fs, i, d)->Ok_0.len() == size_item(f, items[i as int], fs[i as int], d),
    decreases d, 1nat, 0nat,
{
    let it = items[i as int];
    let v = fs[i as int];
    match it.array {
        None => lemma_sz_elem(f, it.kind, it.byte_order, v, d),
        Some(Array::Constant(n)) => match it.kind {
            Type::CString => {},
            _ => lemma_sz_list(f, it.kind, it.byte_order, v->List_0, v->List_0.len(), d),
        },
        Some(Array::Variable(_, _)) => {
            lemma_sz_list(f, it.kind, it.byte_order, v->List_0, v->List_0.len(), d);
        },
        Some(Array::Unknown(pt)) => {
            let w = fixed_width(pt).unwrap();
            lemma_uint_bytes_len(v->List_0.len(), w, it.byte_order);
            lemma_sz_list(f, it.kind, it.byte_order, v->List_0, v->List_0.len(), d);
        },
    }
}

pub proof fn lemma_sz_items(f: File, items: Seq<Item>, fs: Seq<Val>, n: nat, d: nat)
    requires
        n <= items.len(),
        n <= fs.len(),
        enc_items(f, items, fs, n, d) is Ok,
    ensures
        enc_items(f, items, fs, n, d)->Ok_0.len() == size_items(f, items, fs, n, d),
    decreases d, 2nat, n,
{
    if n > 0 {
        lemma_sz_items(f, items, fs, (n - 1) as nat, d);
        lemma_sz_item(f, items, fs, (n - 1) as nat, d);
    }
}

pub proof fn lemma_sz_record(f: File, k: nat, fs: Seq<Val>, d: nat)
    requires
        enc_record(f, k, fs, d) is Ok,
    ensures
        enc_record(f, k, fs, d)->Ok_0.len() == size_record(f, k, fs, d),
    decreases d, 3nat, 0nat,
{
    lemma_sz_items(f, items_of(f, k), fs, fs.len(), d);
}


proof fn lemma_mul_step(n: nat, m: nat)
    requires
        n > 0,
    ensures
        ((n - 1) * m) + m == n * m,
{
    assert(((n - 1) * m) + m == n * m) by (nonlinear_arith)
        requires
            n > 0,
    ;
}

pub proof fn lemma_min_enc_elem(f: File, t: Type, e: Endian, v: Val, d: nat)
    requires
        enc_elem(f, t, e, v, d) is Ok,
    ensures
        enc_elem(f, t, e, v, d)->Ok_0.len() >= min_elem(f, t, d),
    decreases d, 0nat, 0nat,
{
    lemma_sz_elem(f, t, e, v, d);
    if let Type::User(name) = t {
        let k = find_struct(f, name@)->Some_0;
        lemma_min_enc_record(f, k, v->Record_0, (d - 1) as nat);
    }
}

pub proof fn lemma_min_enc_list(f: File, t: Type, e: Endian, es: Seq<Val>, n: nat, d: nat)
    requires
        enc_list(f, t, e, es, n, d) is Ok,
    ensures
        enc_list(f, t, e, es, n, d)->Ok_0.len() >= n * min_elem(f, t, d),
    decreases d, 0nat, n,
{
    if n > 0 {
        lemma_min_enc_list(f, t, e, es, (n - 1) as nat, d);
        lemma_min_enc_elem(f, t, e, es[n - 1], d);
        lemma_mul_step(n, min_elem(f, t, d));
    }
}

pub proof fn lemma_min_enc_item(f: File, items: Seq<Item>, fs: Seq<Val>, i: nat, d: nat)
    requires
        i < items.len(),
        i < fs.len(),
        enc_item(f, items, fs, i, d) is Ok,
    ensures
        enc_item(f, items, fs, i, d)->Ok_0.len() >= min_item(f, items[i as int], d),
    decreases d, 1nat, 0nat,
{
    let it = items[i as int];
    let v = fs[i as int];
    match it.array {
        None => lemma_min_enc_elem(f, it.kind, it.byte_order, v, d),
        Some(Array::Constant(n)) => match it.kind {
            Type::CString => {},
            _ => lemma_min_enc_list(f, it.kind, it.byte_order, v->List_0, v->List_0.len(), d),
        },
        Some(Array::Variable(_, _)) => {},
        Some(Array::Unknown(pt)) => {
            lemma_uint_bytes_len(v->List_0.len(), fixed_width(pt).unwrap(), it.byte_order);
        },
    }
}

pub proof fn lemma_min_enc_items(f: File, items: Seq<Item>, fs: Seq<Val>, n: nat, d: nat)
    requires
        n <= items.len(),
        n <= fs.len(),
        enc_items(f, items, fs, n, d) is Ok,
    ensures
        enc_items(f, items, fs, n, d)->Ok_0.len() >= min_items(f, items, n, d),
    decreases d, 2nat, n,
{
    if n > 0 {
        lemma_min_enc_items(f, items, fs, (n - 1) as nat, d);
        lemma_min_enc_item(f, items, fs, (n - 1) as nat, d);
    }
}

pub proof fn lemma_min_enc_record(f: File, k: nat, fs: Seq<Val>, d: nat)
    requires
        enc_record(f, k, fs, d) is Ok,
    ensures
        enc_record(f, k, fs, d)->Ok_0.len() >= min_record(f, k, d),
    decreases d, 3nat, 0nat,
{
    lemma_min_enc_items(f, items_of(f, k), fs, fs.len(), d);
}

pub proof fn lemma_min_dec_elem(f: File, t: Type, e: Endian, data: Seq<u8>, d: nat)
    requires
        dec_elem(f, t, e, data, d) is Ok,
    ensures
        dec_elem(f, t, e, data, d)->Ok_0.1 >= min_elem(f, t, d),
    decreases d, 0nat, 0nat,
{
    if let Type::User(name) = t {
        let k = find_struct(f, name@)->Some_0;
        lemma_min_dec_record(f, k, data, (d - 1) as nat);
    }
}

pub proof fn lemma_min_dec_list(f: File, t: Type, e: Endian, data: Seq<u8>, n: nat, d: nat)
    requires
        dec_list(f, t, e, data, n, d) is Ok,
    ensures
        dec_list(f, t, e, data, n, d)->Ok_0.1 >= n * min_elem(f, t, d),
    decreases d, 0nat, n,
{
    if n > 0 {
        let m = dec_list(f, t, e, data, (n - 1) as nat, d)->Ok_0.1;
        lemma_min_dec_list(f, t, e, data, (n - 1) as nat, d);
        lemma_min_dec_elem(f, t, e, data.subrange(m as int, data.len() as int), d);
        lemma_mul_step(n, min_elem(f, t, d));
    }
}

pub proof fn lemma_min_dec_item(
    f: File,
    items: Seq<Item>,
    prior: Seq<Val>,
    i: nat,
    data: Seq<u8>,
    d: nat,
)
    requires
        i < items.len(),
        dec_item(f, items, prior, i, data, d) is Ok,
    ensures
        dec_item(f, items, prior, i, data, d)->Ok_0.1 >= min_item(f, items[i as int], d),
    decreases d, 1nat, 0nat,
{
    let it = items[i as int];
    match it.array {
        None => lemma_min_dec_elem(f, it.kind, it.byte_order, data, d),
        Some(Array::Constant(n)) => match it.kind {
            Type::CString => {},
            _ => lemma_min_dec_list(f, it.kind, it.byte_order, data, n as nat, d),
        },
        _ => {},
    }
}

pub proof fn lemma_min_dec_items(f: File, items: Seq<Item>, data: Seq<u8>, n: nat, d: nat)
    requires
        n <= items.len(),
        dec_items(f, items, data, n, d) is Ok,
    ensures
        dec_items(f, items, data, n, d)->Ok_0.1 >= min_items(f, items, n, d),
    decreases d, 2nat, n,
{
    if n > 0 {
        let fs = dec_items(f, items, data, (n - 1) as nat, d)->Ok_0.0;
        let m = dec_items(f, items, data, (n - 1) as nat, d)->Ok_0.1;
        lemma_min_dec_items(f, items, data, (n - 1) as nat, d);
        lemma_min_dec_item(f, items, fs, (n - 1) as nat, data.subrange(m as int, data.len() as int), d);
    }
}

pub proof fn lemma_min_dec_record(f: File, k: nat, data: Seq<u8>, d: nat)
    requires
        dec_record(f, k, data, d) is Ok,
    ensures
        dec_record(f, k, data, d)->Ok_0.1 >= min_record(f, k, d),
    decreases d, 3nat, 0nat,
{
    lemma_min_dec_items(f, items_of(f, k), data, items_of(f, k).len(), d);
}

} // verus!
