//! Sizing, encoding and decoding of record values, driven by a schema.
use vstd::prelude::*;
use crate::primitive::{
    PError,
    pow256,
    uint_bytes,
    write_uint,
    read_uint,
    lemma_pow256_facts,
    lemma_uint_value_bound,
};
use crate::types::{Array, Endian, File, Item, Type, is_integer, is_signed};
use crate::value::{Val, Value, vals_of, lemma_vals_of_index, lemma_vals_of_len, lemma_vals_of_push};
use crate::wire::{
    MAX_NESTING,
    first_index,
    lemma_first_index_stable,
    lemma_first_index_bound,
    struct_names,
    item_names,
    find_struct,
    items_of,
    count_of,
    half,
    signed_bits,
    from_signed_bits,
    count_fits,
    cstr_text,
    zeros,
    enc_elem,
    enc_list,
    enc_item,
    enc_items,
    enc_record,
    dec_elem,
    dec_list,
    dec_item,
    dec_items,
    dec_record,
    encoding,
    decoding,
    size_elem,
    size_list,
    size_item,
    size_items,
    size_record,
    wire_size,
    fit,
    min_elem,
    min_item,
    min_items,
    min_record,
};
use crate::wire_facts::{lemma_rt_record, lemma_tr_record, lemma_sz_record};

verus! {

/// Index of the first struct of `f` named `name`.
pub fn lookup_struct(f: &File, name: &String) -> (r: Option<usize>)
    ensures
        r matches Some(k) ==> find_struct(*f, name@) == Some(k as nat),
        r is None ==> find_struct(*f, name@) is None,
{
    let mut i: usize = 0;
    while i < f.structs.len()
        invariant
            i <= f.structs@.len(),
            first_index(struct_names(*f), name@, i as nat) is None,
        decreases f.structs@.len() - i,
    {
        if f.structs[i].name == *name {
            proof {
                lemma_first_index_stable(struct_names(*f), name@, (i + 1) as nat, f.structs@.len());
            }
            return Some(i);
        }
        i = i + 1;
    }
    None
}

/// Index of the first of the first `n` items named `name`.
pub fn lookup_item(items: &Vec<Item>, name: &String, n: usize) -> (r: Option<usize>)
    requires
        n <= items@.len(),
    ensures
        r matches Some(k) ==> first_index(item_names(items@), name@, n as nat) == Some(k as nat),
        r is None ==> first_index(item_names(items@), name@, n as nat) is None,
{
    let mut i: usize = 0;
    while i < n
        invariant
            i <= n <= items@.len(),
            first_index(item_names(items@), name@, i as nat) is None,
        decreases n - i,
    {
        if items[i].name == *name {
            proof {
                lemma_first_index_stable(item_names(items@), name@, (i + 1) as nat, n as nat);
            }
            return Some(i);
        }
        i = i + 1;
    }
    None
}

/// The largest number that `w` bytes hold.
fn max_unsigned(w: usize) -> (r: u64)
    requires
        w == 1 || w == 2 || w == 4 || w == 8,
    ensures
        r as nat == pow256(w as nat) - 1,
{
    proof {
        lemma_pow256_facts();
    }
    if w == 1 {
        0xFF
    } else if w == 2 {
        0xFFFF
    } else if w == 4 {
        0xFFFF_FFFF
    } else {
        0xFFFF_FFFF_FFFF_FFFF
    }
}

/// Whether `x` lies in the range of a signed integer of `w` bytes.
fn fits_signed(x: i64, w: usize) -> (r: bool)
    requires
        w == 1 || w == 2 || w == 4 || w == 8,
    ensures
        r == (-half(w as nat) <= x < half(w as nat)),
{
    proof {
        lemma_pow256_facts();
    }
    if w == 1 {
        -0x80 <= x && x < 0x80
    } else if w == 2 {
        -0x8000 <= x && x < 0x8000
    } else if w == 4 {
        -0x8000_0000 <= x && x < 0x8000_0000
    } else {
        true
    }
}

/// Two's complement bits of `x` in `w` bytes.
pub fn to_signed_bits(x: i64, w: usize) -> (r: u64)
    requires
        w == 1 || w == 2 || w == 4 || w == 8,
        -half(w as nat) <= x < half(w as nat),
    ensures
        r as nat == signed_bits(x as int, w as nat),
        (r as nat) < pow256(w as nat),
{
    proof {
        lemma_pow256_facts();
    }
    if x >= 0 {
        x as u64
    } else {
        let m = max_unsigned(w);
        let y: i64 = -(x + 1);
        m - (y as u64)
    }
}

/// The signed number that two's complement bits `n` of `w` bytes stand for.
pub fn from_bits(n: u64, w: usize) -> (r: i64)
    requires
        w == 1 || w == 2 || w == 4 || w == 8,
        (n as nat) < pow256(w as nat),
    ensures
        r as int == from_signed_bits(n as nat, w as nat),
{
    proof {
        lemma_pow256_facts();
    }
    let m = max_unsigned(w);
    let h: u64 = m / 2;
    if n <= h {
        n as i64
    } else {
        let y: i64 = (m - n) as i64;
        -y - 1
    }
}

proof fn lemma_enc_list_err(f: File, t: Type, e: Endian, es: Seq<Val>, m: nat, n: nat, d: nat)
    requires
        m <= n,
        enc_list(f, t, e, es, m, d) is Err,
    ensures
        enc_list(f, t, e, es, n, d) == enc_list(f, t, e, es, m, d),
    decreases n,
{
    if n > m {
        lemma_enc_list_err(f, t, e, es, m, (n - 1) as nat, d);
    }
}

proof fn lemma_enc_items_err(f: File, items: Seq<Item>, fs: Seq<Val>, m: nat, n: nat, d: nat)
    requires
        m <= n,
        enc_items(f, items, fs, m, d) is Err,
    ensures
        enc_items(f, items, fs, n, d) == enc_items(f, items, fs, m, d),
    decreases n,
{
    if n > m {
        lemma_enc_items_err(f, items, fs, m, (n - 1) as nat, d);
    }
}

/// Appends the encoding of one element to `out`.
fn encode_elem(f: &File, t: &Type, e: Endian, v: &Value, d: usize, out: &mut Vec<u8>) -> (r: Result<
    (),
    PError,
>)
    ensures
        match enc_elem(*f, *t, e, v@, d as nat) {
            Ok(b) => r is Ok && final(out)@ == old(out)@ + b,
            Err(x) => r == Err::<(), PError>(x),
        },
    decreases d, 0nat,
{
    proof {
        lemma_pow256_facts();
    }
    match t {
        Type::String => match v {
            Value::Text(b) => {
                if b.len() > 0xFFFF {
                    return Err(PError::InvalidValue);
                }
                write_uint(out, b.len() as u64, 2, e);
                let mut j: usize = 0;
                let ghost start = out@;
                while j < b.len()
                    invariant
                        j <= b@.len(),
                        out@ == start + b@.take(j as int),
                    decreases b@.len() - j,
                {
                    out.push(b[j]);
                    assert(b@.take(j + 1) =~= b@.take(j as int).push(b@[j as int]));
                    j = j + 1;
                }
                assert(b@.take(b@.len() as int) =~= b@);
                assert(final(out)@ =~= old(out)@ + (uint_bytes(b@.len(), 2, e) + b@));
                Ok(())
            },
            _ => Err(PError::InvalidValue),
        },
        Type::CString => Err(PError::InvalidValue),
        Type::User(name) => match v {
            Value::Record(fs) => match lookup_struct(f, name) {
                Some(k) => {
                    if d == 0 {
                        Err(PError::TooDeep)
                    } else {
                        encode_record(f, k, fs, d - 1, out)
                    }
                },
                None => Err(PError::InvalidValue),
            },
            _ => Err(PError::InvalidValue),
        },
        _ => {
            let w = t.width().unwrap();
            match v {
                Value::Unsigned(x) => {
                    if !t.is_signed() && *x <= max_unsigned(w) {
                        write_uint(out, *x, w, e);
                        Ok(())
                    } else {
                        Err(PError::InvalidValue)
                    }
                },
                Value::Signed(x) => {
                    if t.is_signed() && fits_signed(*x, w) {
                        let bits = to_signed_bits(*x, w);
                        write_uint(out, bits, w, e);
                        Ok(())
                    } else {
                        Err(PError::InvalidValue)
                    }
                },
                _ => Err(PError::InvalidValue),
            }
        },
    }
}

/// Appends the encodings of all elements of `es` to `out`.
fn encode_list(f: &File, t: &Type, e: Endian, es: &Vec<Value>, d: usize, out: &mut Vec<u8>) -> (r: Result<
    (),
    PError,
>)
    ensures
        match enc_list(*f, *t, e, vals_of(es@), es@.len(), d as nat) {
            Ok(b) => r is Ok && final(out)@ == old(out)@ + b,
            Err(x) => r == Err::<(), PError>(x),
        },
    decreases d, 1nat,
{
    let ghost vs = vals_of(es@);
    proof {
        lemma_vals_of_len(es@);
    }
    let mut j: usize = 0;
    while j < es.len()
        invariant
            j <= es@.len(),
            vs == vals_of(es@),
            vs.len() == es@.len(),
            enc_list(*f, *t, e, vs, j as nat, d as nat) matches Ok(b) && out@ == old(out)@ + b,
        decreases es@.len() - j,
    {
        proof {
            lemma_vals_of_index(es@, j as int);
        }
        let ghost before = out@;
        let r = encode_elem(f, t, e, &es[j], d, out);
        match r {
            Ok(()) => {
                assert(enc_list(*f, *t, e, vs, (j + 1) as nat, d as nat) is Ok);
                assert(out@ =~= old(out)@ + enc_list(*f, *t, e, vs, (j + 1) as nat, d as nat)->Ok_0);
            },
            Err(x) => {
                proof {
                    lemma_enc_list_err(*f, *t, e, vs, (j + 1) as nat, es@.len(), d as nat);
                }
                return Err(x);
            },
        }
        j = j + 1;
    }
    Ok(())
}


/// Whether integer value `v` stands for a count of `n`.
fn count_is(v: &Value, n: usize) -> (r: bool)
    ensures
        r == (count_of(v@) == Some(n as nat)),
{
    match v {
        Value::Unsigned(x) => *x == n as u64,
        Value::Signed(x) => *x >= 0 && *x as u64 == n as u64,
        _ => false,
    }
}

/// Whether a count of `n` can be written as an integer of type `t`.
fn count_fits_in(n: usize, t: &Type) -> (r: bool)
    requires
        is_integer(*t),
    ensures
        r == count_fits(n as nat, *t),
{
    proof {
        lemma_pow256_facts();
    }
    let w = t.width().unwrap();
    let m = max_unsigned(w);
    if t.is_signed() {
        n as u64 <= m / 2
    } else {
        n as u64 <= m
    }
}

fn contains_zero(b: &Vec<u8>) -> (r: bool)
    ensures
        r == b@.contains(0u8),
{
    let mut j: usize = 0;
    while j < b.len()
        invariant
            j <= b@.len(),
            forall|k: int| 0 <= k < j ==> b@[k] != 0u8,
        decreases b@.len() - j,
    {
        if b[j] == 0 {
            return true;
        }
        j = j + 1;
    }
    false
}

/// Appends the encoding of item `i` of a record with item values `fs` to `out`.
fn encode_item(
    f: &File,
    items: &Vec<Item>,
    fs: &Vec<Value>,
    i: usize,
    d: usize,
    out: &mut Vec<u8>,
) -> (r: Result<(), PError>)
    requires
        i < items@.len(),
        i < fs@.len(),
    ensures
        match enc_item(*f, items@, vals_of(fs@), i as nat, d as nat) {
            Ok(b) => r is Ok && final(out)@ == old(out)@ + b,
            Err(x) => r == Err::<(), PError>(x),
        },
    decreases d, 2nat,
{
    proof {
        lemma_vals_of_index(fs@, i as int);
        lemma_pow256_facts();
    }
    let it = &items[i];
    let v = &fs[i];
    match &it.array {
        None => encode_elem(f, &it.kind, it.byte_order, v, d, out),
        Some(Array::Constant(n)) => match &it.kind {
            Type::CString => match v {
                Value::Text(b) => {
                    if b.len() > *n || contains_zero(b) {
                        return Err(PError::InvalidValue);
                    }
                    let ghost start = out@;
                    let mut j: usize = 0;
                    while j < b.len()
                        invariant
                            j <= b@.len(),
                            out@ == start + b@.take(j as int),
                        decreases b@.len() - j,
                    {
                        out.push(b[j]);
                        assert(b@.take(j + 1) =~= b@.take(j as int).push(b@[j as int]));
                        j = j + 1;
                    }
                    assert(b@.take(b@.len() as int) =~= b@);
                    let pad = *n - b.len();
                    let mut z: usize = 0;
                    while z < pad
                        invariant
                            z <= pad,
                            out@ == start + b@ + zeros(z as nat),
                        decreases pad - z,
                    {
                        out.push(0u8);
                        assert(zeros((z + 1) as nat) =~= zeros(z as nat).push(0u8));
                        z = z + 1;
                    }
                    assert(final(out)@ =~= old(out)@ + (b@ + zeros(pad as nat)));
                    Ok(())
                },
                _ => Err(PError::InvalidValue),
            },
            _ => match v {
                Value::List(es) => {
                    proof {
                        lemma_vals_of_len(es@);
                    }
                    if es.len() == *n {
                        encode_list(f, &it.kind, it.byte_order, es, d, out)
                    } else {
                        Err(PError::InvalidValue)
                    }
                },
                _ => Err(PError::InvalidValue),
            },
        },
        Some(Array::Variable(name, _)) => match v {
            Value::List(es) => {
                proof {
                    lemma_vals_of_len(es@);
                    lemma_first_index_bound(item_names(items@), name@, i as nat);
                }
                match lookup_item(items, name, i) {
                    Some(j) => {
                        proof {
                            lemma_vals_of_index(fs@, j as int);
                        }
                        if count_is(&fs[j], es.len()) {
                            encode_list(f, &it.kind, it.byte_order, es, d, out)
                        } else {
                            Err(PError::InvalidValue)
                        }
                    },
                    None => Err(PError::InvalidValue),
                }
            },
            _ => Err(PError::InvalidValue),
        },
        Some(Array::Unknown(pt)) => match v {
            Value::List(es) => {
                proof {
                    lemma_vals_of_len(es@);
                }
                if pt.is_integer() && count_fits_in(es.len(), pt) {
                    let w = pt.width().unwrap();
                    write_uint(out, es.len() as u64, w, it.byte_order);
                    let ghost mid = out@;
                    let r = encode_list(f, &it.kind, it.byte_order, es, d, out);
                    proof {
                        if r is Ok {
                            assert(final(out)@ =~= old(out)@ + (uint_bytes(
                                es@.len() as nat,
                                w as nat,
                                it.byte_order,
                            ) + enc_list(*f, it.kind, it.byte_order, vals_of(es@), es@.len(), d as nat)->Ok_0));
                        }
                    }
                    r
                } else {
                    Err(PError::InvalidValue)
                }
            },
            _ => Err(PError::InvalidValue),
        },
    }
}

/// Appends the encoding of a record of struct `k` with item values `fs` to `out`.
fn encode_record(f: &File, k: usize, fs: &Vec<Value>, d: usize, out: &mut Vec<u8>) -> (r: Result<
    (),
    PError,
>)
    ensures
        match enc_record(*f, k as nat, vals_of(fs@), d as nat) {
            Ok(b) => r is Ok && final(out)@ == old(out)@ + b,
            Err(x) => r == Err::<(), PError>(x),
        },
    decreases d, 3nat,
{
    proof {
        lemma_vals_of_len(fs@);
    }
    if k >= f.structs.len() {
        return Err(PError::InvalidValue);
    }
    let items = &f.structs[k].items;
    if fs.len() != items.len() {
        return Err(PError::InvalidValue);
    }
    let ghost vs = vals_of(fs@);
    let mut i: usize = 0;
    while i < items.len()
        invariant
            i <= items@.len(),
            k < f.structs@.len(),
            items@ == items_of(*f, k as nat),
            fs@.len() == items@.len(),
            vs == vals_of(fs@),
            vs.len() == fs@.len(),
            enc_items(*f, items@, vs, i as nat, d as nat) matches Ok(b) && out@ == old(out)@ + b,
        decreases items@.len() - i,
    {
        let r = encode_item(f, items, fs, i, d, out);
        match r {
            Ok(()) => {
                assert(enc_items(*f, items@, vs, (i + 1) as nat, d as nat) is Ok);
                assert(out@ =~= old(out)@ + enc_items(*f, items@, vs, (i + 1) as nat, d as nat)->Ok_0);
            },
            Err(x) => {
                assert(enc_items(*f, items@, vs, (i + 1) as nat, d as nat) == Err::<Seq<u8>, PError>(x));
                proof {
                    lemma_enc_items_err(*f, items@, vs, (i + 1) as nat, items@.len(), d as nat);
                }
                assert(enc_record(*f, k as nat, vs, d as nat) == enc_items(*f, items@, vs, items@.len(), d as nat));
                return Err(x);
            },
        }
        i = i + 1;
    }
    Ok(())
}


proof fn lemma_dec_list_err(f: File, t: Type, e: Endian, data: Seq<u8>, m: nat, n: nat, d: nat)
    requires
        m <= n,
        dec_list(f, t, e, data, m, d) is Err,
    ensures
        dec_list(f, t, e, data, n, d) == dec_list(f, t, e, data, m, d),
    decreases n,
{
    if n > m {
        lemma_dec_list_err(f, t, e, data, m, (n - 1) as nat, d);
    }
}

proof fn lemma_dec_items_err(f: File, items: Seq<Item>, data: Seq<u8>, m: nat, n: nat, d: nat)
    requires
        m <= n,
        dec_items(f, items, data, m, d) is Err,
    ensures
        dec_items(f, items, data, n, d) == dec_items(f, items, data, m, d),
    decreases n,
{
    if n > m {
        lemma_dec_items_err(f, items, data, m, (n - 1) as nat, d);
    }
}

/// A zero-padded text is its bytes up to the first zero.
proof fn lemma_cstr_prefix(b: Seq<u8>, j: nat)
    requires
        j <= b.len(),
        forall|k: int| 0 <= k < j ==> b[k] != 0u8,
    ensures
        cstr_text(b) == b.take(j as int) + cstr_text(b.subrange(j as int, b.len() as int)),
    decreases j,
{
    if j > 0 {
        lemma_cstr_prefix(b.drop_first(), (j - 1) as nat);
        assert(b.drop_first().take(j - 1) =~= b.take(j as int).drop_first());
        assert(b.drop_first().subrange(j - 1, b.len() - 1) =~= b.subrange(j as int, b.len() as int));
        assert(seq![b[0]] + b.take(j as int).drop_first() =~= b.take(j as int));
        assert((seq![b[0]] + b.take(j as int).drop_first()) + cstr_text(b.subrange(j as int, b.len() as int))
            =~= seq![b[0]] + (b.take(j as int).drop_first() + cstr_text(b.subrange(j as int, b.len() as int))));
    } else {
        assert(b.subrange(0, b.len() as int) =~= b);
        assert(b.take(0) + cstr_text(b) =~= cstr_text(b));
    }
}

/// Copies `data[pos..pos + n]`.
fn copy_bytes(data: &[u8], pos: usize, n: usize) -> (r: Vec<u8>)
    requires
        pos + n <= data@.len(),
    ensures
        r@ == data@.subrange(pos as int, pos + n),
{
    let len = data.len();
    let mut out: Vec<u8> = Vec::new();
    let mut j: usize = 0;
    while j < n
        invariant
            j <= n,
            pos + n <= data@.len(),
            len == data@.len(),
            out@ == data@.subrange(pos as int, pos + j),
        decreases n - j,
    {
        out.push(data[pos + j]);
        assert(out@ =~= data@.subrange(pos as int, pos + j + 1));
        j = j + 1;
    }
    out
}

/// The text held zero-padded in `data[pos..pos + n]`.
fn read_cstr(data: &[u8], pos: usize, n: usize) -> (r: Vec<u8>)
    requires
        pos + n <= data@.len(),
    ensures
        r@ == cstr_text(data@.subrange(pos as int, pos + n)),
{
    let ghost b = data@.subrange(pos as int, pos + n);
    let len = data.len();
    let mut out: Vec<u8> = Vec::new();
    let mut j: usize = 0;
    while j < n && data[pos + j] != 0
        invariant
            j <= n,
            pos + n <= data@.len(),
            len == data@.len(),
            b == data@.subrange(pos as int, pos + n),
            out@ == b.take(j as int),
            forall|k: int| 0 <= k < j ==> b[k] != 0u8,
        decreases n - j,
    {
        out.push(data[pos + j]);
        assert(out@ =~= b.take(j + 1));
        j = j + 1;
    }
    proof {
        lemma_cstr_prefix(b, j as nat);
        let rest = b.subrange(j as int, n as int);
        assert(rest.len() == 0 || rest[0] == 0);
        assert(cstr_text(rest) == Seq::<u8>::empty());
        assert(out@ + Seq::<u8>::empty() =~= out@);
    }
    out
}

/// The count that an integer value stands for.
fn count_value(v: &Value) -> (r: Option<u64>)
    ensures
        r matches Some(n) ==> count_of(v@) == Some(n as nat),
        r is None ==> count_of(v@) is None,
{
    match v {
        Value::Unsigned(x) => Some(*x),
        Value::Signed(x) => if *x >= 0 {
            Some(*x as u64)
        } else {
            None
        },
        _ => None,
    }
}

/// Decodes one element at `pos`: the value and the position after it.
fn decode_elem(f: &File, t: &Type, e: Endian, data: &[u8], pos: usize, d: usize) -> (r: Result<
    (Value, usize),
    PError,
>)
    requires
        pos <= data@.len(),
    ensures
        match dec_elem(*f, *t, e, data@.subrange(pos as int, data@.len() as int), d as nat) {
            Ok((v, c)) => r matches Ok((x, p)) && x@ == v && p == pos + c && p <= data@.len(),
            Err(x) => r == Err::<(Value, usize), PError>(x),
        },
    decreases d, 0nat,
{
    proof {
        lemma_pow256_facts();
    }
    let ghost rest = data@.subrange(pos as int, data@.len() as int);
    let len = data.len();
    match t {
        Type::String => {
            if len - pos < 2 {
                return Err(PError::NotEnoughData);
            }
            let n = read_uint(data, pos, 2, e);
            assert(rest.subrange(0, 2) =~= data@.subrange(pos as int, pos + 2));
            proof {
                lemma_uint_value_bound(rest.subrange(0, 2), e);
            }
            let n = n as usize;
            if len - pos - 2 < n {
                return Err(PError::NotEnoughData);
            }
            let b = copy_bytes(data, pos + 2, n);
            assert(rest.subrange(2, 2 + n as int) =~= data@.subrange(pos + 2, pos + 2 + n));
            Ok((Value::Text(b), pos + 2 + n))
        },
        Type::CString => Err(PError::InvalidData),
        Type::User(name) => match lookup_struct(f, name) {
            Some(k) => {
                if d == 0 {
                    Err(PError::TooDeep)
                } else {
                    match decode_record(f, k, data, pos, d - 1) {
                        Ok((fs, p)) => Ok((Value::Record(fs), p)),
                        Err(x) => Err(x),
                    }
                }
            },
            None => Err(PError::InvalidData),
        },
        _ => {
            let w = t.width().unwrap();
            if len - pos < w {
                return Err(PError::NotEnoughData);
            }
            let n = read_uint(data, pos, w, e);
            assert(rest.subrange(0, w as int) =~= data@.subrange(pos as int, pos + w));
            proof {
                lemma_uint_value_bound(rest.subrange(0, w as int), e);
            }
            if t.is_signed() {
                Ok((Value::Signed(from_bits(n, w)), pos + w))
            } else {
                Ok((Value::Unsigned(n), pos + w))
            }
        },
    }
}

/// Decodes `n` elements one after the other, starting at `pos`.
fn decode_list(f: &File, t: &Type, e: Endian, data: &[u8], pos: usize, n: u64, d: usize) -> (r: Result<
    (Vec<Value>, usize),
    PError,
>)
    requires
        pos <= data@.len(),
    ensures
        match dec_list(*f, *t, e, data@.subrange(pos as int, data@.len() as int), n as nat, d as nat) {
            Ok((es, c)) => r matches Ok((xs, p)) && vals_of(xs@) == es && p == pos + c && p <= data@.len(),
            Err(x) => r == Err::<(Vec<Value>, usize), PError>(x),
        },
    decreases d, 1nat,
{
    let ghost rest = data@.subrange(pos as int, data@.len() as int);
    let mut out: Vec<Value> = Vec::new();
    let mut p = pos;
    let mut j: u64 = 0;
    while j < n
        invariant
            j <= n,
            pos <= p <= data@.len(),
            rest == data@.subrange(pos as int, data@.len() as int),
            dec_list(*f, *t, e, rest, j as nat, d as nat) == Ok::<(Seq<Val>, nat), PError>(
                (vals_of(out@), (p - pos) as nat),
            ),
        decreases n - j,
    {
        assert(rest.subrange(p - pos, rest.len() as int) =~= data@.subrange(p as int, data@.len() as int));
        match decode_elem(f, t, e, data, p, d) {
            Ok((v, q)) => {
                proof {
                    lemma_vals_of_push(out@, v);
                }
                out.push(v);
                p = q;
            },
            Err(x) => {
                proof {
                    lemma_dec_list_err(*f, *t, e, rest, (j + 1) as nat, n as nat, d as nat);
                }
                return Err(x);
            },
        }
        j = j + 1;
    }
    Ok((out, p))
}

/// Decodes item `i` at `pos`, where `prior` holds the values of the items
/// before it.
#[verifier::rlimit(60)]
fn decode_item(
    f: &File,
    items: &Vec<Item>,
    prior: &Vec<Value>,
    i: usize,
    data: &[u8],
    pos: usize,
    d: usize,
) -> (r: Result<(Value, usize), PError>)
    requires
        i < items@.len(),
        prior@.len() == i,
        pos <= data@.len(),
    ensures
        match dec_item(
            *f,
            items@,
            vals_of(prior@),
            i as nat,
            data@.subrange(pos as int, data@.len() as int),
            d as nat,
        ) {
            Ok((v, c)) => r matches Ok((x, p)) && x@ == v && p == pos + c && p <= data@.len(),
            Err(x) => r == Err::<(Value, usize), PError>(x),
        },
    decreases d, 2nat,
{
    proof {
        lemma_pow256_facts();
    }
    let ghost rest = data@.subrange(pos as int, data@.len() as int);
    let len = data.len();
    let it = &items[i];
    match &it.array {
        None => decode_elem(f, &it.kind, it.byte_order, data, pos, d),
        Some(Array::Constant(n)) => match &it.kind {
            Type::CString => {
                if len - pos < *n {
                    return Err(PError::NotEnoughData);
                }
                let b = read_cstr(data, pos, *n);
                assert(rest.subrange(0, *n as int) =~= data@.subrange(pos as int, pos + *n));
                Ok((Value::Text(b), pos + *n))
            },
            _ => match decode_list(f, &it.kind, it.byte_order, data, pos, *n as u64, d) {
                Ok((es, p)) => Ok((Value::List(es), p)),
                Err(x) => Err(x),
            },
        },
        Some(Array::Variable(name, _)) => {
            proof {
                lemma_first_index_bound(item_names(items@), name@, i as nat);
            }
            match lookup_item(items, name, i) {
                Some(j) => {
                    proof {
                        lemma_vals_of_index(prior@, j as int);
                    }
                    match count_value(&prior[j]) {
                        Some(n) => match decode_list(f, &it.kind, it.byte_order, data, pos, n, d) {
                            Ok((es, p)) => Ok((Value::List(es), p)),
                            Err(x) => Err(x),
                        },
                        None => Err(PError::InvalidData),
                    }
                },
                None => Err(PError::InvalidData),
            }
        },
        Some(Array::Unknown(pt)) => {
            if !pt.is_integer() {
                return Err(PError::InvalidData);
            }
            let w = pt.width().unwrap();
            if len - pos < w {
                return Err(PError::NotEnoughData);
            }
            let raw = read_uint(data, pos, w, it.byte_order);
            assert(rest.subrange(0, w as int) =~= data@.subrange(pos as int, pos + w));
            if pt.is_signed() && raw > max_unsigned(w) / 2 {
                return Err(PError::InvalidData);
            }
            assert(rest.subrange(w as int, rest.len() as int) =~= data@.subrange(pos + w, data@.len() as int));
            match decode_list(f, &it.kind, it.byte_order, data, pos + w, raw, d) {
                Ok((es, p)) => Ok((Value::List(es), p)),
                Err(x) => Err(x),
            }
        },
    }
}

/// Decodes the items of a record of struct `k` at `pos`: their values and
/// the position after them.
#[verifier::rlimit(60)]
fn decode_items(f: &File, k: usize, data: &[u8], pos: usize, d: usize) -> (r: Result<
    (Vec<Value>, usize),
    PError,
>)
    requires
        pos <= data@.len(),
        k < f.structs@.len(),
    ensures
        match dec_items(
            *f,
            items_of(*f, k as nat),
            data@.subrange(pos as int, data@.len() as int),
            items_of(*f, k as nat).len(),
            d as nat,
        ) {
            Ok((fs, c)) => r matches Ok((xs, p)) && vals_of(xs@) == fs && p == pos + c && p <= data@.len(),
            Err(x) => r == Err::<(Vec<Value>, usize), PError>(x),
        },
    decreases d, 3nat,
{
    let ghost rest = data@.subrange(pos as int, data@.len() as int);
    let items = &f.structs[k].items;
    let mut out: Vec<Value> = Vec::new();
    let mut p = pos;
    let mut i: usize = 0;
    while i < items.len()
        invariant
            i <= items@.len(),
            k < f.structs@.len(),
            items@ == items_of(*f, k as nat),
            out@.len() == i,
            pos <= p <= data@.len(),
            rest == data@.subrange(pos as int, data@.len() as int),
            dec_items(*f, items@, rest, i as nat, d as nat) == Ok::<(Seq<Val>, nat), PError>(
                (vals_of(out@), (p - pos) as nat),
            ),
        decreases items@.len() - i,
    {
        assert(rest.subrange(p - pos, rest.len() as int) =~= data@.subrange(p as int, data@.len() as int));
        match decode_item(f, items, &out, i, data, p, d) {
            Ok((v, q)) => {
                proof {
                    lemma_vals_of_push(out@, v);
                }
                out.push(v);
                p = q;
            },
            Err(x) => {
                proof {
                    lemma_dec_items_err(*f, items@, rest, (i + 1) as nat, items@.len(), d as nat);
                }
                return Err(x);
            },
        }
        i = i + 1;
    }
    Ok((out, p))
}

/// Decodes a record of struct `k` at `pos`: its item values and the
/// position after it.
fn decode_record(f: &File, k: usize, data: &[u8], pos: usize, d: usize) -> (r: Result<
    (Vec<Value>, usize),
    PError,
>)
    requires
        pos <= data@.len(),
    ensures
        match dec_record(*f, k as nat, data@.subrange(pos as int, data@.len() as int), d as nat) {
            Ok((fs, c)) => r matches Ok((xs, p)) && vals_of(xs@) == fs && p == pos + c && p <= data@.len(),
            Err(x) => r == Err::<(Vec<Value>, usize), PError>(x),
        },
    decreases d, 4nat,
{
    if k >= f.structs.len() {
        return Err(PError::InvalidData);
    }
    // Bounds the length of `data` by the machine word, for the sums below.
    let _len = data.len();
    match record_min(f, k, d) {
        Some(m) => {
            if data.len() - pos < m {
                return Err(PError::NotEnoughData);
            }
        },
        None => {
            return Err(PError::NotEnoughData);
        },
    }
    decode_items(f, k, data, pos, d)
}

/// `a * b`, where the product fits in a machine word.
fn mul_size(a: usize, b: Option<usize>) -> (r: Option<usize>)
    ensures
        r == (match b {
            Some(y) => fit((a * y) as nat),
            None => if a == 0 {
                Some(0usize)
            } else {
                None::<usize>
            },
        }),
{
    match b {
        Some(y) => {
            if y == 0 || a <= usize::MAX / y {
                proof {
                    if y > 0 {
                        assert(a * y <= usize::MAX) by (nonlinear_arith)
                            requires
                                a <= usize::MAX / y,
                                y > 0,
                        ;
                    }
                }
                Some(a * y)
            } else {
                assert(a * y > usize::MAX) by (nonlinear_arith)
                    requires
                        a > usize::MAX / y,
                        y > 0,
                ;
                None
            }
        },
        None => if a == 0 {
            Some(0)
        } else {
            None
        },
    }
}

/// The fewest bytes an element takes.
fn elem_min(f: &File, t: &Type, d: usize) -> (r: Option<usize>)
    ensures
        r == fit(min_elem(*f, *t, d as nat)),
    decreases d, 0nat,
{
    match t {
        Type::String => Some(2),
        Type::CString => Some(0),
        Type::User(name) => match lookup_struct(f, name) {
            Some(k) => {
                if d == 0 {
                    Some(0)
                } else {
                    record_min(f, k, d - 1)
                }
            },
            None => Some(0),
        },
        _ => Some(t.width().unwrap()),
    }
}

/// The fewest bytes an item takes.
fn item_min(f: &File, it: &Item, d: usize) -> (r: Option<usize>)
    ensures
        r == fit(min_item(*f, *it, d as nat)),
    decreases d, 1nat,
{
    match &it.array {
        None => elem_min(f, &it.kind, d),
        Some(Array::Constant(n)) => match &it.kind {
            Type::CString => Some(*n),
            _ => {
                let m = elem_min(f, &it.kind, d);
                proof {
                    if m is None && *n > 0 {
                        assert(*n * min_elem(*f, it.kind, d as nat) >= min_elem(*f, it.kind, d as nat))
                            by (nonlinear_arith)
                            requires
                                *n > 0,
                        ;
                    }
                }
                mul_size(*n, m)
            },
        },
        Some(Array::Variable(_, _)) => Some(0),
        Some(Array::Unknown(pt)) => match pt.width() {
            Some(w) => Some(w),
            None => Some(0),
        },
    }
}

proof fn lemma_min_items_mono(f: File, items: Seq<Item>, m: nat, n: nat, d: nat)
    requires
        m <= n,
    ensures
        min_items(f, items, m, d) <= min_items(f, items, n, d),
    decreases n,
{
    if n > m {
        lemma_min_items_mono(f, items, m, (n - 1) as nat, d);
    }
}

/// The fewest bytes a record of struct `k` takes.
fn record_min(f: &File, k: usize, d: usize) -> (r: Option<usize>)
    ensures
        r == fit(min_record(*f, k as nat, d as nat)),
    decreases d, 2nat,
{
    if k >= f.structs.len() {
        return Some(0);
    }
    let items = &f.structs[k].items;
    let mut acc: usize = 0;
    let mut i: usize = 0;
    while i < items.len()
        invariant
            i <= items@.len(),
            k < f.structs@.len(),
            items@ == items_of(*f, k as nat),
            acc as nat == min_items(*f, items@, i as nat, d as nat),
        decreases items@.len() - i,
    {
        proof {
            lemma_min_items_mono(*f, items@, (i + 1) as nat, items@.len(), d as nat);
        }
        match add_size(Some(acc), item_min(f, &items[i], d)) {
            Some(x) => {
                acc = x;
            },
            None => {
                return None;
            },
        }
        i = i + 1;
    }
    Some(acc)
}


/// Encodes record `value` of the struct named `name`.
pub fn encode(file: &File, name: &str, value: &Value) -> (r: Result<Vec<u8>, PError>)
    ensures
        match encoding(*file, name@, value@) {
            Ok(b) => r matches Ok(x) && x@ == b,
            Err(e) => r == Err::<Vec<u8>, PError>(e),
        },
{
    let n: String = name.to_owned();
    match lookup_struct(file, &n) {
        Some(k) => match value {
            Value::Record(fs) => {
                let mut out: Vec<u8> = Vec::new();
                match encode_record(file, k, fs, MAX_NESTING, &mut out) {
                    Ok(()) => {
                        assert(out@ =~= encoding(*file, name@, value@)->Ok_0);
                        Ok(out)
                    },
                    Err(e) => Err(e),
                }
            },
            _ => Err(PError::InvalidValue),
        },
        None => Err(PError::InvalidValue),
    }
}

/// Encodes record `value` of the struct named `name` into the front of
/// `buf`, and returns how many bytes it wrote; the rest of `buf` is kept.
pub fn encode_buf(file: &File, name: &str, value: &Value, buf: &mut [u8]) -> (r: Result<
    usize,
    PError,
>)
    ensures
        match encoding(*file, name@, value@) {
            Ok(b) => if b.len() <= old(buf)@.len() {
                r == Ok::<usize, PError>(b.len() as usize) && final(buf)@ == b + old(buf)@.subrange(
                    b.len() as int,
                    old(buf)@.len() as int,
                )
            } else {
                r == Err::<usize, PError>(PError::BufTooSmall) && final(buf)@ == old(buf)@
            },
            Err(e) => r == Err::<usize, PError>(e) && final(buf)@ == old(buf)@,
        },
{
    let bytes = encode(file, name, value)?;
    if bytes.len() > buf.len() {
        return Err(PError::BufTooSmall);
    }
    let mut j: usize = 0;
    while j < bytes.len()
        invariant
            j <= bytes@.len() <= buf@.len(),
            buf@.len() == old(buf)@.len(),
            forall|k: int| 0 <= k < j ==> buf@[k] == bytes@[k],
            forall|k: int| bytes@.len() <= k < buf@.len() ==> buf@[k] == old(buf)@[k],
        decreases bytes@.len() - j,
    {
        buf[j] = bytes[j];
        j = j + 1;
    }
    assert(buf@ =~= bytes@ + old(buf)@.subrange(bytes@.len() as int, old(buf)@.len() as int));
    Ok(bytes.len())
}

/// Decodes a record of the struct named `name` from the front of `data`.
pub fn decode(file: &File, name: &str, data: &[u8]) -> (r: Result<Value, PError>)
    ensures
        match decoding(*file, name@, data@) {
            Ok((v, _)) => r matches Ok(x) && x@ == v,
            Err(e) => r == Err::<Value, PError>(e),
        },
{
    let n: String = name.to_owned();
    match lookup_struct(file, &n) {
        Some(k) => {
            assert(data@.subrange(0, data@.len() as int) =~= data@);
            match decode_record(file, k, data, 0, MAX_NESTING) {
                Ok((fs, _)) => Ok(Value::Record(fs)),
                Err(e) => Err(e),
            }
        },
        None => Err(PError::InvalidData),
    }
}

/// Round trip: decoding the encoding of a record value gives the value back
/// and takes exactly the bytes of the encoding.
pub proof fn lemma_decode_encode(f: File, name: Seq<char>, v: Val)
    requires
        encoding(f, name, v) is Ok,
    ensures
        decoding(f, name, encoding(f, name, v)->Ok_0) == Ok::<(Val, nat), PError>(
            (v, encoding(f, name, v)->Ok_0.len()),
        ),
{
    let b = encoding(f, name, v)->Ok_0;
    let k = find_struct(f, name)->Some_0;
    lemma_rt_record(f, k, v->Record_0, MAX_NESTING as nat, Seq::empty());
    assert(b + Seq::<u8>::empty() =~= b);
}


/// Truncation: a buffer one byte shorter than the encoding of a record does
/// not decode, and the decoder reports that the data ran out.
pub proof fn lemma_decode_truncated(f: File, name: Seq<char>, v: Val)
    requires
        encoding(f, name, v) is Ok,
        encoding(f, name, v)->Ok_0.len() > 0,
    ensures
        decoding(f, name, encoding(f, name, v)->Ok_0.take(encoding(f, name, v)->Ok_0.len() - 1))
            == Err::<(Val, nat), PError>(PError::NotEnoughData),
{
    let b = encoding(f, name, v)->Ok_0;
    let k = find_struct(f, name)->Some_0;
    lemma_rt_record(f, k, v->Record_0, MAX_NESTING as nat, Seq::empty());
    assert(b + Seq::<u8>::empty() =~= b);
    lemma_tr_record(f, k, b, MAX_NESTING as nat, (b.len() - 1) as nat);
}


proof fn lemma_size_list_mono(f: File, t: Type, es: Seq<Val>, m: nat, n: nat, d: nat)
    requires
        m <= n,
    ensures
        size_list(f, t, es, m, d) <= size_list(f, t, es, n, d),
    decreases n,
{
    if n > m {
        lemma_size_list_mono(f, t, es, m, (n - 1) as nat, d);
    }
}

proof fn lemma_size_items_mono(f: File, items: Seq<Item>, fs: Seq<Val>, m: nat, n: nat, d: nat)
    requires
        m <= n,
    ensures
        size_items(f, items, fs, m, d) <= size_items(f, items, fs, n, d),
    decreases n,
{
    if n > m {
        lemma_size_items_mono(f, items, fs, m, (n - 1) as nat, d);
    }
}

/// `a + b`, where the sum fits in a machine word.
fn add_size(a: Option<usize>, b: Option<usize>) -> (r: Option<usize>)
    ensures
        r == (match (a, b) {
            (Some(x), Some(y)) => fit((x + y) as nat),
            _ => None::<usize>,
        }),
{
    match (a, b) {
        (Some(x), Some(y)) => {
            if x > usize::MAX - y {
                None
            } else {
                Some(x + y)
            }
        },
        _ => None,
    }
}

/// Size of one element.
fn elem_size(f: &File, t: &Type, v: &Value, d: usize) -> (r: Option<usize>)
    ensures
        r == fit(size_elem(*f, *t, v@, d as nat)),
    decreases d, 0nat,
{
    match t {
        Type::String => match v {
            Value::Text(b) => add_size(Some(2), Some(b.len())),
            _ => Some(2),
        },
        Type::CString => Some(0),
        Type::User(name) => match v {
            Value::Record(fs) => match lookup_struct(f, name) {
                Some(k) => {
                    if d == 0 {
                        Some(0)
                    } else {
                        record_size(f, k, fs, d - 1)
                    }
                },
                None => Some(0),
            },
            _ => Some(0),
        },
        _ => Some(t.width().unwrap()),
    }
}

/// Sum of the sizes of the elements of `es`.
fn list_size(f: &File, t: &Type, es: &Vec<Value>, d: usize) -> (r: Option<usize>)
    ensures
        r == fit(size_list(*f, *t, vals_of(es@), es@.len(), d as nat)),
    decreases d, 1nat,
{
    let ghost vs = vals_of(es@);
    proof {
        lemma_vals_of_len(es@);
    }
    let mut acc: usize = 0;
    let mut j: usize = 0;
    while j < es.len()
        invariant
            j <= es@.len(),
            vs == vals_of(es@),
            vs.len() == es@.len(),
            acc as nat == size_list(*f, *t, vs, j as nat, d as nat),
        decreases es@.len() - j,
    {
        proof {
            lemma_vals_of_index(es@, j as int);
            lemma_size_list_mono(*f, *t, vs, (j + 1) as nat, es@.len(), d as nat);
        }
        match add_size(Some(acc), elem_size(f, t, &es[j], d)) {
            Some(x) => {
                acc = x;
            },
            None => {
                return None;
            },
        }
        j = j + 1;
    }
    Some(acc)
}

/// Size of one item holding `v`.
fn item_size(f: &File, it: &Item, v: &Value, d: usize) -> (r: Option<usize>)
    ensures
        r == fit(size_item(*f, *it, v@, d as nat)),
    decreases d, 2nat,
{
    let elements = match v {
        Value::List(es) => {
            proof {
                lemma_vals_of_len(es@);
            }
            list_size(f, &it.kind, es, d)
        },
        _ => Some(0),
    };
    match &it.array {
        None => elem_size(f, &it.kind, v, d),
        Some(Array::Constant(n)) => match &it.kind {
            Type::CString => Some(*n),
            _ => elements,
        },
        Some(Array::Variable(_, _)) => elements,
        Some(Array::Unknown(pt)) => match pt.width() {
            Some(w) => add_size(Some(w), elements),
            None => elements,
        },
    }
}

/// Size of a record of struct `k` with item values `fs`.
fn record_size(f: &File, k: usize, fs: &Vec<Value>, d: usize) -> (r: Option<usize>)
    ensures
        r == fit(size_record(*f, k as nat, vals_of(fs@), d as nat)),
    decreases d, 3nat,
{
    proof {
        lemma_vals_of_len(fs@);
    }
    if k >= f.structs.len() {
        return Some(0);
    }
    let items = &f.structs[k].items;
    if fs.len() != items.len() {
        return Some(0);
    }
    let ghost vs = vals_of(fs@);
    let mut acc: usize = 0;
    let mut i: usize = 0;
    while i < items.len()
        invariant
            i <= items@.len(),
            k < f.structs@.len(),
            items@ == items_of(*f, k as nat),
            fs@.len() == items@.len(),
            vs == vals_of(fs@),
            vs.len() == fs@.len(),
            acc as nat == size_items(*f, items@, vs, i as nat, d as nat),
        decreases items@.len() - i,
    {
        proof {
            lemma_vals_of_index(fs@, i as int);
            lemma_size_items_mono(*f, items@, vs, (i + 1) as nat, items@.len(), d as nat);
        }
        match add_size(Some(acc), item_size(f, &items[i], &fs[i], d)) {
            Some(x) => {
                acc = x;
            },
            None => {
                return None;
            },
        }
        i = i + 1;
    }
    Some(acc)
}

/// Wire size of record `value` of the struct named `name`, computed afresh
/// from the value; `None` where it does not fit in a machine word.
pub fn size(file: &File, name: &str, value: &Value) -> (r: Option<usize>)
    ensures
        r == fit(wire_size(*file, name@, value@)),
{
    let n: String = name.to_owned();
    match lookup_struct(file, &n) {
        Some(k) => match value {
            Value::Record(fs) => record_size(file, k, fs, MAX_NESTING),
            _ => Some(0),
        },
        None => Some(0),
    }
}

/// Size correctness: the encoding of a record is exactly as long as its
/// wire size.
pub proof fn lemma_encoding_size(f: File, name: Seq<char>, v: Val)
    requires
        encoding(f, name, v) is Ok,
    ensures
        encoding(f, name, v)->Ok_0.len() == wire_size(f, name, v),
{
    let k = find_struct(f, name)->Some_0;
    lemma_sz_record(f, k, v->Record_0, MAX_NESTING as nat);
}

} // verus!
