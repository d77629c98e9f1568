//! Turning a parse tree into the intermediate representation: options are
//! interpreted, array counts and type names resolved, and empty structs
//! dropped.
use vstd::prelude::*;
use crate::syntax::{Bracket, BracketV, OptionV, SFileV, SItemV, SStructV, SyntaxFile, SyntaxItem, SyntaxOption, SyntaxStruct, options_view};
use crate::types::{Array, ArrayV, Endian, File, FileV, Item, ItemV, Struct, StructV, Type, TypeV, is_integer_v};
use crate::wire::{first_index, lemma_first_index_bound, lemma_first_index_stable};

verus! {

/// Errors found in a schema text.
#[derive(Debug)]
pub enum SchemaError {
    /// The text does not follow the grammar; the index of the character at
    /// which it stops following it.
    Syntax(usize),
    /// More than one `options` statement. `parse_file` never gives it: its
    /// grammar stops at a second statement with `Syntax`; a parse tree made
    /// by hand and given to `build_file` can have more than one.
    DuplicateOptions,
    /// An option key that is not known where it stands.
    UnknownOption(String),
    /// An option value that its key does not accept.
    InvalidOptionValue(String),
    /// `array_size_type` names a type that is not an integer type.
    InvalidArraySizeType(String),
    /// `array_size_type` on an item, named here, whose count is not written inline.
    ConflictingArraySizeDeclaration(String),
    /// An array count names no earlier item of its struct.
    UndefinedVariable(String),
    /// In the struct named first, a type names no struct of the file.
    UndefinedType(String, String),
    /// An array count names an item above it, given here, that is not a
    /// single integer.
    CountNotInteger(String),
    /// A `cstring` item, named here, whose brackets do not hold a number: a
    /// `cstring` needs the capacity of a constant-size array.
    CStringWithoutCapacity(String),
}

pub enum SchemaErrorV {
    Syntax(nat),
    DuplicateOptions,
    UnknownOption(Seq<char>),
    InvalidOptionValue(Seq<char>),
    InvalidArraySizeType(Seq<char>),
    ConflictingArraySizeDeclaration(Seq<char>),
    UndefinedVariable(Seq<char>),
    UndefinedType(Seq<char>, Seq<char>),
    CountNotInteger(Seq<char>),
    CStringWithoutCapacity(Seq<char>),
}

impl View for SchemaError {
    type V = SchemaErrorV;

    open spec fn view(&self) -> SchemaErrorV {
        match self {
            SchemaError::Syntax(p) => SchemaErrorV::Syntax(*p as nat),
            SchemaError::DuplicateOptions => SchemaErrorV::DuplicateOptions,
            SchemaError::UnknownOption(s) => SchemaErrorV::UnknownOption(s@),
            SchemaError::InvalidOptionValue(s) => SchemaErrorV::InvalidOptionValue(s@),
            SchemaError::InvalidArraySizeType(s) => SchemaErrorV::InvalidArraySizeType(s@),
            SchemaError::ConflictingArraySizeDeclaration(s) => SchemaErrorV::ConflictingArraySizeDeclaration(s@),
            SchemaError::UndefinedVariable(s) => SchemaErrorV::UndefinedVariable(s@),
            SchemaError::UndefinedType(a, b) => SchemaErrorV::UndefinedType(a@, b@),
            SchemaError::CountNotInteger(s) => SchemaErrorV::CountNotInteger(s@),
            SchemaError::CStringWithoutCapacity(s) => SchemaErrorV::CStringWithoutCapacity(s@),
        }
    }
}

pub open spec fn result_view(r: Result<File, SchemaError>) -> Result<FileV, SchemaErrorV> {
    match r {
        Ok(f) => Ok(f@),
        Err(e) => Err(e@),
    }
}

/// The type a type name stands for: a primitive, or a reference to a struct.
pub open spec fn type_named(s: Seq<char>) -> TypeV {
    if s == "u8"@ {
        TypeV::U8
    } else if s == "u16"@ {
        TypeV::U16
    } else if s == "u32"@ {
        TypeV::U32
    } else if s == "u64"@ {
        TypeV::U64
    } else if s == "i8"@ {
        TypeV::I8
    } else if s == "i16"@ {
        TypeV::I16
    } else if s == "i32"@ {
        TypeV::I32
    } else if s == "i64"@ {
        TypeV::I64
    } else if s == "f32"@ {
        TypeV::F32
    } else if s == "f64"@ {
        TypeV::F64
    } else if s == "byte"@ {
        TypeV::Byte
    } else if s == "string"@ {
        TypeV::String
    } else if s == "cstring"@ {
        TypeV::CString
    } else {
        TypeV::User(s)
    }
}

pub open spec fn endian_named(s: Seq<char>) -> Option<Endian> {
    if s == "big"@ {
        Some(Endian::Big)
    } else if s == "little"@ {
        Some(Endian::Little)
    } else {
        None
    }
}

/// The scope and byte order that the first `n` file options give.
pub open spec fn file_options(opts: Seq<OptionV>, n: nat) -> Result<(Seq<char>, Endian), SchemaErrorV>
    decreases n,
{
    if n == 0 {
        Ok(("main"@, Endian::Little))
    } else {
        match file_options(opts, (n - 1) as nat) {
            Ok((scope, endian)) => {
                let o = opts[n - 1];
                if o.key == "scope"@ {
                    Ok((o.value, endian))
                } else if o.key == "endian"@ {
                    match endian_named(o.value) {
                        Some(e) => Ok((scope, e)),
                        None => Err(SchemaErrorV::InvalidOptionValue(o.value)),
                    }
                } else {
                    Err(SchemaErrorV::UnknownOption(o.key))
                }
            },
            Err(e) => Err(e),
        }
    }
}

/// The count type and byte order that the first `n` options of an item
/// give, starting from the file's byte order `fe`.
pub open spec fn item_options(opts: Seq<OptionV>, n: nat, fe: Endian) -> Result<
    (Option<TypeV>, Endian),
    SchemaErrorV,
>
    decreases n,
{
    if n == 0 {
        Ok((None, fe))
    } else {
        match item_options(opts, (n - 1) as nat, fe) {
            Ok((count_type, endian)) => {
                let o = opts[n - 1];
                if o.key == "array_size_type"@ {
                    if is_integer_v(type_named(o.value)) {
                        Ok((Some(type_named(o.value)), endian))
                    } else {
                        Err(SchemaErrorV::InvalidArraySizeType(o.value))
                    }
                } else if o.key == "endian"@ {
                    match endian_named(o.value) {
                        Some(e) => Ok((count_type, e)),
                        None => Err(SchemaErrorV::InvalidOptionValue(o.value)),
                    }
                } else {
                    Err(SchemaErrorV::UnknownOption(o.key))
                }
            },
            Err(e) => Err(e),
        }
    }
}

pub open spec fn env_names(env: Seq<ItemV>) -> Seq<Seq<char>> {
    env.map_values(|i: ItemV| i.name)
}

/// Whether an item may count the elements of an array below it: a single
/// integer.
pub open spec fn counts(it: ItemV) -> bool {
    is_integer_v(it.kind) && it.array is None
}

/// Whether a `cstring` item has the capacity of a constant-size array.
pub open spec fn has_capacity(it: ItemV) -> bool {
    it.kind is CString ==> it.array matches Some(ArrayV::Constant(_))
}

/// An item line resolved against `env`, the items of its struct above it:
/// its options, its type, and its array count.
pub open spec fn resolve_line(env: Seq<ItemV>, s: SItemV, fe: Endian) -> Result<ItemV, SchemaErrorV> {
    match item_options(s.options, s.options.len(), fe) {
        Ok((count_type, endian)) => {
            let kind = type_named(s.kind_name);
            let item = |a: Option<ArrayV>| ItemV { name: s.name, kind, array: a, byte_order: endian };
            match s.bracket {
                Some(BracketV::Empty) => Ok(
                    item(
                        Some(
                            ArrayV::Unknown(
                                match count_type {
                                    Some(t) => t,
                                    None => TypeV::I32,
                                },
                            ),
                        ),
                    ),
                ),
                _ => if count_type is Some {
                    Err(SchemaErrorV::ConflictingArraySizeDeclaration(s.name))
                } else {
                    match s.bracket {
                        Some(BracketV::Number(n)) => Ok(item(Some(ArrayV::Constant(n)))),
                        Some(BracketV::Name(c)) => match first_index(
                            env_names(env),
                            c,
                            env.len(),
                        ) {
                            Some(j) => if counts(env[j as int]) {
                                Ok(item(Some(ArrayV::Variable(c, env[j as int].kind))))
                            } else {
                                Err(SchemaErrorV::CountNotInteger(c))
                            },
                            None => Err(SchemaErrorV::UndefinedVariable(c)),
                        },
                        _ => Ok(item(None)),
                    }
                },
            }
        },
        Err(e) => Err(e),
    }
}

/// An item line resolved against `env`, where a `cstring` must also have
/// the capacity of a constant-size array.
pub open spec fn build_item(env: Seq<ItemV>, s: SItemV, fe: Endian) -> Result<ItemV, SchemaErrorV> {
    match resolve_line(env, s, fe) {
        Ok(it) => if has_capacity(it) {
            Ok(it)
        } else {
            Err(SchemaErrorV::CStringWithoutCapacity(s.name))
        },
        Err(e) => Err(e),
    }
}

/// The first `n` item lines of a struct, each resolved against those above it.
pub open spec fn build_items(items: Seq<SItemV>, n: nat, fe: Endian) -> Result<
    Seq<ItemV>,
    SchemaErrorV,
>
    decreases n,
{
    if n == 0 {
        Ok(Seq::empty())
    } else {
        match build_items(items, (n - 1) as nat, fe) {
            Ok(env) => match build_item(env, items[n - 1], fe) {
                Ok(it) => Ok(env.push(it)),
                Err(e) => Err(e),
            },
            Err(e) => Err(e),
        }
    }
}

/// The first `n` struct definitions, those without items left out.
pub open spec fn build_structs(structs: Seq<SStructV>, n: nat, fe: Endian) -> Result<
    Seq<StructV>,
    SchemaErrorV,
>
    decreases n,
{
    if n == 0 {
        Ok(Seq::empty())
    } else {
        match build_structs(structs, (n - 1) as nat, fe) {
            Ok(acc) => {
                let s = structs[n - 1];
                match build_items(s.items, s.items.len(), fe) {
                    Ok(items) => if items.len() == 0 {
                        Ok(acc)
                    } else {
                        Ok(acc.push(StructV { name: s.name, items }))
                    },
                    Err(e) => Err(e),
                }
            },
            Err(e) => Err(e),
        }
    }
}

/// The first type, among the first `n` items, that names none of `names`.
pub open spec fn undefined_in_items(items: Seq<ItemV>, names: Seq<Seq<char>>, n: nat) -> Option<
    Seq<char>,
>
    decreases n,
{
    if n == 0 {
        None
    } else {
        match undefined_in_items(items, names, (n - 1) as nat) {
            Some(t) => Some(t),
            None => match items[n - 1].kind {
                TypeV::User(t) => if names.contains(t) {
                    None
                } else {
                    Some(t)
                },
                _ => None,
            },
        }
    }
}

/// The first struct, among the first `n`, with a type that names none of
/// `names`: the struct's name and the type name.
pub open spec fn undefined_in(structs: Seq<StructV>, names: Seq<Seq<char>>, n: nat) -> Option<
    (Seq<char>, Seq<char>),
>
    decreases n,
{
    if n == 0 {
        None
    } else {
        match undefined_in(structs, names, (n - 1) as nat) {
            Some(x) => Some(x),
            None => {
                let s = structs[n - 1];
                match undefined_in_items(s.items, names, s.items.len()) {
                    Some(t) => Some((s.name, t)),
                    None => None,
                }
            },
        }
    }
}

pub open spec fn names_of(structs: Seq<StructV>) -> Seq<Seq<char>> {
    structs.map_values(|s: StructV| s.name)
}

/// The intermediate representation of a parse tree, or the first error in it.
pub open spec fn build(t: SFileV) -> Result<FileV, SchemaErrorV> {
    if t.options.len() > 1 {
        Err(SchemaErrorV::DuplicateOptions)
    } else {
        let opts = if t.options.len() == 1 {
            t.options[0]
        } else {
            Seq::empty()
        };
        match file_options(opts, opts.len()) {
            Ok((scope, fe)) => match build_structs(t.structs, t.structs.len(), fe) {
                Ok(structs) => match undefined_in(structs, names_of(structs), structs.len()) {
                    Some((s, ty)) => Err(SchemaErrorV::UndefinedType(s, ty)),
                    None => Ok(FileV { scope, structs }),
                },
                Err(e) => Err(e),
            },
            Err(e) => Err(e),
        }
    }
}


/// Whether `s` spells `lit`.
pub fn str_is(s: &String, lit: &str) -> (r: bool)
    ensures
        r == (s@ == lit@),
{
    let a: &str = s.as_str();
    let n = a.unicode_len();
    let m = lit.unicode_len();
    if n != m {
        return false;
    }
    let mut i: usize = 0;
    while i < n
        invariant
            n == a@.len(),
            m == lit@.len(),
            n == m,
            a@ == s@,
            i <= n,
            forall|k: int| 0 <= k < i ==> a@[k] == lit@[k],
        decreases n - i,
    {
        if a.get_char(i) != lit.get_char(i) {
            return false;
        }
        i = i + 1;
    }
    assert(a@ =~= lit@);
    true
}

/// The type a type name stands for.
pub fn parse_item_type(s: &String) -> (r: Type)
    ensures
        r@ == type_named(s@),
{
    if str_is(s, "u8") {
        Type::U8
    } else if str_is(s, "u16") {
        Type::U16
    } else if str_is(s, "u32") {
        Type::U32
    } else if str_is(s, "u64") {
        Type::U64
    } else if str_is(s, "i8") {
        Type::I8
    } else if str_is(s, "i16") {
        Type::I16
    } else if str_is(s, "i32") {
        Type::I32
    } else if str_is(s, "i64") {
        Type::I64
    } else if str_is(s, "f32") {
        Type::F32
    } else if str_is(s, "f64") {
        Type::F64
    } else if str_is(s, "byte") {
        Type::Byte
    } else if str_is(s, "string") {
        Type::String
    } else if str_is(s, "cstring") {
        Type::CString
    } else {
        Type::User(s.clone())
    }
}

fn endian_of_name(s: &String) -> (r: Option<Endian>)
    ensures
        r == endian_named(s@),
{
    if str_is(s, "big") {
        Some(Endian::Big)
    } else if str_is(s, "little") {
        Some(Endian::Little)
    } else {
        None
    }
}

/// What the `options` statement of a file sets.
#[derive(Debug)]
pub struct FileOptions {
    pub scope_name: String,
    pub endian: Endian,
}

/// What the options of an item line set.
#[derive(Debug)]
pub struct ItemOptions {
    pub array_size_type: Option<Type>,
    pub endian: Endian,
}

/// The file options where a file sets none: scope `main`, little endian.
pub fn default_file_options() -> (r: FileOptions)
    ensures
        file_options(Seq::empty(), 0) == Ok::<(Seq<char>, Endian), SchemaErrorV>(
            (r.scope_name@, r.endian),
        ),
{
    FileOptions { scope_name: "main".to_owned(), endian: Endian::Little }
}

/// The item options where an item line sets none: no count type, and the
/// file's byte order.
pub fn default_item_options(file_options: &FileOptions) -> (r: ItemOptions)
    ensures
        r.array_size_type is None,
        r.endian == file_options.endian,
{
    ItemOptions { array_size_type: None, endian: file_options.endian }
}

/// Interprets the options of an `options` statement.
pub fn parse_file_options(opts: &Vec<SyntaxOption>) -> (r: Result<FileOptions, SchemaError>)
    ensures
        match file_options(options_view(*opts), opts@.len()) {
            Ok((scope, e)) => r matches Ok(x) && x.scope_name@ == scope && x.endian == e,
            Err(x) => r matches Err(y) && y@ == x,
        },
{
    let ghost ov = options_view(*opts);
    let defaults = default_file_options();
    let mut scope: String = defaults.scope_name;
    let mut endian = defaults.endian;
    let mut i: usize = 0;
    while i < opts.len()
        invariant
            i <= opts@.len(),
            ov == options_view(*opts),
            file_options(ov, i as nat) == Ok::<(Seq<char>, Endian), SchemaErrorV>((scope@, endian)),
        decreases opts@.len() - i,
    {
        let o = &opts[i];
        if str_is(&o.key, "scope") {
            scope = o.value.clone();
        } else if str_is(&o.key, "endian") {
            match endian_of_name(&o.value) {
                Some(e) => {
                    endian = e;
                },
                None => {
                    proof {
                        lemma_file_options_err(ov, (i + 1) as nat, opts@.len());
                    }
                    return Err(SchemaError::InvalidOptionValue(o.value.clone()));
                },
            }
        } else {
            proof {
                lemma_file_options_err(ov, (i + 1) as nat, opts@.len());
            }
            return Err(SchemaError::UnknownOption(o.key.clone()));
        }
        i = i + 1;
    }
    Ok(FileOptions { scope_name: scope, endian })
}

proof fn lemma_file_options_err(opts: Seq<OptionV>, m: nat, n: nat)
    requires
        m <= n,
        file_options(opts, m) is Err,
    ensures
        file_options(opts, n) == file_options(opts, m),
    decreases n,
{
    if n > m {
        lemma_file_options_err(opts, m, (n - 1) as nat);
    }
}

proof fn lemma_item_options_err(opts: Seq<OptionV>, m: nat, n: nat, fe: Endian)
    requires
        m <= n,
        item_options(opts, m, fe) is Err,
    ensures
        item_options(opts, n, fe) == item_options(opts, m, fe),
    decreases n,
{
    if n > m {
        lemma_item_options_err(opts, m, (n - 1) as nat, fe);
    }
}

pub open spec fn opt_type_view(t: Option<Type>) -> Option<TypeV> {
    match t {
        Some(x) => Some(x@),
        None => None,
    }
}

/// Interprets the options of an item line, starting from the file's options.
pub fn parse_item_options(opts: &Vec<SyntaxOption>, file_options: &FileOptions) -> (r: Result<
    ItemOptions,
    SchemaError,
>)
    ensures
        match item_options(options_view(*opts), opts@.len(), file_options.endian) {
            Ok((t, e)) => r matches Ok(x) && opt_type_view(x.array_size_type) == t && x.endian == e,
            Err(x) => r matches Err(y) && y@ == x,
        },
{
    let ghost ov = options_view(*opts);
    let ghost fe = file_options.endian;
    let defaults = default_item_options(file_options);
    let mut count_type: Option<Type> = defaults.array_size_type;
    let mut endian = defaults.endian;
    let mut i: usize = 0;
    while i < opts.len()
        invariant
            i <= opts@.len(),
            fe == file_options.endian,
            ov == options_view(*opts),
            item_options(ov, i as nat, fe) == Ok::<(Option<TypeV>, Endian), SchemaErrorV>(
                (opt_type_view(count_type), endian),
            ),
        decreases opts@.len() - i,
    {
        let o = &opts[i];
        if str_is(&o.key, "array_size_type") {
            let t = parse_item_type(&o.value);
            if t.is_integer() {
                count_type = Some(t);
            } else {
                proof {
                    lemma_item_options_err(ov, (i + 1) as nat, opts@.len(), fe);
                }
                return Err(SchemaError::InvalidArraySizeType(o.value.clone()));
            }
        } else if str_is(&o.key, "endian") {
            match endian_of_name(&o.value) {
                Some(e) => {
                    endian = e;
                },
                None => {
                    proof {
                        lemma_item_options_err(ov, (i + 1) as nat, opts@.len(), fe);
                    }
                    return Err(SchemaError::InvalidOptionValue(o.value.clone()));
                },
            }
        } else {
            proof {
                lemma_item_options_err(ov, (i + 1) as nat, opts@.len(), fe);
            }
            return Err(SchemaError::UnknownOption(o.key.clone()));
        }
        i = i + 1;
    }
    Ok(ItemOptions { array_size_type: count_type, endian })
}

pub open spec fn items_view(v: Seq<Item>) -> Seq<ItemV> {
    v.map_values(|i: Item| i@)
}

/// Index of the first of `env` named `name`.
fn find_in_env(env: &Vec<Item>, name: &String) -> (r: Option<usize>)
    ensures
        r matches Some(k) ==> first_index(env_names(items_view(env@)), name@, env@.len()) == Some(
            k as nat,
        ),
        r is None ==> first_index(env_names(items_view(env@)), name@, env@.len()) is None,
{
    let ghost names = env_names(items_view(env@));
    let mut i: usize = 0;
    while i < env.len()
        invariant
            i <= env@.len(),
            names == env_names(items_view(env@)),
            first_index(names, name@, i as nat) is None,
        decreases env@.len() - i,
    {
        if env[i].name == *name {
            proof {
                lemma_first_index_stable(names, name@, (i + 1) as nat, env@.len());
            }
            return Some(i);
        }
        i = i + 1;
    }
    None
}

/// Resolves one item line against `env`, the items of its struct above it.
pub fn parse_item(env: &Vec<Item>, s: &SyntaxItem, file_options: &FileOptions) -> (r: Result<
    Item,
    SchemaError,
>)
    ensures
        match build_item(items_view(env@), s@, file_options.endian) {
            Ok(it) => r matches Ok(x) && x@ == it,
            Err(e) => r matches Err(y) && y@ == e,
        },
{
    let opts = parse_item_options(&s.options, file_options)?;
    let count_type = opts.array_size_type;
    let endian = opts.endian;
    let kind = parse_item_type(&s.kind_name);
    let array: Option<Array> = match &s.bracket {
        Some(Bracket::Empty) => Some(
            Array::Unknown(
                match count_type {
                    Some(t) => t,
                    None => Type::I32,
                },
            ),
        ),
        _ => {
            if count_type.is_some() {
                return Err(SchemaError::ConflictingArraySizeDeclaration(s.name.clone()));
            }
            match &s.bracket {
                Some(Bracket::Number(n)) => Some(Array::Constant(*n)),
                Some(Bracket::Name(c)) => match find_in_env(env, c) {
                    Some(j) => {
                        proof {
                            lemma_first_index_bound(
                                env_names(items_view(env@)),
                                c@,
                                env@.len(),
                            );
                        }
                        if !(env[j].kind.is_integer() && env[j].array.is_none()) {
                            return Err(SchemaError::CountNotInteger(c.clone()));
                        }
                        Some(Array::Variable(c.clone(), env[j].kind.duplicate()))
                    },
                    None => {
                        return Err(SchemaError::UndefinedVariable(c.clone()));
                    },
                },
                _ => None,
            }
        },
    };
    let capacity = match (&kind, &array) {
        (Type::CString, Some(Array::Constant(_))) => true,
        (Type::CString, _) => false,
        _ => true,
    };
    if !capacity {
        return Err(SchemaError::CStringWithoutCapacity(s.name.clone()));
    }
    Ok(Item { name: s.name.clone(), kind, array, byte_order: endian })
}

proof fn lemma_build_items_err(items: Seq<SItemV>, m: nat, n: nat, fe: Endian)
    requires
        m <= n,
        build_items(items, m, fe) is Err,
    ensures
        build_items(items, n, fe) == build_items(items, m, fe),
    decreases n,
{
    if n > m {
        lemma_build_items_err(items, m, (n - 1) as nat, fe);
    }
}

proof fn lemma_build_structs_err(structs: Seq<SStructV>, m: nat, n: nat, fe: Endian)
    requires
        m <= n,
        build_structs(structs, m, fe) is Err,
    ensures
        build_structs(structs, n, fe) == build_structs(structs, m, fe),
    decreases n,
{
    if n > m {
        lemma_build_structs_err(structs, m, (n - 1) as nat, fe);
    }
}

/// Resolves the item lines of a struct definition, in order, each against
/// the items above it.
pub fn parse_definition(s: &SyntaxStruct, file_options: &FileOptions) -> (r: Result<
    Struct,
    SchemaError,
>)
    ensures
        match build_items(s@.items, s@.items.len(), file_options.endian) {
            Ok(items) => r matches Ok(x) && x@ == (StructV { name: s@.name, items }),
            Err(e) => r matches Err(y) && y@ == e,
        },
{
    let ghost sv = s@.items;
    let ghost fe = file_options.endian;
    let mut out: Vec<Item> = Vec::new();
    assert(items_view(out@) =~= Seq::<ItemV>::empty());
    let mut i: usize = 0;
    while i < s.items.len()
        invariant
            i <= s.items@.len(),
            sv == s@.items,
            fe == file_options.endian,
            sv.len() == s.items@.len(),
            build_items(sv, i as nat, fe) == Ok::<Seq<ItemV>, SchemaErrorV>(items_view(out@)),
        decreases s.items@.len() - i,
    {
        match parse_item(&out, &s.items[i], file_options) {
            Ok(it) => {
                let ghost before = out@;
                out.push(it);
                assert(items_view(out@) =~= items_view(before).push(it@));
            },
            Err(e) => {
                proof {
                    lemma_build_items_err(sv, (i + 1) as nat, sv.len(), fe);
                }
                return Err(e);
            },
        }
        i = i + 1;
    }
    let st = Struct { name: s.name.clone(), items: out };
    assert(st@.items =~= items_view(st.items@));
    Ok(st)
}

pub open spec fn structs_view(v: Seq<Struct>) -> Seq<StructV> {
    v.map_values(|s: Struct| s@)
}

/// Resolves the struct definitions in order, leaving out those without items.
fn resolve_structs(t: &SyntaxFile, file_options: &FileOptions) -> (r: Result<Vec<Struct>, SchemaError>)
    ensures
        match build_structs(t@.structs, t@.structs.len(), file_options.endian) {
            Ok(ss) => r matches Ok(x) && structs_view(x@) == ss,
            Err(e) => r matches Err(y) && y@ == e,
        },
{
    let ghost sv = t@.structs;
    let ghost fe = file_options.endian;
    let mut out: Vec<Struct> = Vec::new();
    assert(structs_view(out@) =~= Seq::<StructV>::empty());
    let mut i: usize = 0;
    while i < t.structs.len()
        invariant
            i <= t.structs@.len(),
            fe == file_options.endian,
            sv == t@.structs,
            sv.len() == t.structs@.len(),
            build_structs(sv, i as nat, fe) == Ok::<Seq<StructV>, SchemaErrorV>(structs_view(out@)),
        decreases t.structs@.len() - i,
    {
        let d = &t.structs[i];
        assert(sv[i as int] == d@);
        match parse_definition(d, file_options) {
            Ok(st) => {
                if st.items.len() > 0 {
                    let ghost before = out@;
                    out.push(st);
                    assert(structs_view(out@) =~= structs_view(before).push(st@));
                } else {
                    assert(st@.items.len() == 0);
                }
            },
            Err(e) => {
                proof {
                    lemma_build_structs_err(sv, (i + 1) as nat, sv.len(), fe);
                }
                return Err(e);
            },
        }
        i = i + 1;
    }
    Ok(out)
}

/// Whether some struct of `ss` is named `name`.
fn has_struct(ss: &Vec<Struct>, name: &String) -> (r: bool)
    ensures
        r == names_of(structs_view(ss@)).contains(name@),
{
    let ghost names = names_of(structs_view(ss@));
    let mut i: usize = 0;
    while i < ss.len()
        invariant
            i <= ss@.len(),
            names == names_of(structs_view(ss@)),
            names.len() == ss@.len(),
            forall|k: int| 0 <= k < i ==> names[k] != name@,
        decreases ss@.len() - i,
    {
        if ss[i].name == *name {
            assert(names[i as int] == name@);
            return true;
        }
        i = i + 1;
    }
    false
}

proof fn lemma_undefined_items_stable(items: Seq<ItemV>, names: Seq<Seq<char>>, m: nat, n: nat)
    requires
        m <= n,
        undefined_in_items(items, names, m) is Some,
    ensures
        undefined_in_items(items, names, n) == undefined_in_items(items, names, m),
    decreases n,
{
    if n > m {
        lemma_undefined_items_stable(items, names, m, (n - 1) as nat);
    }
}

proof fn lemma_undefined_stable(structs: Seq<StructV>, names: Seq<Seq<char>>, m: nat, n: nat)
    requires
        m <= n,
        undefined_in(structs, names, m) is Some,
    ensures
        undefined_in(structs, names, n) == undefined_in(structs, names, m),
    decreases n,
{
    if n > m {
        lemma_undefined_stable(structs, names, m, (n - 1) as nat);
    }
}

/// The first type in `ss` that names no struct of `ss`, with the name of
/// the struct it stands in.
fn find_undefined(ss: &Vec<Struct>) -> (r: Option<(String, String)>)
    ensures
        match undefined_in(structs_view(ss@), names_of(structs_view(ss@)), ss@.len()) {
            Some((s, t)) => r matches Some((a, b)) && a@ == s && b@ == t,
            None => r is None,
        },
{
    let ghost sv = structs_view(ss@);
    let ghost names = names_of(sv);
    let mut i: usize = 0;
    while i < ss.len()
        invariant
            i <= ss@.len(),
            sv == structs_view(ss@),
            names == names_of(sv),
            undefined_in(sv, names, i as nat) is None,
        decreases ss@.len() - i,
    {
        let items = &ss[i].items;
        let ghost iv = sv[i as int].items;
        assert(iv =~= items_view(items@));
        let mut j: usize = 0;
        while j < items.len()
            invariant
                j <= items@.len(),
                i < ss@.len(),
                sv == structs_view(ss@),
                names == names_of(sv),
                iv == sv[i as int].items,
                iv == items_view(items@),
                undefined_in(sv, names, i as nat) is None,
                undefined_in_items(iv, names, j as nat) is None,
            decreases items@.len() - j,
        {
            match &items[j].kind {
                Type::User(t) => {
                    if !has_struct(ss, t) {
                        proof {
                            lemma_undefined_items_stable(iv, names, (j + 1) as nat, iv.len());
                            lemma_undefined_stable(sv, names, (i + 1) as nat, ss@.len());
                        }
                        return Some((ss[i].name.clone(), t.clone()));
                    }
                },
                _ => {},
            }
            j = j + 1;
        }
        i = i + 1;
    }
    None
}

/// Builds the intermediate representation of a parse tree: interprets the
/// options, resolves each item line against the items above it, leaves out
/// structs without items, and checks that every type names a struct.
pub fn build_file(t: &SyntaxFile) -> (r: Result<File, SchemaError>)
    ensures
        result_view(r) == build(t@),
{
    if t.options.len() > 1 {
        return Err(SchemaError::DuplicateOptions);
    }
    let empty: Vec<SyntaxOption> = Vec::new();
    let opts: &Vec<SyntaxOption> = if t.options.len() == 1 {
        &t.options[0]
    } else {
        &empty
    };
    assert(options_view(empty) =~= Seq::<OptionV>::empty());
    let file_options = match parse_file_options(opts) {
        Ok(x) => x,
        Err(e) => {
            return Err(e);
        },
    };
    let structs = match resolve_structs(t, &file_options) {
        Ok(x) => x,
        Err(e) => {
            return Err(e);
        },
    };
    match find_undefined(&structs) {
        Some((s, ty)) => Err(SchemaError::UndefinedType(s, ty)),
        None => {
            let f = File { scope: file_options.scope_name, structs };
            assert(f@.structs =~= structs_view(f.structs@));
            Ok(f)
        },
    }
}


/// Every array count of `items` names an item above it, and carries that
/// item's type.
pub open spec fn counts_resolve(items: Seq<ItemV>) -> bool {
    forall|j: int|
        0 <= j < items.len() ==> (#[trigger] items[j].array matches Some(ArrayV::Variable(c, t))
            ==> exists|k: int| 0 <= k < j && items[k].name == c && items[k].kind == t && counts(items[k]))
}

/// Every `cstring` of `items` has the capacity of a constant-size array.
pub open spec fn capacities(items: Seq<ItemV>) -> bool {
    forall|j: int| 0 <= j < items.len() ==> has_capacity(#[trigger] items[j])
}

/// Every struct type of `items` names one of `names`.
pub open spec fn types_resolve(items: Seq<ItemV>, names: Seq<Seq<char>>) -> bool {
    forall|j: int|
        0 <= j < items.len() ==> (#[trigger] items[j].kind matches TypeV::User(t) ==> names.contains(t))
}

/// What holds of every representation that `build` gives: each struct has
/// items, each struct type names a struct of the file, each array count
/// names a single integer item above it in its struct, and each `cstring`
/// stands in a constant-size array.
pub open spec fn well_formed(f: FileV) -> bool {
    forall|i: int|
        0 <= i < f.structs.len() ==> {
            let s = #[trigger] f.structs[i];
            &&& s.items.len() > 0
            &&& types_resolve(s.items, names_of(f.structs))
            &&& counts_resolve(s.items)
            &&& capacities(s.items)
        }
}

proof fn lemma_items_resolve(items: Seq<SItemV>, n: nat, fe: Endian)
    requires
        build_items(items, n, fe) is Ok,
    ensures
        build_items(items, n, fe)->Ok_0.len() == n,
        counts_resolve(build_items(items, n, fe)->Ok_0),
        capacities(build_items(items, n, fe)->Ok_0),
    decreases n,
{
    if n > 0 {
        lemma_items_resolve(items, (n - 1) as nat, fe);
        let env = build_items(items, (n - 1) as nat, fe)->Ok_0;
        let it = build_item(env, items[n - 1], fe)->Ok_0;
        let all = env.push(it);
        lemma_first_index_bound(env_names(env), it.name, env.len());
        assert forall|j: int| 0 <= j < all.len() implies has_capacity(#[trigger] all[j]) by {
            if j < env.len() {
                assert(all[j] == env[j]);
            }
        }
        assert forall|j: int| 0 <= j < all.len() implies (#[trigger] all[j].array matches Some(
            ArrayV::Variable(c, t),
        ) ==> exists|k: int| 0 <= k < j && all[k].name == c && all[k].kind == t && counts(all[k])) by {
            if j < env.len() {
                assert(all[j] == env[j]);
                if let Some(ArrayV::Variable(c, t)) = all[j].array {
                    let k = choose|k: int| 0 <= k < j && env[k].name == c && env[k].kind == t && counts(env[k]);
                    assert(all[k] == env[k]);
                }
            } else {
                if let Some(ArrayV::Variable(c, t)) = it.array {
                    lemma_first_index_bound(env_names(env), c, env.len());
                    let k = first_index(env_names(env), c, env.len())->Some_0;
                    assert(all[k as int] == env[k as int]);
                }
            }
        }
    }
}

proof fn lemma_structs_resolve(structs: Seq<SStructV>, n: nat, fe: Endian)
    requires
        build_structs(structs, n, fe) is Ok,
    ensures
        forall|i: int|
            0 <= i < build_structs(structs, n, fe)->Ok_0.len() ==> {
                let s = #[trigger] build_structs(structs, n, fe)->Ok_0[i];
                s.items.len() > 0 && counts_resolve(s.items) && capacities(s.items)
            },
    decreases n,
{
    if n > 0 {
        lemma_structs_resolve(structs, (n - 1) as nat, fe);
        let s = structs[n - 1];
        lemma_items_resolve(s.items, s.items.len(), fe);
    }
}

proof fn lemma_no_undefined_items(items: Seq<ItemV>, names: Seq<Seq<char>>, n: nat)
    requires
        n <= items.len(),
        undefined_in_items(items, names, n) is None,
    ensures
        forall|j: int|
            0 <= j < n ==> (#[trigger] items[j].kind matches TypeV::User(t) ==> names.contains(t)),
    decreases n,
{
    if n > 0 {
        lemma_no_undefined_items(items, names, (n - 1) as nat);
    }
}

proof fn lemma_no_undefined(structs: Seq<StructV>, names: Seq<Seq<char>>, n: nat)
    requires
        n <= structs.len(),
        undefined_in(structs, names, n) is None,
    ensures
        forall|i: int| 0 <= i < n ==> types_resolve(#[trigger] structs[i].items, names),
    decreases n,
{
    if n > 0 {
        lemma_no_undefined(structs, names, (n - 1) as nat);
        let s = structs[n - 1];
        lemma_no_undefined_items(s.items, names, s.items.len());
    }
}

/// Whatever `build` accepts is well formed: no struct without items is
/// kept, no struct type is left undefined, no array count names an item
/// below it, in another struct, or one that is not a single integer, and
/// no `cstring` stands outside a constant-size array.
pub proof fn lemma_build_well_formed(t: SFileV)
    requires
        build(t) is Ok,
    ensures
        well_formed(build(t)->Ok_0),
{
    let opts = if t.options.len() == 1 {
        t.options[0]
    } else {
        Seq::empty()
    };
    let fe = file_options(opts, opts.len())->Ok_0.1;
    let structs = build_structs(t.structs, t.structs.len(), fe)->Ok_0;
    lemma_structs_resolve(t.structs, t.structs.len(), fe);
    lemma_no_undefined(structs, names_of(structs), structs.len());
}


proof fn lemma_structs_before_insert(ss: Seq<SStructV>, p: int, e: SStructV, k: nat, fe: Endian)
    requires
        0 <= p <= ss.len(),
        k <= p,
    ensures
        build_structs(ss.insert(p, e), k, fe) == build_structs(ss, k, fe),
    decreases k,
{
    if k > 0 {
        lemma_structs_before_insert(ss, p, e, (k - 1) as nat, fe);
        assert(ss.insert(p, e)[k - 1] == ss[k - 1]);
    }
}

proof fn lemma_structs_after_insert(ss: Seq<SStructV>, p: int, e: SStructV, k: nat, fe: Endian)
    requires
        0 <= p <= k <= ss.len(),
        e.items.len() == 0,
    ensures
        build_structs(ss.insert(p, e), k + 1, fe) == build_structs(ss, k, fe),
    decreases k,
{
    let ss2 = ss.insert(p, e);
    if k == p {
        lemma_structs_before_insert(ss, p, e, k, fe);
        assert(ss2[p] == e);
    } else {
        lemma_structs_after_insert(ss, p, e, (k - 1) as nat, fe);
        assert(ss2[k as int] == ss[k - 1]);
    }
}

/// A struct definition without items is accepted and left out: inserting
/// one anywhere among the definitions of a parse tree changes neither the
/// representation nor the error that `build` gives.
pub proof fn lemma_empty_struct_ignored(t: SFileV, p: int, e: SStructV)
    requires
        0 <= p <= t.structs.len(),
        e.items.len() == 0,
    ensures
        build(SFileV { options: t.options, structs: t.structs.insert(p, e) }) == build(t),
{
    let opts = if t.options.len() == 1 {
        t.options[0]
    } else {
        Seq::empty()
    };
    if t.options.len() <= 1 {
        if let Ok((scope, fe)) = file_options(opts, opts.len()) {
            lemma_structs_after_insert(t.structs, p, e, t.structs.len(), fe);
        }
    }
}


/// The structs that a tree with at most one `options` statement keeps,
/// before struct types are checked; or the first error found on the way.
pub open spec fn first_pass(t: SFileV) -> Result<Seq<StructV>, SchemaErrorV> {
    let opts = if t.options.len() == 1 {
        t.options[0]
    } else {
        Seq::empty()
    };
    match file_options(opts, opts.len()) {
        Ok((_, fe)) => build_structs(t.structs, t.structs.len(), fe),
        Err(e) => Err(e),
    }
}

/// A struct type that names no struct of the file is reported: where the
/// options and every item line resolve, a kept struct with such a type
/// makes `build` fail with `UndefinedType`, and never succeed.
pub proof fn lemma_undefined_type_reported(t: SFileV, i: int, j: int, n: Seq<char>)
    requires
        t.options.len() <= 1,
        first_pass(t) is Ok,
        0 <= i < first_pass(t)->Ok_0.len(),
        0 <= j < first_pass(t)->Ok_0[i].items.len(),
        first_pass(t)->Ok_0[i].items[j].kind == TypeV::User(n),
        !names_of(first_pass(t)->Ok_0).contains(n),
    ensures
        build(t) matches Err(SchemaErrorV::UndefinedType(_, _)),
{
    let ss = first_pass(t)->Ok_0;
    if undefined_in(ss, names_of(ss), ss.len()) is None {
        lemma_no_undefined(ss, names_of(ss), ss.len());
        assert(types_resolve(ss[i].items, names_of(ss)));
        assert(ss[i].items[j].kind matches TypeV::User(m) ==> names_of(ss).contains(m));
    }
}


/// An array count names an item above it: an item line whose count names
/// no item above it in its struct fails with `UndefinedVariable`, whatever
/// stands below it.
pub proof fn lemma_forward_count_reported(env: Seq<ItemV>, s: SItemV, fe: Endian, c: Seq<char>)
    requires
        s.bracket == Some(BracketV::Name(c)),
        item_options(s.options, s.options.len(), fe) is Ok,
        item_options(s.options, s.options.len(), fe)->Ok_0.0 is None,
        !env_names(env).contains(c),
    ensures
        build_item(env, s, fe) == Err::<ItemV, SchemaErrorV>(SchemaErrorV::UndefinedVariable(c)),
{
    lemma_first_index_bound(env_names(env), c, env.len());
    if let Some(k) = first_index(env_names(env), c, env.len()) {
        assert(env_names(env)[k as int] == c);
    }
}

/// A count type goes only with a count written inline: `array_size_type`
/// on an item line whose brackets hold a number or a name fails with
/// `ConflictingArraySizeDeclaration`.
pub proof fn lemma_count_type_conflict(env: Seq<ItemV>, s: SItemV, fe: Endian)
    requires
        s.bracket is Some,
        !(s.bracket->Some_0 is Empty),
        item_options(s.options, s.options.len(), fe) is Ok,
        item_options(s.options, s.options.len(), fe)->Ok_0.0 is Some,
    ensures
        build_item(env, s, fe) == Err::<ItemV, SchemaErrorV>(
            SchemaErrorV::ConflictingArraySizeDeclaration(s.name),
        ),
{
}


/// The struct definitions among the first `n` that have items, in order.
pub open spec fn kept_defs(structs: Seq<SStructV>, n: nat) -> Seq<SStructV>
    decreases n,
{
    if n == 0 {
        Seq::empty()
    } else if structs[n - 1].items.len() > 0 {
        kept_defs(structs, (n - 1) as nat).push(structs[n - 1])
    } else {
        kept_defs(structs, (n - 1) as nat)
    }
}

/// Whether struct `s` stands for definition `d`: the same name, and items
/// of the same names in the same order.
pub open spec fn stands_for(s: StructV, d: SStructV) -> bool {
    &&& s.name == d.name
    &&& s.items.len() == d.items.len()
    &&& forall|j: int| 0 <= j < s.items.len() ==> #[trigger] s.items[j].name == d.items[j].name
}

proof fn lemma_items_names(items: Seq<SItemV>, n: nat, fe: Endian)
    requires
        n <= items.len(),
        build_items(items, n, fe) is Ok,
    ensures
        build_items(items, n, fe)->Ok_0.len() == n,
        forall|j: int|
            0 <= j < n ==> #[trigger] build_items(items, n, fe)->Ok_0[j].name == items[j].name,
    decreases n,
{
    if n > 0 {
        lemma_items_names(items, (n - 1) as nat, fe);
    }
}

proof fn lemma_structs_kept(structs: Seq<SStructV>, n: nat, fe: Endian)
    requires
        n <= structs.len(),
        build_structs(structs, n, fe) is Ok,
    ensures
        build_structs(structs, n, fe)->Ok_0.len() == kept_defs(structs, n).len(),
        forall|i: int|
            0 <= i < kept_defs(structs, n).len() ==> stands_for(
                #[trigger] build_structs(structs, n, fe)->Ok_0[i],
                kept_defs(structs, n)[i],
            ),
    decreases n,
{
    if n > 0 {
        lemma_structs_kept(structs, (n - 1) as nat, fe);
        let d = structs[n - 1];
        lemma_items_names(d.items, d.items.len(), fe);
    }
}

/// Struct definitions without items are left out and nothing else is: the
/// structs of a representation that `build` gives stand, in order, for
/// the definitions of the tree that have items, with their items in order.
pub proof fn lemma_build_keeps_definitions(t: SFileV)
    requires
        build(t) is Ok,
    ensures
        build(t)->Ok_0.structs.len() == kept_defs(t.structs, t.structs.len()).len(),
        forall|i: int|
            0 <= i < build(t)->Ok_0.structs.len() ==> stands_for(
                #[trigger] build(t)->Ok_0.structs[i],
                kept_defs(t.structs, t.structs.len())[i],
            ),
{
    let opts = if t.options.len() == 1 {
        t.options[0]
    } else {
        Seq::empty()
    };
    let fe = file_options(opts, opts.len())->Ok_0.1;
    lemma_structs_kept(t.structs, t.structs.len(), fe);
}

} // verus!
