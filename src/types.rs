//! The intermediate representation of a schema, and its model.
use vstd::prelude::*;

verus! {

/// The element type of a struct item.
#[derive(Debug)]
pub enum Type {
    U8,
    U16,
    U32,
    U64,
    I8,
    I16,
    I32,
    I64,
    F32,
    F64,
    Byte,
    String,
    CString,
    User(String),
}

/// How many elements an array item has, and where that count comes from.
#[derive(Debug)]
pub enum Array {
    /// Exactly this many elements; no count on the wire.
    Constant(usize),
    /// The count is written just before the elements, as an integer of this type.
    Unknown(Type),
    /// The count is the value of the earlier sibling item of this name and type.
    Variable(String, Type),
}

/// Byte order of multi-byte values.
#[derive(Debug, Clone, Copy)]
pub enum Endian {
    Little,
    Big,
}

/// One field of a struct.
#[derive(Debug)]
pub struct Item {
    pub name: String,
    pub kind: Type,
    pub array: Option<Array>,
    pub byte_order: Endian,
}

/// A record: its items in wire order.
#[derive(Debug)]
pub struct Struct {
    pub name: String,
    pub items: Vec<Item>,
}

/// A whole schema.
#[derive(Debug)]
pub struct File {
    pub scope: String,
    pub structs: Vec<Struct>,
}

/// Width in bytes of a fixed-width primitive type.
pub open spec fn fixed_width(t: Type) -> Option<nat> {
    match t {
        Type::U8 | Type::I8 | Type::Byte => Some(1),
        Type::U16 | Type::I16 => Some(2),
        Type::U32 | Type::I32 | Type::F32 => Some(4),
        Type::U64 | Type::I64 | Type::F64 => Some(8),
        _ => None,
    }
}

/// The integer types: those that may count array elements.
pub open spec fn is_integer(t: Type) -> bool {
    match t {
        Type::U8 | Type::U16 | Type::U32 | Type::U64 | Type::I8 | Type::I16 | Type::I32
        | Type::I64 => true,
        _ => false,
    }
}

pub open spec fn is_signed(t: Type) -> bool {
    match t {
        Type::I8 | Type::I16 | Type::I32 | Type::I64 => true,
        _ => false,
    }
}

impl Type {
    /// Width in bytes of a fixed-width primitive, `None` for the others.
    pub fn width(&self) -> (r: Option<usize>)
        ensures
            r matches Some(w) ==> fixed_width(*self) == Some(w as nat),
            r is None ==> fixed_width(*self) is None,
    {
        match self {
            Type::U8 | Type::I8 | Type::Byte => Some(1),
            Type::U16 | Type::I16 => Some(2),
            Type::U32 | Type::I32 | Type::F32 => Some(4),
            Type::U64 | Type::I64 | Type::F64 => Some(8),
            _ => None,
        }
    }

    pub fn is_integer(&self) -> (r: bool)
        ensures
            r == is_integer(*self),
    {
        match self {
            Type::U8 | Type::U16 | Type::U32 | Type::U64 | Type::I8 | Type::I16 | Type::I32
            | Type::I64 => true,
            _ => false,
        }
    }

    pub fn is_signed(&self) -> (r: bool)
        ensures
            r == is_signed(*self),
    {
        match self {
            Type::I8 | Type::I16 | Type::I32 | Type::I64 => true,
            _ => false,
        }
    }

    /// A copy of this type.
    pub fn duplicate(&self) -> (r: Type)
        ensures
            r@ == self@,
    {
        match self {
            Type::U8 => Type::U8,
            Type::U16 => Type::U16,
            Type::U32 => Type::U32,
            Type::U64 => Type::U64,
            Type::I8 => Type::I8,
            Type::I16 => Type::I16,
            Type::I32 => Type::I32,
            Type::I64 => Type::I64,
            Type::F32 => Type::F32,
            Type::F64 => Type::F64,
            Type::Byte => Type::Byte,
            Type::String => Type::String,
            Type::CString => Type::CString,
            Type::User(n) => Type::User(n.clone()),
        }
    }
}

/// Model of a `Type`.
pub enum TypeV {
    U8,
    U16,
    U32,
    U64,
    I8,
    I16,
    I32,
    I64,
    F32,
    F64,
    Byte,
    String,
    CString,
    User(Seq<char>),
}

/// Model of an `Array`.
pub enum ArrayV {
    Constant(nat),
    Unknown(TypeV),
    Variable(Seq<char>, TypeV),
}

/// Model of an `Item`.
pub struct ItemV {
    pub name: Seq<char>,
    pub kind: TypeV,
    pub array: Option<ArrayV>,
    pub byte_order: Endian,
}

/// Model of a `Struct`.
pub struct StructV {
    pub name: Seq<char>,
    pub items: Seq<ItemV>,
}

/// Model of a `File`.
pub struct FileV {
    pub scope: Seq<char>,
    pub structs: Seq<StructV>,
}

impl View for Type {
    type V = TypeV;

    open spec fn view(&self) -> TypeV {
        match self {
            Type::U8 => TypeV::U8,
            Type::U16 => TypeV::U16,
            Type::U32 => TypeV::U32,
            Type::U64 => TypeV::U64,
            Type::I8 => TypeV::I8,
            Type::I16 => TypeV::I16,
            Type::I32 => TypeV::I32,
            Type::I64 => TypeV::I64,
            Type::F32 => TypeV::F32,
            Type::F64 => TypeV::F64,
            Type::Byte => TypeV::Byte,
            Type::String => TypeV::String,
            Type::CString => TypeV::CString,
            Type::User(n) => TypeV::User(n@),
        }
    }
}

impl View for Array {
    type V = ArrayV;

    open spec fn view(&self) -> ArrayV {
        match self {
            Array::Constant(n) => ArrayV::Constant(*n as nat),
            Array::Unknown(t) => ArrayV::Unknown(t@),
            Array::Variable(n, t) => ArrayV::Variable(n@, t@),
        }
    }
}

pub open spec fn array_view(a: Option<Array>) -> Option<ArrayV> {
    match a {
        Some(x) => Some(x@),
        None => None,
    }
}

impl View for Item {
    type V = ItemV;

    open spec fn view(&self) -> ItemV {
        ItemV {
            name: self.name@,
            kind: self.kind@,
            array: array_view(self.array),
            byte_order: self.byte_order,
        }
    }
}

impl View for Struct {
    type V = StructV;

    open spec fn view(&self) -> StructV {
        StructV { name: self.name@, items: self.items@.map_values(|i: Item| i@) }
    }
}

impl View for File {
    type V = FileV;

    open spec fn view(&self) -> FileV {
        FileV { scope: self.scope@, structs: self.structs@.map_values(|s: Struct| s@) }
    }
}

pub open spec fn is_integer_v(t: TypeV) -> bool {
    match t {
        TypeV::U8 | TypeV::U16 | TypeV::U32 | TypeV::U64 | TypeV::I8 | TypeV::I16 | TypeV::I32
        | TypeV::I64 => true,
        _ => false,
    }
}

} // verus!
