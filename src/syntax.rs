//! The parse tree of a schema text, as the grammar gives it, before any
//! name is resolved or option interpreted.
use vstd::prelude::*;

verus! {

/// A `key value` or `key:value` option.
#[derive(Debug)]
pub struct SyntaxOption {
    pub key: String,
    pub value: String,
}

/// What stands between an item's brackets.
#[derive(Debug)]
pub enum Bracket {
    /// `[]`
    Empty,
    /// `[12]`
    Number(usize),
    /// `[count]`
    Name(String),
}

/// One item line: `name [bracket]type options...`.
#[derive(Debug)]
pub struct SyntaxItem {
    pub name: String,
    pub bracket: Option<Bracket>,
    pub kind_name: String,
    pub options: Vec<SyntaxOption>,
}

/// `struct name { items }`.
#[derive(Debug)]
pub struct SyntaxStruct {
    pub name: String,
    pub items: Vec<SyntaxItem>,
}

/// A whole schema text: its `options` statements and its struct definitions.
#[derive(Debug)]
pub struct SyntaxFile {
    pub options: Vec<Vec<SyntaxOption>>,
    pub structs: Vec<SyntaxStruct>,
}

pub struct OptionV {
    pub key: Seq<char>,
    pub value: Seq<char>,
}

pub enum BracketV {
    Empty,
    Number(nat),
    Name(Seq<char>),
}

pub struct SItemV {
    pub name: Seq<char>,
    pub bracket: Option<BracketV>,
    pub kind_name: Seq<char>,
    pub options: Seq<OptionV>,
}

pub struct SStructV {
    pub name: Seq<char>,
    pub items: Seq<SItemV>,
}

pub struct SFileV {
    pub options: Seq<Seq<OptionV>>,
    pub structs: Seq<SStructV>,
}

impl View for SyntaxOption {
    type V = OptionV;

    open spec fn view(&self) -> OptionV {
        OptionV { key: self.key@, value: self.value@ }
    }
}

impl View for Bracket {
    type V = BracketV;

    open spec fn view(&self) -> BracketV {
        match self {
            Bracket::Empty => BracketV::Empty,
            Bracket::Number(n) => BracketV::Number(*n as nat),
            Bracket::Name(s) => BracketV::Name(s@),
        }
    }
}

pub open spec fn options_view(v: Vec<SyntaxOption>) -> Seq<OptionV> {
    v@.map_values(|o: SyntaxOption| o@)
}

impl View for SyntaxItem {
    type V = SItemV;

    open spec fn view(&self) -> SItemV {
        SItemV {
            name: self.name@,
            bracket: match self.bracket {
                Some(b) => Some(b@),
                None => None,
            },
            kind_name: self.kind_name@,
            options: options_view(self.options),
        }
    }
}

impl View for SyntaxStruct {
    type V = SStructV;

    open spec fn view(&self) -> SStructV {
        SStructV { name: self.name@, items: self.items@.map_values(|i: SyntaxItem| i@) }
    }
}

impl View for SyntaxFile {
    type V = SFileV;

    open spec fn view(&self) -> SFileV {
        SFileV {
            options: self.options@.map_values(|v: Vec<SyntaxOption>| options_view(v)),
            structs: self.structs@.map_values(|s: SyntaxStruct| s@),
        }
    }
}

} // verus!
