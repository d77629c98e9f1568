//! The grammar of schema texts, stated over the characters of the text.
//!
//! A text holds at most one `options` statement, first, and then struct
//! definitions. Between them stand spaces, line ends and comments (`// ...`
//! to the end of the line, `/* ... */`). A definition is
//! `struct name {`, a line end, one item per line, and a closing `}`; its
//! name may be followed by a line end before the `{`. An item line is
//! `name type` or `name [count]type`, where the count is empty, a number or
//! an item name, followed by options; a comment may close the line, but a
//! comment that spans line ends does not end it. Options are `key value` or
//! `key:value`; an `options` statement holds them on its own line, or one per
//! line between `{` and `}`.
//!
//! Each function reads from position `i` and gives what it read and the
//! position after it, or the position at which the text stops following
//! the grammar.
use vstd::prelude::*;
use crate::syntax::{BracketV, OptionV, SFileV, SItemV, SStructV};

verus! {

pub open spec fn is_space(c: char) -> bool {
    c == ' ' || c == '\t'
}

pub open spec fn is_digit(c: char) -> bool {
    '0' <= c && c <= '9'
}

pub open spec fn is_ident_start(c: char) -> bool {
    ('a' <= c && c <= 'z') || ('A' <= c && c <= 'Z') || c == '_'
}

pub open spec fn is_ident_char(c: char) -> bool {
    is_ident_start(c) || is_digit(c)
}

/// Whether character `i` of `s` is `c`.
pub open spec fn char_is(s: Seq<char>, i: nat, c: char) -> bool {
    i < s.len() && s[i as int] == c
}

/// Whether `kw` stands in `s` at `i`.
pub open spec fn keyword_at(s: Seq<char>, i: nat, kw: Seq<char>) -> bool {
    i + kw.len() <= s.len() && s.subrange(i as int, i + kw.len() as int) == kw
}

/// The end of the run of spaces at `i`.
pub open spec fn skip_spaces(s: Seq<char>, i: nat) -> nat
    decreases s.len() - i,
{
    if i < s.len() && is_space(s[i as int]) {
        skip_spaces(s, i + 1)
    } else {
        i
    }
}

/// The end of the run of identifier characters at `i`.
pub open spec fn word_end(s: Seq<char>, i: nat) -> nat
    decreases s.len() - i,
{
    if i < s.len() && is_ident_char(s[i as int]) {
        word_end(s, i + 1)
    } else {
        i
    }
}

/// The end of the run of digits at `i`.
pub open spec fn digits_end(s: Seq<char>, i: nat) -> nat
    decreases s.len() - i,
{
    if i < s.len() && is_digit(s[i as int]) {
        digits_end(s, i + 1)
    } else {
        i
    }
}

/// The number that a run of decimal digits writes.
pub open spec fn digits_value(d: Seq<char>) -> nat
    decreases d.len(),
{
    if d.len() == 0 {
        0
    } else {
        digits_value(d.drop_last()) * 10 + ((d.last() as nat) - ('0' as nat)) as nat
    }
}

/// The position of the first line feed at or after `i`, or the end.
pub open spec fn line_comment_end(s: Seq<char>, i: nat) -> nat
    decreases s.len() - i,
{
    if i < s.len() && s[i as int] != '\n' {
        line_comment_end(s, i + 1)
    } else {
        i
    }
}

/// The position after the first `*/` at or after `i`.
pub open spec fn block_comment_end(s: Seq<char>, i: nat) -> Option<nat>
    decreases s.len() - i,
{
    if i + 1 < s.len() && s[i as int] == '*' && s[i + 1 as int] == '/' {
        Some(i + 2)
    } else if i < s.len() {
        block_comment_end(s, i + 1)
    } else {
        None
    }
}

/// The end of the comment that starts at `i`, if a whole one does.
pub open spec fn comment_end(s: Seq<char>, i: nat) -> Option<nat> {
    if char_is(s, i, '/') && char_is(s, i + 1, '/') {
        Some(line_comment_end(s, i + 2))
    } else if char_is(s, i, '/') && char_is(s, i + 1, '*') {
        block_comment_end(s, i + 2)
    } else {
        None
    }
}

/// The end of the spaces and comments at `i`.
pub open spec fn skip_inline(s: Seq<char>, i: nat) -> nat
    decreases s.len() - i,
{
    if i < s.len() && is_space(s[i as int]) {
        skip_inline(s, i + 1)
    } else {
        match comment_end(s, i) {
            Some(e) => if i < e <= s.len() {
                skip_inline(s, e)
            } else {
                i
            },
            None => i,
        }
    }
}

/// The position after the line end at `i`.
pub open spec fn newline_at(s: Seq<char>, i: nat) -> Option<nat> {
    if char_is(s, i, '\n') {
        Some(i + 1)
    } else if char_is(s, i, '\r') && char_is(s, i + 1, '\n') {
        Some(i + 2)
    } else {
        None
    }
}

/// The end of the spaces, comments and line ends at `i`.
pub open spec fn skip_blank(s: Seq<char>, i: nat) -> nat
    decreases s.len() - i,
{
    let j = skip_inline(s, i);
    match newline_at(s, j) {
        Some(k) => if i < k <= s.len() {
            skip_blank(s, k)
        } else {
            j
        },
        None => j,
    }
}

/// The rest of a line: spaces and comments, then a line end.
pub open spec fn line_end(s: Seq<char>, i: nat) -> Result<nat, nat> {
    let j = skip_inline(s, i);
    match newline_at(s, j) {
        Some(k) => Ok(k),
        None => Err(j),
    }
}

/// The rest of a statement line, which the end of the text may also close.
pub open spec fn statement_end(s: Seq<char>, i: nat) -> Result<nat, nat> {
    let j = skip_inline(s, i);
    if j == s.len() {
        Ok(j)
    } else {
        line_end(s, j)
    }
}

/// An identifier: a letter or `_`, then letters, digits and `_`.
pub open spec fn ident(s: Seq<char>, i: nat) -> Result<(Seq<char>, nat), nat> {
    if i < s.len() && is_ident_start(s[i as int]) {
        Ok((s.subrange(i as int, word_end(s, i) as int), word_end(s, i)))
    } else {
        Err(i)
    }
}

/// An option value: letters, digits and `_`.
pub open spec fn word(s: Seq<char>, i: nat) -> Result<(Seq<char>, nat), nat> {
    if i < s.len() && is_ident_char(s[i as int]) {
        Ok((s.subrange(i as int, word_end(s, i) as int), word_end(s, i)))
    } else {
        Err(i)
    }
}

/// `key:value` or `key value`.
pub open spec fn option_at(s: Seq<char>, i: nat) -> Result<(OptionV, nat), nat> {
    match ident(s, i) {
        Ok((key, j)) => {
            let v = if char_is(s, j, ':') {
                j + 1
            } else {
                skip_spaces(s, j)
            };
            match word(s, v) {
                Ok((value, e)) => Ok((OptionV { key, value }, e)),
                Err(p) => Err(p),
            }
        },
        Err(p) => Err(p),
    }
}

/// The options that follow `i` on its line, each after spaces.
pub open spec fn options_from(s: Seq<char>, i: nat) -> Result<(Seq<OptionV>, nat), nat>
    decreases s.len() - i,
{
    let j = skip_spaces(s, i);
    if i < j < s.len() && is_ident_start(s[j as int]) {
        match option_at(s, j) {
            Ok((o, k)) => if i < k <= s.len() {
                match options_from(s, k) {
                    Ok((rest, m)) => Ok((seq![o] + rest, m)),
                    Err(p) => Err(p),
                }
            } else {
                Err(k)
            },
            Err(p) => Err(p),
        }
    } else {
        Ok((Seq::empty(), i))
    }
}

/// `[]`, `[number]` or `[name]`, where `i` is at the `[`.
pub open spec fn bracket_at(s: Seq<char>, i: nat) -> Result<(BracketV, nat), nat> {
    let j = i + 1;
    if char_is(s, j, ']') {
        Ok((BracketV::Empty, j + 1))
    } else if j < s.len() && is_digit(s[j as int]) {
        let e = digits_end(s, j);
        let v = digits_value(s.subrange(j as int, e as int));
        if char_is(s, e, ']') && v <= usize::MAX {
            Ok((BracketV::Number(v), e + 1))
        } else {
            Err(e)
        }
    } else {
        match ident(s, j) {
            Ok((n, e)) => if char_is(s, e, ']') {
                Ok((BracketV::Name(n), e + 1))
            } else {
                Err(e)
            },
            Err(p) => Err(p),
        }
    }
}

/// An item line, with the line end that closes it.
pub open spec fn item_at(s: Seq<char>, i: nat) -> Result<(SItemV, nat), nat> {
    match ident(s, i) {
        Ok((name, j)) => if !(j < s.len() && is_space(s[j as int])) {
            Err(j)
        } else {
            let k = skip_spaces(s, j);
            let br: Result<(Option<BracketV>, nat), nat> = if char_is(s, k, '[') {
                match bracket_at(s, k) {
                    Ok((b, m)) => Ok((Some(b), m)),
                    Err(p) => Err(p),
                }
            } else {
                Ok((None, k))
            };
            match br {
                Ok((bracket, m)) => match ident(s, m) {
                    Ok((kind_name, q)) => match options_from(s, q) {
                        Ok((options, r)) => match line_end(s, r) {
                            Ok(e) => Ok((SItemV { name, bracket, kind_name, options }, e)),
                            Err(p) => Err(p),
                        },
                        Err(p) => Err(p),
                    },
                    Err(p) => Err(p),
                },
                Err(p) => Err(p),
            }
        },
        Err(p) => Err(p),
    }
}

/// The item lines of a struct body and its closing `}`.
pub open spec fn body_at(s: Seq<char>, i: nat) -> Result<(Seq<SItemV>, nat), nat>
    decreases s.len() - i,
{
    let j = skip_blank(s, i);
    if char_is(s, j, '}') {
        Ok((Seq::empty(), j + 1))
    } else {
        match item_at(s, j) {
            Ok((it, k)) => if i < k <= s.len() {
                match body_at(s, k) {
                    Ok((rest, m)) => Ok((seq![it] + rest, m)),
                    Err(p) => Err(p),
                }
            } else {
                Err(k)
            },
            Err(p) => Err(p),
        }
    }
}

/// A struct definition, where `i` is at the word `struct`.
pub open spec fn struct_at(s: Seq<char>, i: nat) -> Result<(SStructV, nat), nat> {
    let j = i + "struct"@.len();
    if !(j < s.len() && is_space(s[j as int])) {
        Err(j)
    } else {
        match ident(s, skip_spaces(s, j)) {
            Ok((name, k)) => {
                let m = skip_inline(s, k);
                let open = match newline_at(s, m) {
                    Some(q) => skip_blank(s, q),
                    None => m,
                };
                if !char_is(s, open, '{') {
                    Err(open)
                } else {
                    match line_end(s, open + 1) {
                        Ok(p) => match body_at(s, p) {
                            Ok((items, e)) => Ok((SStructV { name, items }, e)),
                            Err(x) => Err(x),
                        },
                        Err(x) => Err(x),
                    }
                }
            },
            Err(p) => Err(p),
        }
    }
}

/// The option lines of an `options { ... }` block and its closing `}`.
pub open spec fn option_lines(s: Seq<char>, i: nat) -> Result<(Seq<OptionV>, nat), nat>
    decreases s.len() - i,
{
    let j = skip_blank(s, i);
    if char_is(s, j, '}') {
        Ok((Seq::empty(), j + 1))
    } else {
        match option_at(s, j) {
            Ok((o, k)) => match line_end(s, k) {
                Ok(m) => if i < m <= s.len() {
                    match option_lines(s, m) {
                        Ok((rest, e)) => Ok((seq![o] + rest, e)),
                        Err(p) => Err(p),
                    }
                } else {
                    Err(m)
                },
                Err(p) => Err(p),
            },
            Err(p) => Err(p),
        }
    }
}

/// An `options` statement, where `i` is at the word `options`.
pub open spec fn options_at(s: Seq<char>, i: nat) -> Result<(Seq<OptionV>, nat), nat> {
    let j = i + "options"@.len();
    let k = skip_spaces(s, j);
    if char_is(s, k, '{') {
        match line_end(s, k + 1) {
            Ok(p) => option_lines(s, p),
            Err(p) => Err(p),
        }
    } else if j < k {
        match option_at(s, k) {
            Ok((o, m)) => match options_from(s, m) {
                Ok((rest, q)) => match statement_end(s, q) {
                    Ok(e) => Ok((seq![o] + rest, e)),
                    Err(p) => Err(p),
                },
                Err(p) => Err(p),
            },
            Err(p) => Err(p),
        }
    } else {
        Err(k)
    }
}

/// The statements from `i` to the end of the text; an `options` statement
/// only where `options_allowed`, that is before any other statement.
pub open spec fn file_from(s: Seq<char>, i: nat, options_allowed: bool) -> Result<SFileV, nat>
    decreases s.len() - i,
{
    let j = skip_blank(s, i);
    if j >= s.len() {
        Ok(SFileV { options: Seq::empty(), structs: Seq::empty() })
    } else if options_allowed && keyword_at(s, j, "options"@) {
        match options_at(s, j) {
            Ok((os, k)) => if i < k <= s.len() {
                match file_from(s, k, false) {
                    Ok(f) => Ok(SFileV { options: seq![os] + f.options, structs: f.structs }),
                    Err(p) => Err(p),
                }
            } else {
                Err(k)
            },
            Err(p) => Err(p),
        }
    } else if keyword_at(s, j, "struct"@) {
        match struct_at(s, j) {
            Ok((st, k)) => if i < k <= s.len() {
                match file_from(s, k, false) {
                    Ok(f) => Ok(SFileV { options: f.options, structs: seq![st] + f.structs }),
                    Err(p) => Err(p),
                }
            } else {
                Err(k)
            },
            Err(p) => Err(p),
        }
    } else {
        Err(j)
    }
}

/// The parse tree of a whole text, or the position of its first error.
pub open spec fn syntax_of(s: Seq<char>) -> Result<SFileV, nat> {
    file_from(s, 0, true)
}

} // verus!
