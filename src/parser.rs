//! Reading schema texts: the grammar, then the resolution of names and
//! options into the intermediate representation.
use vstd::prelude::*;
use crate::grammar::{
    is_space,
    is_digit,
    is_ident_start,
    is_ident_char,
    char_is,
    keyword_at,
    skip_spaces,
    word_end,
    digits_end,
    digits_value,
    line_comment_end,
    block_comment_end,
    comment_end,
    skip_inline,
    newline_at,
    skip_blank,
    line_end,
    statement_end,
    ident,
    word,
    option_at,
    options_from,
    bracket_at,
    item_at,
    body_at,
    struct_at,
    option_lines,
    options_at,
    file_from,
    syntax_of,
};
use crate::syntax::{
    Bracket,
    OptionV,
    SItemV,
    SStructV,
    SyntaxFile,
    SyntaxItem,
    SyntaxOption,
    SyntaxStruct,
    options_view,
};
use crate::types::File;
use crate::validate::{
    SchemaError,
    SchemaErrorV,
    build,
    build_file,
    result_view,
    well_formed,
    kept_defs,
    stands_for,
    lemma_build_well_formed,
    lemma_build_keeps_definitions,
};

verus! {

/// The characters of `text`.
fn chars_of(text: &str) -> (r: Vec<char>)
    ensures
        r@ == text@,
{
    let mut out: Vec<char> = Vec::new();
    for c in it: text.chars()
        invariant
            out@ == it.seq().take(it.index() as int),
    {
        out.push(c);
    }
    out
}

fn space_at(cs: &Vec<char>, i: usize) -> (r: bool)
    ensures
        cs@.len() <= usize::MAX,
        r == (i < cs@.len() && is_space(cs@[i as int])),
{
    i < cs.len() && (cs[i] == ' ' || cs[i] == '\t')
}

fn digit_at(cs: &Vec<char>, i: usize) -> (r: bool)
    ensures
        cs@.len() <= usize::MAX,
        r == (i < cs@.len() && is_digit(cs@[i as int])),
{
    i < cs.len() && '0' <= cs[i] && cs[i] <= '9'
}

fn ident_start_at(cs: &Vec<char>, i: usize) -> (r: bool)
    ensures
        cs@.len() <= usize::MAX,
        r == (i < cs@.len() && is_ident_start(cs@[i as int])),
{
    if i < cs.len() {
        let c = cs[i];
        ('a' <= c && c <= 'z') || ('A' <= c && c <= 'Z') || c == '_'
    } else {
        false
    }
}

fn ident_char_at(cs: &Vec<char>, i: usize) -> (r: bool)
    ensures
        cs@.len() <= usize::MAX,
        r == (i < cs@.len() && is_ident_char(cs@[i as int])),
{
    ident_start_at(cs, i) || digit_at(cs, i)
}

fn char_at(cs: &Vec<char>, i: usize, c: char) -> (r: bool)
    ensures
        cs@.len() <= usize::MAX,
        r == char_is(cs@, i as nat, c),
{
    i < cs.len() && cs[i] == c
}

/// Whether the word `kw` stands at `i`.
fn keyword_here(cs: &Vec<char>, i: usize, kw: &str) -> (r: bool)
    ensures
        r == keyword_at(cs@, i as nat, kw@),
{
    let n = kw.unicode_len();
    if i > cs.len() || n > cs.len() - i {
        return false;
    }
    let len = cs.len();
    let mut k: usize = 0;
    while k < n
        invariant
            len == cs@.len(),
            n == kw@.len(),
            i + n <= cs@.len(),
            k <= n,
            forall|m: int| 0 <= m < k ==> cs@[i + m] == kw@[m],
        decreases n - k,
    {
        if cs[i + k] != kw.get_char(k) {
            assert(cs@.subrange(i as int, i + n)[k as int] != kw@[k as int]);
            return false;
        }
        k = k + 1;
    }
    assert(cs@.subrange(i as int, i + n) =~= kw@);
    true
}

fn skip_spaces_x(cs: &Vec<char>, i: usize) -> (r: usize)
    requires
        i <= cs@.len(),
    ensures
        r == skip_spaces(cs@, i as nat),
        i <= r <= cs@.len(),
    decreases cs@.len() - i,
{
    if space_at(cs, i) {
        skip_spaces_x(cs, i + 1)
    } else {
        i
    }
}

fn word_end_x(cs: &Vec<char>, i: usize) -> (r: usize)
    requires
        i <= cs@.len(),
    ensures
        r == word_end(cs@, i as nat),
        i <= r <= cs@.len(),
    decreases cs@.len() - i,
{
    if ident_char_at(cs, i) {
        word_end_x(cs, i + 1)
    } else {
        i
    }
}

fn digits_end_x(cs: &Vec<char>, i: usize) -> (r: usize)
    requires
        i <= cs@.len(),
    ensures
        r == digits_end(cs@, i as nat),
        i <= r <= cs@.len(),
    decreases cs@.len() - i,
{
    if digit_at(cs, i) {
        digits_end_x(cs, i + 1)
    } else {
        i
    }
}

fn line_comment_end_x(cs: &Vec<char>, i: usize) -> (r: usize)
    requires
        i <= cs@.len(),
    ensures
        r == line_comment_end(cs@, i as nat),
        i <= r <= cs@.len(),
    decreases cs@.len() - i,
{
    if i < cs.len() && cs[i] != '\n' {
        line_comment_end_x(cs, i + 1)
    } else {
        i
    }
}

fn block_comment_end_x(cs: &Vec<char>, i: usize) -> (r: Option<usize>)
    requires
        i <= cs@.len(),
    ensures
        r matches Some(e) ==> block_comment_end(cs@, i as nat) == Some(e as nat) && e <= cs@.len(),
        r is None ==> block_comment_end(cs@, i as nat) is None,
    decreases cs@.len() - i,
{
    if i < cs.len() && i + 1 < cs.len() && cs[i] == '*' && cs[i + 1] == '/' {
        Some(i + 2)
    } else if i < cs.len() {
        block_comment_end_x(cs, i + 1)
    } else {
        None
    }
}

fn comment_end_x(cs: &Vec<char>, i: usize) -> (r: Option<usize>)
    requires
        i <= cs@.len(),
    ensures
        r matches Some(e) ==> comment_end(cs@, i as nat) == Some(e as nat) && e <= cs@.len(),
        r is None ==> comment_end(cs@, i as nat) is None,
{
    if char_at(cs, i, '/') && char_at(cs, i + 1, '/') {
        Some(line_comment_end_x(cs, i + 2))
    } else if char_at(cs, i, '/') && char_at(cs, i + 1, '*') {
        block_comment_end_x(cs, i + 2)
    } else {
        None
    }
}

fn skip_inline_x(cs: &Vec<char>, i: usize) -> (r: usize)
    requires
        i <= cs@.len(),
    ensures
        r == skip_inline(cs@, i as nat),
        i <= r <= cs@.len(),
    decreases cs@.len() - i,
{
    if space_at(cs, i) {
        skip_inline_x(cs, i + 1)
    } else {
        match comment_end_x(cs, i) {
            Some(e) => if i < e && e <= cs.len() {
                skip_inline_x(cs, e)
            } else {
                i
            },
            None => i,
        }
    }
}

fn newline_at_x(cs: &Vec<char>, i: usize) -> (r: Option<usize>)
    ensures
        r matches Some(e) ==> newline_at(cs@, i as nat) == Some(e as nat) && e <= cs@.len(),
        r is None ==> newline_at(cs@, i as nat) is None,
{
    if char_at(cs, i, '\n') {
        Some(i + 1)
    } else if char_at(cs, i, '\r') && char_at(cs, i + 1, '\n') {
        Some(i + 2)
    } else {
        None
    }
}

fn skip_blank_x(cs: &Vec<char>, i: usize) -> (r: usize)
    requires
        i <= cs@.len(),
    ensures
        r == skip_blank(cs@, i as nat),
        i <= r <= cs@.len(),
    decreases cs@.len() - i,
{
    let j = skip_inline_x(cs, i);
    match newline_at_x(cs, j) {
        Some(k) => if i < k && k <= cs.len() {
            skip_blank_x(cs, k)
        } else {
            j
        },
        None => j,
    }
}

fn line_end_x(cs: &Vec<char>, i: usize) -> (r: Result<usize, usize>)
    requires
        i <= cs@.len(),
    ensures
        match line_end(cs@, i as nat) {
            Ok(p) => r matches Ok(q) && q == p && q <= cs@.len(),
            Err(p) => r matches Err(q) && q == p,
        },
{
    let j = skip_inline_x(cs, i);
    match newline_at_x(cs, j) {
        Some(k) => Ok(k),
        None => Err(j),
    }
}

fn statement_end_x(cs: &Vec<char>, i: usize) -> (r: Result<usize, usize>)
    requires
        i <= cs@.len(),
    ensures
        match statement_end(cs@, i as nat) {
            Ok(p) => r matches Ok(q) && q == p && q <= cs@.len(),
            Err(p) => r matches Err(q) && q == p,
        },
{
    let j = skip_inline_x(cs, i);
    if j == cs.len() {
        Ok(j)
    } else {
        line_end_x(cs, j)
    }
}

/// The text between `a` and `b`.
fn text_between(text: &str, a: usize, b: usize) -> (r: String)
    requires
        a <= b <= text@.len(),
    ensures
        r@ == text@.subrange(a as int, b as int),
{
    text.substring_char(a, b).to_owned()
}

fn ident_x(text: &str, cs: &Vec<char>, i: usize) -> (r: Result<(String, usize), usize>)
    requires
        cs@ == text@,
        i <= cs@.len(),
    ensures
        match ident(cs@, i as nat) {
            Ok((v, p)) => r matches Ok((x, q)) && x@ == v && q == p && q <= cs@.len(),
            Err(p) => r matches Err(q) && q == p,
        },
{
    if ident_start_at(cs, i) {
        let e = word_end_x(cs, i);
        Ok((text_between(text, i, e), e))
    } else {
        Err(i)
    }
}

fn word_x(text: &str, cs: &Vec<char>, i: usize) -> (r: Result<(String, usize), usize>)
    requires
        cs@ == text@,
        i <= cs@.len(),
    ensures
        match word(cs@, i as nat) {
            Ok((v, p)) => r matches Ok((x, q)) && x@ == v && q == p && q <= cs@.len(),
            Err(p) => r matches Err(q) && q == p,
        },
{
    if ident_char_at(cs, i) {
        let e = word_end_x(cs, i);
        Ok((text_between(text, i, e), e))
    } else {
        Err(i)
    }
}

fn option_x(text: &str, cs: &Vec<char>, i: usize) -> (r: Result<(SyntaxOption, usize), usize>)
    requires
        cs@ == text@,
        i <= cs@.len(),
    ensures
        match option_at(cs@, i as nat) {
            Ok((v, p)) => r matches Ok((x, q)) && x@ == v && q == p && q <= cs@.len(),
            Err(p) => r matches Err(q) && q == p,
        },
{
    let (key, j) = ident_x(text, cs, i)?;
    let v = if char_at(cs, j, ':') {
        j + 1
    } else {
        skip_spaces_x(cs, j)
    };
    let (value, e) = word_x(text, cs, v)?;
    Ok((SyntaxOption { key, value }, e))
}

fn options_from_x(text: &str, cs: &Vec<char>, i: usize) -> (r: Result<
    (Vec<SyntaxOption>, usize),
    usize,
>)
    requires
        cs@ == text@,
        i <= cs@.len(),
    ensures
        match options_from(cs@, i as nat) {
            Ok((v, p)) => r matches Ok((x, q)) && options_view(x) == v && q == p && q <= cs@.len(),
            Err(p) => r matches Err(q) && q == p,
        },
    decreases cs@.len() - i,
{
    let j = skip_spaces_x(cs, i);
    if i < j && ident_start_at(cs, j) {
        let (o, k) = option_x(text, cs, j)?;
        if i < k && k <= cs.len() {
            let (mut rest, m) = options_from_x(text, cs, k)?;
            let ghost rv = options_view(rest);
            rest.insert(0, o);
            assert(options_view(rest) =~= seq![o@] + rv);
            Ok((rest, m))
        } else {
            Err(k)
        }
    } else {
        let v: Vec<SyntaxOption> = Vec::new();
        assert(options_view(v) =~= Seq::<OptionV>::empty());
        Ok((v, i))
    }
}


proof fn lemma_digits_value_prefix(d: Seq<char>, k: nat)
    requires
        k <= d.len(),
    ensures
        digits_value(d.take(k as int)) <= digits_value(d),
    decreases d.len(),
{
    if k < d.len() {
        lemma_digits_value_prefix(d.drop_last(), k);
        assert(d.drop_last().take(k as int) =~= d.take(k as int));
    } else {
        assert(d.take(k as int) =~= d);
    }
}

/// The number that the digits `cs[a..e]` write, where it fits in a machine word.
fn number_x(cs: &Vec<char>, a: usize, e: usize) -> (r: Option<usize>)
    requires
        a <= e <= cs@.len(),
        forall|k: int| a <= k < e ==> is_digit(#[trigger] cs@[k]),
    ensures
        r matches Some(v) ==> v as nat == digits_value(cs@.subrange(a as int, e as int)),
        r is None ==> digits_value(cs@.subrange(a as int, e as int)) > usize::MAX,
{
    let ghost d = cs@.subrange(a as int, e as int);
    let mut acc: usize = 0;
    let mut k: usize = a;
    assert(d.take(0) =~= Seq::<char>::empty());
    while k < e
        invariant
            a <= k <= e <= cs@.len(),
            d == cs@.subrange(a as int, e as int),
            forall|m: int| a <= m < e ==> is_digit(#[trigger] cs@[m]),
            acc as nat == digits_value(d.take(k - a)),
        decreases e - k,
    {
        let c = cs[k];
        assert(is_digit(cs@[k as int]));
        let dv: usize = (c as u32 - '0' as u32) as usize;
        let ghost longer = d.take(k - a + 1);
        assert(longer.drop_last() =~= d.take(k - a));
        assert(longer.last() == c);
        assert(digits_value(longer) == acc * 10 + dv);
        if acc > (usize::MAX - dv) / 10 {
            assert(acc * 10 + dv > usize::MAX) by (nonlinear_arith)
                requires
                    acc > (usize::MAX - dv) / 10,
                    dv <= 9,
            ;
            proof {
                lemma_digits_value_prefix(d, (k - a + 1) as nat);
            }
            return None;
        }
        assert(acc * 10 + dv <= usize::MAX) by (nonlinear_arith)
            requires
                acc <= (usize::MAX - dv) / 10,
                dv <= 9,
        ;
        acc = acc * 10 + dv;
        k = k + 1;
    }
    assert(d.take(e - a) =~= d);
    Some(acc)
}

fn bracket_x(text: &str, cs: &Vec<char>, i: usize) -> (r: Result<(Bracket, usize), usize>)
    requires
        cs@ == text@,
        char_is(cs@, i as nat, '['),
    ensures
        match bracket_at(cs@, i as nat) {
            Ok((v, p)) => r matches Ok((x, q)) && x@ == v && q == p && q <= cs@.len(),
            Err(p) => r matches Err(q) && q == p,
        },
{
    // Bounds the length of `cs` by the machine word, for the sums below.
    let _len = cs.len();
    let j = i + 1;
    if char_at(cs, j, ']') {
        Ok((Bracket::Empty, j + 1))
    } else if digit_at(cs, j) {
        let e = digits_end_x(cs, j);
        proof {
            lemma_digits_run(cs@, j as nat, e as nat);
        }
        match number_x(cs, j, e) {
            Some(v) => if char_at(cs, e, ']') {
                Ok((Bracket::Number(v), e + 1))
            } else {
                Err(e)
            },
            None => Err(e),
        }
    } else {
        let (n, e) = ident_x(text, cs, j)?;
        if char_at(cs, e, ']') {
            Ok((Bracket::Name(n), e + 1))
        } else {
            Err(e)
        }
    }
}

proof fn lemma_digits_run(s: Seq<char>, i: nat, e: nat)
    requires
        i <= s.len(),
        e == digits_end(s, i),
    ensures
        forall|k: int| i <= k < e ==> is_digit(#[trigger] s[k]),
    decreases s.len() - i,
{
    if i < s.len() && is_digit(s[i as int]) {
        lemma_digits_run(s, i + 1, e);
    }
}

fn item_x(text: &str, cs: &Vec<char>, i: usize) -> (r: Result<(SyntaxItem, usize), usize>)
    requires
        cs@ == text@,
        i <= cs@.len(),
    ensures
        match item_at(cs@, i as nat) {
            Ok((v, p)) => r matches Ok((x, q)) && x@ == v && q == p && q <= cs@.len(),
            Err(p) => r matches Err(q) && q == p,
        },
{
    let (name, j) = ident_x(text, cs, i)?;
    if !space_at(cs, j) {
        return Err(j);
    }
    let k = skip_spaces_x(cs, j);
    let (bracket, m) = if char_at(cs, k, '[') {
        let (b, m) = bracket_x(text, cs, k)?;
        (Some(b), m)
    } else {
        (None, k)
    };
    let (kind_name, q) = ident_x(text, cs, m)?;
    let (options, r) = options_from_x(text, cs, q)?;
    let e = line_end_x(cs, r)?;
    Ok((SyntaxItem { name, bracket, kind_name, options }, e))
}

pub open spec fn items_view(v: Seq<SyntaxItem>) -> Seq<SItemV> {
    v.map_values(|i: SyntaxItem| i@)
}

fn body_x(text: &str, cs: &Vec<char>, i: usize) -> (r: Result<(Vec<SyntaxItem>, usize), usize>)
    requires
        cs@ == text@,
        i <= cs@.len(),
    ensures
        match body_at(cs@, i as nat) {
            Ok((v, p)) => r matches Ok((x, q)) && items_view(x@) == v && q == p && q <= cs@.len(),
            Err(p) => r matches Err(q) && q == p,
        },
    decreases cs@.len() - i,
{
    let j = skip_blank_x(cs, i);
    if char_at(cs, j, '}') {
        let v: Vec<SyntaxItem> = Vec::new();
        assert(items_view(v@) =~= Seq::<SItemV>::empty());
        Ok((v, j + 1))
    } else {
        let (it, k) = item_x(text, cs, j)?;
        if i < k && k <= cs.len() {
            let (mut rest, m) = body_x(text, cs, k)?;
            let ghost rv = items_view(rest@);
            let ghost iv = it@;
            rest.insert(0, it);
            assert(items_view(rest@) =~= seq![iv] + rv);
            Ok((rest, m))
        } else {
            Err(k)
        }
    }
}

fn struct_x(text: &str, cs: &Vec<char>, i: usize) -> (r: Result<(SyntaxStruct, usize), usize>)
    requires
        cs@ == text@,
        keyword_at(cs@, i as nat, "struct"@),
    ensures
        match struct_at(cs@, i as nat) {
            Ok((v, p)) => r matches Ok((x, q)) && x@ == v && q == p && q <= cs@.len(),
            Err(p) => r matches Err(q) && q == p,
        },
{
    proof {
        reveal_strlit("struct");
    }
    // Bounds the length of `cs` by the machine word, for the sums below.
    let _len = cs.len();
    let j = i + 6;
    if !space_at(cs, j) {
        return Err(j);
    }
    let (name, k) = ident_x(text, cs, skip_spaces_x(cs, j))?;
    let m = skip_inline_x(cs, k);
    let open = match newline_at_x(cs, m) {
        Some(q) => skip_blank_x(cs, q),
        None => m,
    };
    if !char_at(cs, open, '{') {
        return Err(open);
    }
    let p = line_end_x(cs, open + 1)?;
    let (items, e) = body_x(text, cs, p)?;
    let st = SyntaxStruct { name, items };
    assert(st@.items =~= items_view(st.items@));
    Ok((st, e))
}

fn option_lines_x(text: &str, cs: &Vec<char>, i: usize) -> (r: Result<
    (Vec<SyntaxOption>, usize),
    usize,
>)
    requires
        cs@ == text@,
        i <= cs@.len(),
    ensures
        match option_lines(cs@, i as nat) {
            Ok((v, p)) => r matches Ok((x, q)) && options_view(x) == v && q == p && q <= cs@.len(),
            Err(p) => r matches Err(q) && q == p,
        },
    decreases cs@.len() - i,
{
    let j = skip_blank_x(cs, i);
    if char_at(cs, j, '}') {
        let v: Vec<SyntaxOption> = Vec::new();
        assert(options_view(v) =~= Seq::<OptionV>::empty());
        Ok((v, j + 1))
    } else {
        let (o, k) = option_x(text, cs, j)?;
        let m = line_end_x(cs, k)?;
        if i < m && m <= cs.len() {
            let (mut rest, e) = option_lines_x(text, cs, m)?;
            let ghost rv = options_view(rest);
            rest.insert(0, o);
            assert(options_view(rest) =~= seq![o@] + rv);
            Ok((rest, e))
        } else {
            Err(m)
        }
    }
}

fn options_x(text: &str, cs: &Vec<char>, i: usize) -> (r: Result<(Vec<SyntaxOption>, usize), usize>)
    requires
        cs@ == text@,
        keyword_at(cs@, i as nat, "options"@),
    ensures
        match options_at(cs@, i as nat) {
            Ok((v, p)) => r matches Ok((x, q)) && options_view(x) == v && q == p && q <= cs@.len(),
            Err(p) => r matches Err(q) && q == p,
        },
{
    proof {
        reveal_strlit("options");
    }
    // Bounds the length of `cs` by the machine word, for the sums below.
    let _len = cs.len();
    let j = i + 7;
    let k = skip_spaces_x(cs, j);
    if char_at(cs, k, '{') {
        let p = line_end_x(cs, k + 1)?;
        option_lines_x(text, cs, p)
    } else if j < k {
        let (o, m) = option_x(text, cs, k)?;
        let (mut rest, q) = options_from_x(text, cs, m)?;
        let e = statement_end_x(cs, q)?;
        let ghost rv = options_view(rest);
        rest.insert(0, o);
        assert(options_view(rest) =~= seq![o@] + rv);
        Ok((rest, e))
    } else {
        Err(k)
    }
}

fn file_from_x(text: &str, cs: &Vec<char>, i: usize, options_allowed: bool) -> (r: Result<
    SyntaxFile,
    usize,
>)
    requires
        cs@ == text@,
        i <= cs@.len(),
    ensures
        match file_from(cs@, i as nat, options_allowed) {
            Ok(v) => r matches Ok(x) && x@ == v,
            Err(p) => r matches Err(q) && q == p,
        },
    decreases cs@.len() - i,
{
    let j = skip_blank_x(cs, i);
    if j >= cs.len() {
        let f = SyntaxFile { options: Vec::new(), structs: Vec::new() };
        assert(f@.options =~= Seq::<Seq<OptionV>>::empty());
        assert(f@.structs =~= Seq::<SStructV>::empty());
        Ok(f)
    } else if options_allowed && keyword_here(cs, j, "options") {
        let (os, k) = options_x(text, cs, j)?;
        if i < k && k <= cs.len() {
            let mut f = file_from_x(text, cs, k, false)?;
            let ghost fv = f@;
            let ghost ov = options_view(os);
            f.options.insert(0, os);
            assert(f@.options =~= seq![ov] + fv.options);
            assert(f@.structs =~= fv.structs);
            Ok(f)
        } else {
            Err(k)
        }
    } else if keyword_here(cs, j, "struct") {
        let (st, k) = struct_x(text, cs, j)?;
        if i < k && k <= cs.len() {
            let mut f = file_from_x(text, cs, k, false)?;
            let ghost fv = f@;
            let ghost sv = st@;
            f.structs.insert(0, st);
            assert(f@.structs =~= seq![sv] + fv.structs);
            assert(f@.options =~= fv.options);
            Ok(f)
        } else {
            Err(k)
        }
    } else {
        Err(j)
    }
}

/// Reads the parse tree of a schema text; a text that does not follow the
/// grammar gives the position at which it stops following it.
pub fn parse_tree(text: &str) -> (r: Result<SyntaxFile, SchemaError>)
    ensures
        match syntax_of(text@) {
            Ok(t) => r matches Ok(x) && x@ == t,
            Err(p) => r matches Err(e) && e@ == SchemaErrorV::Syntax(p),
        },
{
    let cs = chars_of(text);
    match file_from_x(text, &cs, 0, true) {
        Ok(f) => Ok(f),
        Err(p) => Err(SchemaError::Syntax(p)),
    }
}

/// The intermediate representation of a schema text, or its first error.
pub open spec fn schema_of(s: Seq<char>) -> Result<crate::types::FileV, SchemaErrorV> {
    match syntax_of(s) {
        Ok(t) => build(t),
        Err(p) => Err(SchemaErrorV::Syntax(p)),
    }
}

/// Reads a schema text into the intermediate representation: the grammar
/// first, then options, array counts and type names.
pub fn parse_file(text: &str) -> (r: Result<File, SchemaError>)
    ensures
        result_view(r) == schema_of(text@),
{
    let tree = parse_tree(text)?;
    build_file(&tree)
}


/// What `parse_file` accepts is well formed, and holds the definitions of
/// the text that have items: every struct has items and stands, in order,
/// for such a definition; every struct type names a struct of the file, so
/// a type naming no struct (or only one without items) is never accepted;
/// every array count names a single integer item above it; every `cstring`
/// stands in a constant-size array.
pub proof fn lemma_schema_well_formed(s: Seq<char>)
    requires
        schema_of(s) is Ok,
    ensures
        well_formed(schema_of(s)->Ok_0),
        schema_of(s)->Ok_0.structs.len() == kept_defs(
            syntax_of(s)->Ok_0.structs,
            syntax_of(s)->Ok_0.structs.len(),
        ).len(),
        forall|i: int|
            0 <= i < schema_of(s)->Ok_0.structs.len() ==> stands_for(
                #[trigger] schema_of(s)->Ok_0.structs[i],
                kept_defs(syntax_of(s)->Ok_0.structs, syntax_of(s)->Ok_0.structs.len())[i],
            ),
{
    let t = syntax_of(s)->Ok_0;
    lemma_build_well_formed(t);
    lemma_build_keeps_definitions(t);
}

} // verus!
