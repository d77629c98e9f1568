use pstruct::parser::{parse_file, parse_tree};
use pstruct::syntax::{Bracket, SyntaxFile, SyntaxItem, SyntaxOption, SyntaxStruct};
use pstruct::types::{Array, Endian, Type};
use pstruct::validate::{build_file, SchemaError};

#[test]
fn parser_parser_tests() {
    let test = "
struct player {
    hp u8
    sp i16
}";
    let res = parse_tree(test);
    assert!(res.is_ok(), "simplest test");
    let res = parse_file(test);
    assert!(res.is_ok(), "simplest test");

    let test = "
struct player {
    hp [10]u8
    sp []i16
}";
    let res = parse_tree(test);
    assert!(res.is_ok(), "array test");
    let res = parse_file(test);
    assert!(res.is_ok(), "array test");

    let test = "
struct player {
    hp u8[10]
    sp []i16
}";
    let res = parse_tree(test);
    assert!(res.is_err(), "wrong position of brackets");
    let res = parse_file(test);
    assert!(res.is_err(), "wrong position of brackets");

    let test = "
struct player {
    hp [5]byte
    sp []i16[]
}";
    let res = parse_tree(test);
    assert!(res.is_err(), "wrong position of empty brackets");
    let res = parse_file(test);
    assert!(res.is_err(), "wrong position of empty brackets");

    let test = "
structplayer{
    hp u8
    sp i16
}";
    let res = parse_tree(test);
    assert!(res.is_err(), "no spaces in name");
    let res = parse_file(test);
    assert!(res.is_err(), "no spaces in name");

    let test = "
struct player {
    hp u8sp i16
}";
    let res = parse_tree(test);
    assert!(res.is_err(), "no space between items");
    let res = parse_file(test);
    assert!(res.is_err(), "no space between items");

    let test = "
struct player {
    hpu8 spi16
}";
    let res = parse_tree(test);
    assert!(res.is_ok(), "no space between type and name - becomes single item, valid grammar");
    let res = parse_file(test);
    assert!(res.is_err(), "no space between type and name - becomes single item, invalid type");

    let test = "
struct player {
    hp u8
    sp i16
}
struct ship {
    ang [3]
    u8spd string
}";
    let res = parse_tree(test);
    assert!(res.is_err(), "no space between items on second definition");
    let res = parse_file(test);
    assert!(res.is_err(), "no space between items on second definition");

    let test = "
struct player {
    hp []u8
    sp [hp]i16
}
struct ship {
    ang [3]u8
    spd string
}";
    let res = parse_tree(test);
    assert!(res.is_ok(), "variable as array size");
    let res = parse_file(test);
    assert!(res.is_err(), "variable as array size: the count hp is an array, not an integer");

    let test = "
struct player {
    hp []u8
    sp [asdf]i16
}

struct ship {
    ang [3]u8
    spd string
}";
    let res = parse_tree(test);
    assert!(res.is_ok(), "invalid variable as array size");
    let res = parse_file(test);
    assert!(res.is_err(), "invalid variable as array size");

    let test = "
struct player {
    hp []u8
    sp []adf
}

struct ship {
    ang [3]u8
    spd string
}";
    let res = parse_tree(test);
    assert!(res.is_ok(), "invalid type");
    let res = parse_file(test);
    assert!(res.is_err(), "invalid type");

    let test = "struct player {  hp []u8   sp []u16  }";
    let res = parse_tree(test);
    assert!(res.is_err(), "needs line endings");
    let res = parse_file(test);
    assert!(res.is_err(), "needs line endings");

    let test = "struct player {  hp []u8
sp []u16  }";
    let res = parse_tree(test);
    assert!(res.is_err(), "needs line endings on both ends");
    let res = parse_file(test);
    assert!(res.is_err(), "needs line endings on both ends");

    let test = "struct player {  hp []u8
sp []u16
}";
    let res = parse_tree(test);
    assert!(res.is_err(), "needs line endings at beginning of struct");
    let res = parse_file(test);
    assert!(res.is_err(), "needs line endings at beginning of struct");

    let test = "struct player {
hp []u8
sp []u16 }";
    let res = parse_tree(test);
    assert!(res.is_err(), "needs line endings at end of struct");
    let res = parse_file(test);
    assert!(res.is_err(), "needs line endings at end of struct");

    let test = "struct player {
    hp
 []u8
    sp
[]u16
}";
    let res = parse_tree(test);
    assert!(res.is_err(), "no line endings in middle of items");
    let res = parse_file(test);
    assert!(res.is_err(), "no line endings in middle of items");

    let test = "
struct
player {
    hp []u8
    sp []u16
}";
    let res = parse_tree(test);
    assert!(res.is_err(), "no line ending in struct name");
    let res = parse_file(test);
    assert!(res.is_err(), "no line ending in struct name");

    let test = "
struct   player
{
    hp []u8
    sp []u16
}";
    let res = parse_tree(test);
    assert!(res.is_ok(), "line ending after name is ok, also spaces between struct and name");
    let res = parse_file(test);
    assert!(res.is_ok(), "line ending after name is ok, also spaces between struct and name");

    let test = "
/* hey look */ struct player // comments
{  // work fine
    hp []u8 /* real cool! */
/* multi
line
*/ sp []u16 // all the way to the end of the line
/* wow */} // amazing
";
    let res = parse_tree(test);
    assert!(res.is_ok(), "comments, wow");
    let res = parse_file(test);
    assert!(res.is_ok(), "comments, wow");

    let test = "
struct /* can't comment everywhere though */ player
{
    hp /* here doesn't work either */ []u8
    sp []u16
}";
    let res = parse_tree(test);
    assert!(res.is_err(), "no comments between struct and name");
    let res = parse_file(test);
    assert!(res.is_err(), "no comments between struct and name");

    let test = "
struct player
{
    hp []u8 /* multi line comments
can eat your newlines */  sp []u16
}";
    let res = parse_tree(test);
    assert!(res.is_err(), "newline removed by multiline comment");
    let res = parse_file(test);
    assert!(res.is_err(), "newline removed by multiline comment");

    let test = "
struct player
{
    hpCount u64
    hp [hpCount]u8
    sp [spCount]u16
    spCount i32
}";
    let res = parse_tree(test);
    assert!(res.is_ok(), "can't put count after array");
    let res = parse_file(test);
    assert!(res.is_err(), "can't put count after array");

    let test = "
struct player
{
    hpCount u64
    hp [hpCount]u8  array_size_type:u8
    sp []u16
}";
    let res = parse_tree(test);
    assert!(res.is_ok(), "can't declare array size twice");
    let res = parse_file(test);
    assert!(res.is_err(), "can't declare array size twice");

    let test = "
struct   player
{
    hp u8  endian:big
    sp u16  endian:little
}";
    let res = parse_tree(test);
    assert!(res.is_ok(), "inline options with :");
    let res = parse_file(test);
    assert!(res.is_ok(), "inline options with :");

    let test = "
struct   player
{
    hp u8  endian big
    sp u16  endian little
}";
    let res = parse_tree(test);
    assert!(res.is_ok(), "inline options with space");
    let res = parse_file(test);
    assert!(res.is_ok(), "inline options with space");

    let test = "
struct   player
{
    hp u8  endian big endian:little
    sp u16
}";
    let res = parse_tree(test);
    assert!(res.is_ok(), "mixed inline options");
    let res = parse_file(test);
    assert!(res.is_ok(), "mixed inline options");

    let test = "
options scope test endian:big
struct   player
{
    hp u8
    sp u16 endian little
}";
    let res = parse_tree(test);
    assert!(res.is_ok(), "inline file options");
    let res = parse_file(test);
    assert!(res.is_ok(), "inline file options");

    let test = "
options {
    scope test
    endian:big
}
struct   player
{
    hp u8
    sp u16 endian little
}";
    let res = parse_tree(test);
    assert!(res.is_ok(), "multiline file options");
    let res = parse_file(test);
    assert!(res.is_ok(), "multiline file options");

    let test = "
options {
    scope test  endian:big
}
struct   player
{
    hp u8
    sp u16 endian little
}";
    let res = parse_tree(test);
    assert!(res.is_err(), "cannot use inline file options in block");
    let res = parse_file(test);
    assert!(res.is_err(), "cannot use inline file options in block");

    let test = "
options {
    scope test
    endian:big
}
options scope test endian:big
struct   player
{
    hp u8
    sp u16 endian little
}";
    let res = parse_tree(test);
    assert!(res.is_err(), "only one file option block");
    let res = parse_file(test);
    assert!(res.is_err(), "only one file option block");

    let test = "
struct cstringtest {
  s1 cstring
  s2 []cstring
  s3 [5]cstring
}";
    let res = parse_tree(test);
    assert!(res.is_ok(), "all kinds of cstrings supported");
    let res = parse_file(test);
    assert!(res.is_err(), "a cstring needs a constant-size array");
}

#[test]
fn undefined_type_is_reported() {
    let test = "
struct player {
    pos ghost
}
";
    match parse_file(test) {
        Err(SchemaError::UndefinedType(s, t)) => {
            assert_eq!(s, "player");
            assert_eq!(t, "ghost");
        }
        other => panic!("expected an undefined type, got {:?}", other),
    }
}

#[test]
fn forward_variable_reference_is_reported() {
    let test = "
struct player {
    sp [hp]i16
    hp u8
}
";
    match parse_file(test) {
        Err(SchemaError::UndefinedVariable(v)) => assert_eq!(v, "hp"),
        other => panic!("expected an undefined variable, got {:?}", other),
    }
}

#[test]
fn count_from_another_struct_is_not_visible() {
    let test = "
struct a {
    n u8
}
struct b {
    xs [n]u8
}
";
    assert!(matches!(parse_file(test), Err(SchemaError::UndefinedVariable(_))));
}

#[test]
fn count_type_with_named_count_conflicts() {
    let test = "
struct player {
    hpCount u8
    hp [hpCount]u8 array_size_type:u8
}
";
    match parse_file(test) {
        Err(SchemaError::ConflictingArraySizeDeclaration(n)) => assert_eq!(n, "hp"),
        other => panic!("expected a conflict, got {:?}", other),
    }
}

#[test]
fn count_type_with_constant_count_conflicts() {
    let test = "
struct player {
    hp [4]u8 array_size_type:u8
}
";
    assert!(matches!(parse_file(test), Err(SchemaError::ConflictingArraySizeDeclaration(_))));
}

#[test]
fn count_type_must_be_an_integer() {
    let test = "
struct player {
    hp []u8 array_size_type:string
}
";
    match parse_file(test) {
        Err(SchemaError::InvalidArraySizeType(t)) => assert_eq!(t, "string"),
        other => panic!("expected an invalid count type, got {:?}", other),
    }
    let test = "
struct player {
    hp []u8 array_size_type:f32
}
";
    assert!(matches!(parse_file(test), Err(SchemaError::InvalidArraySizeType(_))));
}

#[test]
fn unknown_options_are_reported() {
    let test = "
struct player {
    hp u8 colour:red
}
";
    match parse_file(test) {
        Err(SchemaError::UnknownOption(k)) => assert_eq!(k, "colour"),
        other => panic!("expected an unknown option, got {:?}", other),
    }
    let test = "options verbose yes
struct player {
    hp u8
}
";
    assert!(matches!(parse_file(test), Err(SchemaError::UnknownOption(_))));
}

#[test]
fn unknown_byte_order_is_reported() {
    let test = "
struct player {
    hp u16 endian:middle
}
";
    match parse_file(test) {
        Err(SchemaError::InvalidOptionValue(v)) => assert_eq!(v, "middle"),
        other => panic!("expected an invalid option value, got {:?}", other),
    }
}

#[test]
fn syntax_error_gives_position() {
    let test = "struct player {  hp u8\n}";
    match parse_file(test) {
        Err(SchemaError::Syntax(p)) => assert_eq!(p, 17),
        other => panic!("expected a syntax error, got {:?}", other),
    }
}

#[test]
fn empty_struct_is_dropped() {
    let test = "
struct nothing {
}
struct player {
    hp u8
}
";
    let file = parse_file(test).unwrap();
    assert_eq!(file.structs.len(), 1);
    assert_eq!(file.structs[0].name, "player");
}

#[test]
fn reference_to_empty_struct_is_undefined() {
    let test = "
struct nothing {
}
struct player {
    n nothing
}
";
    assert!(matches!(parse_file(test), Err(SchemaError::UndefinedType(_, _))));
}

#[test]
fn options_and_defaults_are_resolved() {
    let test = "
options scope game endian:big
struct player {
    hp u16
    sp u16 endian little
    xs []u8
    ys []u8 array_size_type:u16
    zs [3]i32
    ws [hp]u8
    pos point
}
struct point {
    x f32
}
";
    let file = parse_file(test).unwrap();
    assert_eq!(file.scope, "game");
    let items = &file.structs[0].items;
    assert!(matches!(items[0].byte_order, Endian::Big));
    assert!(matches!(items[1].byte_order, Endian::Little));
    assert!(matches!(items[2].array, Some(Array::Unknown(Type::I32))));
    assert!(matches!(items[3].array, Some(Array::Unknown(Type::U16))));
    assert!(matches!(items[4].array, Some(Array::Constant(3))));
    assert!(matches!(items[4].kind, Type::I32));
    match &items[5].array {
        Some(Array::Variable(n, Type::U16)) => assert_eq!(n, "hp"),
        other => panic!("expected a named count, got {:?}", other),
    }
    match &items[6].kind {
        Type::User(n) => assert_eq!(n, "point"),
        other => panic!("expected a struct type, got {:?}", other),
    }
    assert!(matches!(file.structs[1].items[0].kind, Type::F32));
}

#[test]
fn default_scope_and_order() {
    let file = parse_file("struct p {\n  a u8\n}\n").unwrap();
    assert_eq!(file.scope, "main");
    assert!(matches!(file.structs[0].items[0].byte_order, Endian::Little));
}

#[test]
fn tree_holds_what_the_text_says() {
    let t = parse_tree("options scope x\nstruct p {\n  a [n]b c:d\n}\n").unwrap();
    assert_eq!(t.options.len(), 1);
    assert_eq!(t.options[0][0].key, "scope");
    assert_eq!(t.options[0][0].value, "x");
    let item = &t.structs[0].items[0];
    assert_eq!(item.name, "a");
    assert_eq!(item.kind_name, "b");
    match &item.bracket {
        Some(Bracket::Name(n)) => assert_eq!(n, "n"),
        other => panic!("expected a named count, got {:?}", other),
    }
    assert_eq!(item.options[0].key, "c");
    assert_eq!(item.options[0].value, "d");
}

#[test]
fn duplicate_options_in_a_tree() {
    let opt = || SyntaxOption { key: "scope".to_string(), value: "x".to_string() };
    let tree = SyntaxFile {
        options: vec![vec![opt()], vec![opt()]],
        structs: vec![SyntaxStruct {
            name: "p".to_string(),
            items: vec![SyntaxItem {
                name: "a".to_string(),
                bracket: None,
                kind_name: "u8".to_string(),
                options: vec![],
            }],
        }],
    };
    assert!(matches!(build_file(&tree), Err(SchemaError::DuplicateOptions)));
}

#[test]
fn variable_count_from_an_integer() {
    let test = "
struct player {
    hp u8
    sp [hp]i16
}
struct ship {
    ang [3]u8
    spd string
}";
    assert!(parse_file(test).is_ok());
}

#[test]
fn count_field_must_be_an_integer() {
    let test = "
struct p {
    s string
    xs [s]u8
}
";
    match parse_file(test) {
        Err(SchemaError::CountNotInteger(c)) => assert_eq!(c, "s"),
        other => panic!("expected a count that is not an integer, got {:?}", other),
    }
    let test = "
struct p {
    ns []u8
    xs [ns]u8
}
";
    assert!(matches!(parse_file(test), Err(SchemaError::CountNotInteger(_))));
}

#[test]
fn cstring_needs_constant_size() {
    for (text, name) in [
        ("struct p {\n  s1 cstring\n}\n", "s1"),
        ("struct p {\n  s2 []cstring\n}\n", "s2"),
        ("struct p {\n  n u8\n  s3 [n]cstring\n}\n", "s3"),
    ] {
        match parse_file(text) {
            Err(SchemaError::CStringWithoutCapacity(n)) => assert_eq!(n, name),
            other => panic!("expected a cstring without capacity, got {:?}", other),
        }
    }
    let file = parse_file("struct p {\n  s [5]cstring\n}\n").unwrap();
    assert!(matches!(file.structs[0].items[0].array, Some(Array::Constant(5))));
}
