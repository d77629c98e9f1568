use pstruct::parser::parse_file;

#[test]
fn it_works() {
    assert_eq!(2 + 2, 4);
}

#[test]
fn mod_parser_tests() {
    let test = "
struct player {
    hp u8
    sp i16
}";
    let res = parse_file(test);
    assert!(res.is_ok(), "simplest test");
}
