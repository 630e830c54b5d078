use nested_lists::parser::{parse, ParseError, Parser};
use nested_lists::text::serialize;
use nested_lists::value::Item;

fn same(a: &Item, b: &Item) -> bool {
    match (a, b) {
        (Item::Integer(x), Item::Integer(y)) => x == y,
        (Item::List(xs), Item::List(ys)) => {
            xs.len() == ys.len() && xs.iter().zip(ys.iter()).all(|(x, y)| same(x, y))
        }
        _ => false,
    }
}

fn num(n: u64) -> Item {
    Item::Integer(n)
}

fn list(items: Vec<Item>) -> Item {
    Item::List(items)
}

fn parsed(line: &str) -> Item {
    match parse(line.as_bytes()) {
        Ok(item) => item,
        Err(e) => panic!("{:?} was refused: {:?}", line, e),
    }
}

fn refused(line: &str) -> ParseError {
    match parse(line.as_bytes()) {
        Ok(item) => panic!("{:?} was accepted as {:?}", line, item),
        Err(e) => e,
    }
}

#[test]
fn parses_the_empty_list() {
    assert!(same(&parsed("[]"), &list(vec![])));
}

#[test]
fn parses_a_flat_list() {
    let expected = list(vec![num(1), num(1), num(3), num(1), num(1)]);
    assert!(same(&parsed("[1,1,3,1,1]"), &expected));
}

#[test]
fn parses_nested_lists() {
    let expected = list(vec![list(vec![num(1)]), list(vec![num(2), num(3), num(4)])]);
    assert!(same(&parsed("[[1],[2,3,4]]"), &expected));
}

#[test]
fn parses_deeply_nested_empty_lists() {
    let expected = list(vec![list(vec![list(vec![])])]);
    assert!(same(&parsed("[[[]]]"), &expected));
}

#[test]
fn parses_numbers_of_several_digits() {
    let expected = list(vec![num(10), num(0), num(907)]);
    assert!(same(&parsed("[10,0,907]"), &expected));
}

#[test]
fn keeps_the_order_of_mixed_items() {
    let expected = list(vec![num(1), list(vec![num(2), list(vec![num(3)])]), num(4)]);
    assert!(same(&parsed("[1,[2,[3]],4]"), &expected));
}

#[test]
fn parses_the_largest_number() {
    let expected = list(vec![num(u64::MAX)]);
    assert!(same(&parsed("[18446744073709551615]"), &expected));
}

#[test]
fn refuses_a_number_beyond_64_bits() {
    assert_eq!(refused("[18446744073709551616]"), ParseError::MalformedInput);
    assert_eq!(refused("[99999999999999999999999]"), ParseError::MalformedInput);
}

#[test]
fn reads_leading_zeros_as_part_of_the_number() {
    assert!(same(&parsed("[007]"), &list(vec![num(7)])));
}

#[test]
fn a_separator_without_a_number_adds_nothing() {
    assert!(same(&parsed("[1,]"), &list(vec![num(1)])));
    assert!(same(&parsed("[,]"), &list(vec![])));
}

#[test]
fn a_line_feed_is_read_as_a_separator() {
    assert!(same(&parsed("[1]\n"), &list(vec![num(1)])));
    assert!(same(&parsed("[1\n2]"), &list(vec![num(1), num(2)])));
}

#[test]
fn refuses_an_unmatched_closing_bracket() {
    assert_eq!(refused("[1,]]"), ParseError::MalformedInput);
    assert_eq!(refused("]"), ParseError::MalformedInput);
    assert_eq!(refused("[]]"), ParseError::MalformedInput);
}

#[test]
fn refuses_a_list_left_open() {
    assert_eq!(refused("["), ParseError::MalformedInput);
    assert_eq!(refused("[1"), ParseError::MalformedInput);
    assert_eq!(refused("[[1,2]"), ParseError::MalformedInput);
}

#[test]
fn refuses_a_line_without_a_list() {
    assert_eq!(refused(""), ParseError::MalformedInput);
    assert_eq!(refused(","), ParseError::MalformedInput);
}

#[test]
fn refuses_a_bare_integer() {
    assert_eq!(refused("5"), ParseError::MalformedInput);
    assert_eq!(refused("5,6"), ParseError::MalformedInput);
}

#[test]
fn refuses_digits_after_the_list() {
    assert_eq!(refused("[1]2"), ParseError::MalformedInput);
}

#[test]
fn refuses_a_byte_outside_the_alphabet() {
    assert_eq!(refused("[a]"), ParseError::MalformedInput);
    assert_eq!(refused("[1, 2]"), ParseError::MalformedInput);
    assert_eq!(refused("[-1]"), ParseError::MalformedInput);
    assert_eq!(refused("[1]\r"), ParseError::MalformedInput);
}

#[test]
fn refuses_digits_directly_before_an_opening_bracket() {
    assert_eq!(refused("[1[2]]"), ParseError::MalformedInput);
    assert_eq!(refused("1[2]"), ParseError::MalformedInput);
}

#[test]
fn refuses_a_second_top_level_list() {
    assert_eq!(refused("[1][2]"), ParseError::StructuralInvariantViolation);
    assert_eq!(refused("[],[]"), ParseError::StructuralInvariantViolation);
}

#[test]
fn the_first_error_of_the_scan_is_reported() {
    assert_eq!(refused("[]x[]"), ParseError::MalformedInput);
    assert_eq!(refused("[][x"), ParseError::StructuralInvariantViolation);
}

#[test]
fn the_text_of_a_parsed_line_is_the_line() {
    for line in ["[]", "[0]", "[1,1,3,1,1]", "[[1],[2,3,4]]", "[[4,4],4,4,4]", "[[[]]]",
        "[1,[2,[3,[4,[5,6,7]]]],8,9]", "[10,[],[[]],18446744073709551615]"]
    {
        assert_eq!(serialize(&parsed(line)), line.as_bytes().to_vec());
    }
}

#[test]
fn a_parsed_text_is_the_item() {
    let item = list(vec![num(12), list(vec![]), list(vec![num(0), list(vec![num(5)])])]);
    let text = serialize(&item);
    assert_eq!(text, b"[12,[],[0,[5]]]".to_vec());
    match parse(&text) {
        Ok(back) => assert!(same(&back, &item)),
        Err(e) => panic!("refused: {:?}", e),
    }
}

#[test]
fn serializes_integers_in_decimal() {
    assert_eq!(serialize(&num(0)), b"0".to_vec());
    assert_eq!(serialize(&num(7)), b"7".to_vec());
    assert_eq!(serialize(&num(10)), b"10".to_vec());
    assert_eq!(serialize(&num(1203)), b"1203".to_vec());
    assert_eq!(serialize(&num(u64::MAX)), b"18446744073709551615".to_vec());
}

#[test]
fn serializes_lists_with_commas_and_no_spaces() {
    assert_eq!(serialize(&list(vec![])), b"[]".to_vec());
    assert_eq!(serialize(&list(vec![num(4)])), b"[4]".to_vec());
    assert_eq!(serialize(&list(vec![list(vec![num(4), num(4)]), num(4), num(4)])),
        b"[[4,4],4,4]".to_vec());
}

#[test]
fn feeding_byte_by_byte_gives_the_same_list() {
    let mut parser = Parser::new();
    for byte in b"[3,[44]]" {
        assert_eq!(parser.feed(*byte), Ok(()));
    }
    match parser.finish() {
        Ok(item) => assert!(same(&item, &list(vec![num(3), list(vec![num(44)])]))),
        Err(e) => panic!("refused: {:?}", e),
    }
}

#[test]
fn a_refused_byte_leaves_the_parser_as_it_was() {
    let mut parser = Parser::new();
    for byte in b"[1,2" {
        assert_eq!(parser.feed(*byte), Ok(()));
    }
    assert_eq!(parser.feed(b'['), Err(ParseError::MalformedInput));
    assert_eq!(parser.feed(b'x'), Err(ParseError::MalformedInput));
    assert_eq!(parser.feed(b']'), Ok(()));
    match parser.finish() {
        Ok(item) => assert!(same(&item, &list(vec![num(1), num(2)]))),
        Err(e) => panic!("refused: {:?}", e),
    }
}

#[test]
fn finishing_a_fresh_parser_fails() {
    assert!(matches!(Parser::new().finish(), Err(ParseError::MalformedInput)));
}

#[test]
fn writing_appends_to_what_is_there() {
    let item = list(vec![num(1), list(vec![num(2), num(3)]), list(vec![])]);
    let mut out = b"x=".to_vec();
    nested_lists::text::write_item(&item, &mut out);
    assert_eq!(out, b"x=[1,[2,3],[]]".to_vec());
    nested_lists::text::write_list(&item, &mut out);
    assert_eq!(out, b"x=[1,[2,3],[]]1,[2,3],[]".to_vec());
}

#[test]
fn the_items_of_a_list_are_written_without_its_brackets() {
    let mut out = Vec::new();
    nested_lists::text::write_list(&list(vec![]), &mut out);
    assert_eq!(out, Vec::<u8>::new());
    nested_lists::text::write_list(&list(vec![num(40)]), &mut out);
    assert_eq!(out, b"40".to_vec());
    nested_lists::text::write_list(&list(vec![list(vec![]), num(0)]), &mut out);
    assert_eq!(out, b"40[],0".to_vec());
}
