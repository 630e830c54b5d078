use nested_lists::pairs::{load, serialize_problem, LoadError, Pair};
use nested_lists::parser::ParseError;
use nested_lists::text::serialize;
use nested_lists::value::Item;
use std::cmp::Ordering;

fn lines(text: &[&str]) -> Vec<Vec<u8>> {
    text.iter().map(|line| line.as_bytes().to_vec()).collect()
}

fn loaded(text: &[&str]) -> Vec<Pair> {
    match load(&lines(text)) {
        Ok(problem) => problem,
        Err(e) => panic!("refused: {:?}", e),
    }
}

fn refused(text: &[&str]) -> LoadError {
    match load(&lines(text)) {
        Ok(problem) => panic!("accepted: {:?}", problem),
        Err(e) => e,
    }
}

fn texts(problem: &[Pair]) -> Vec<(String, String)> {
    problem
        .iter()
        .map(|pair| {
            (
                String::from_utf8(serialize(&pair.left)).unwrap(),
                String::from_utf8(serialize(&pair.right)).unwrap(),
            )
        })
        .collect()
}

fn pair(left: &str, right: &str) -> (String, String) {
    (left.to_string(), right.to_string())
}

#[test]
fn no_lines_spell_no_pairs() {
    assert!(loaded(&[]).is_empty());
}

#[test]
fn lines_are_grouped_in_threes() {
    let problem = loaded(&["[1,1,3,1,1]", "[1,1,5,1,1]", "", "[[1],[2,3,4]]", "[[1],4]", "",
        "[9]", "[[8,7,6]]"]);
    assert_eq!(texts(&problem), vec![pair("[1,1,3,1,1]", "[1,1,5,1,1]"),
        pair("[[1],[2,3,4]]", "[[1],4]"), pair("[9]", "[[8,7,6]]")]);
}

#[test]
fn the_order_of_each_loaded_pair() {
    let problem = loaded(&["[1,1,3,1,1]", "[1,1,5,1,1]", "", "[[1],[2,3,4]]", "[[1],4]", "",
        "[9]", "[[8,7,6]]", "", "[[4,4],4,4]", "[[4,4],4,4,4]", ""]);
    let orders: Vec<Ordering> = problem.iter().map(|p| p.left.cmp(&p.right)).collect();
    assert_eq!(orders, vec![Ordering::Less, Ordering::Less, Ordering::Greater, Ordering::Less]);
}

#[test]
fn the_third_line_of_a_group_is_not_read() {
    let problem = loaded(&["[1]", "[2]", "not a list ]][[", "[3]", "[4]", "[5]"]);
    assert_eq!(texts(&problem), vec![pair("[1]", "[2]"), pair("[3]", "[4]")]);
}

#[test]
fn a_left_value_without_a_right_value_gets_the_empty_list() {
    let problem = loaded(&["[1]", "[2]", "", "[3]"]);
    assert_eq!(texts(&problem), vec![pair("[1]", "[2]"), pair("[3]", "[]")]);
    assert!(matches!(problem[1].right, Item::List(ref items) if items.is_empty()));
}

#[test]
fn the_first_refused_line_is_reported_by_its_number() {
    assert_eq!(refused(&["[1]", "[2", "", "x", "[4]"]),
        LoadError { line: 2, error: ParseError::MalformedInput });
    assert_eq!(refused(&["[1]", "[2]", "", "[3][3]", "]"]),
        LoadError { line: 4, error: ParseError::StructuralInvariantViolation });
    assert_eq!(refused(&[""]), LoadError { line: 1, error: ParseError::MalformedInput });
    assert_eq!(refused(&["[1]", "[2]", "", "[3]", ""]),
        LoadError { line: 5, error: ParseError::MalformedInput });
}

#[test]
fn a_refused_separator_line_is_no_error() {
    let problem = loaded(&["[1]", "[2]", "[1,]]"]);
    assert_eq!(texts(&problem), vec![pair("[1]", "[2]")]);
}

#[test]
fn the_text_of_a_problem() {
    let problem = loaded(&["[1,1,3,1,1]", "[1,1,5,1,1]", "", "[[1],[2,3,4]]", "[[1],4]"]);
    assert_eq!(serialize_problem(&problem),
        b"[1,1,3,1,1]\n[1,1,5,1,1]\n\n[[1],[2,3,4]]\n[[1],4]\n\n".to_vec());
    assert_eq!(serialize_problem(&Vec::new()), Vec::<u8>::new());
}

#[test]
fn the_text_of_a_problem_loads_as_the_problem() {
    let problem = loaded(&["[[]]", "[0,[1,[2]]]", "", "[10]", "[]", ""]);
    let text = String::from_utf8(serialize_problem(&problem)).unwrap();
    let again: Vec<&str> = text.split('\n').collect();
    assert_eq!(texts(&loaded(&again[..again.len() - 1])), texts(&problem));
}
