use emc_finder::buffer::{
    add_outputs, consume_inputs, contains_text, count_of, holds, initial_buffer, remove_copies,
};
use emc_finder::recipe::Ingredient;

fn texts(list: &[&str]) -> Vec<String> {
    list.iter().map(|s| s.to_string()).collect()
}

fn need(id: &str, amount: i32) -> Ingredient {
    Ingredient {
        role: "INPUT".to_string(),
        ingredient_type: "item".to_string(),
        ingredient_amount: amount,
        ingredient_id: id.to_string(),
        tags: Vec::new(),
        ingredient: String::new(),
    }
}

fn sorted(mut list: Vec<String>) -> Vec<String> {
    list.sort();
    list
}

#[test]
fn count_of_counts_every_copy() {
    let buffer = texts(&["a", "b", "a", "c", "a"]);
    assert_eq!(count_of(&buffer, &"a".to_string()), 3);
    assert_eq!(count_of(&buffer, &"b".to_string()), 1);
    assert_eq!(count_of(&buffer, &"z".to_string()), 0);
    assert_eq!(count_of(&Vec::new(), &"a".to_string()), 0);
}

#[test]
fn holds_and_contains_text_find_a_copy() {
    let buffer = texts(&["a", "b"]);
    assert!(holds(&buffer, &"b".to_string()));
    assert!(!holds(&buffer, &"B".to_string()));
    assert!(contains_text(&buffer, &"a".to_string()));
    assert!(!contains_text(&Vec::new(), &"a".to_string()));
}

#[test]
fn remove_copies_takes_the_first_copies_only() {
    let mut buffer = texts(&["a", "b", "a", "c", "a"]);
    remove_copies(&mut buffer, &"a".to_string(), 2);
    assert_eq!(buffer, texts(&["b", "c", "a"]));
    remove_copies(&mut buffer, &"c".to_string(), 0);
    assert_eq!(buffer, texts(&["b", "c", "a"]));
    remove_copies(&mut buffer, &"a".to_string(), 1);
    assert_eq!(buffer, texts(&["b", "c"]));
}

#[test]
fn consume_takes_exactly_what_is_asked() {
    let buffer = texts(&["a", "a", "a", "b", "c"]);
    let left = consume_inputs(&buffer, &vec![need("a", 2), need("b", 1)]).unwrap();
    assert_eq!(sorted(left), texts(&["a", "c"]));
    assert_eq!(buffer, texts(&["a", "a", "a", "b", "c"]));
}

#[test]
fn consume_adds_up_ingredients_of_one_item() {
    let buffer = texts(&["a", "a", "a"]);
    assert!(consume_inputs(&buffer, &vec![need("a", 2), need("a", 1)]).unwrap().is_empty());
    assert!(consume_inputs(&buffer, &vec![need("a", 2), need("a", 2)]).is_none());
}

#[test]
fn consume_fails_whole_when_one_ingredient_is_short() {
    let buffer = texts(&["a", "a", "b"]);
    assert!(consume_inputs(&buffer, &vec![need("a", 2), need("b", 2)]).is_none());
    assert!(consume_inputs(&buffer, &vec![need("z", 1)]).is_none());
    assert_eq!(buffer, texts(&["a", "a", "b"]));
}

#[test]
fn consume_of_nothing_keeps_everything() {
    let buffer = texts(&["a", "b"]);
    assert_eq!(consume_inputs(&buffer, &Vec::new()).unwrap(), buffer);
    assert_eq!(consume_inputs(&buffer, &vec![need("z", 0)]).unwrap(), buffer);
}

#[test]
fn consume_never_meets_an_amount_below_zero() {
    let buffer = texts(&["a", "b"]);
    assert!(consume_inputs(&buffer, &vec![need("a", -1)]).is_none());
    assert!(consume_inputs(&buffer, &vec![need("a", 1), need("b", i32::MIN)]).is_none());
}

#[test]
fn outputs_join_the_buffer_once_each_when_priced() {
    let mut buffer = texts(&["a"]);
    let priced = texts(&["x", "y"]);
    add_outputs(&mut buffer, &vec![need("x", 5), need("q", 1), need("y", 1), need("x", 1)], &priced);
    assert_eq!(buffer, texts(&["a", "x", "y", "x"]));
    add_outputs(&mut buffer, &vec![need("x", 1)], &Vec::new());
    assert_eq!(buffer, texts(&["a", "x", "y", "x"]));
}

#[test]
fn initial_buffer_holds_one_copy_per_unit() {
    let buffer = initial_buffer(&vec![need("a", 2), need("b", 1), need("a", 1), need("c", 0)]);
    assert_eq!(sorted(buffer), texts(&["a", "a", "a", "b"]));
    assert!(initial_buffer(&Vec::new()).is_empty());
    assert!(initial_buffer(&vec![need("a", -3)]).is_empty());
}

#[test]
fn consume_takes_the_first_copies_and_keeps_the_order() {
    let buffer = texts(&["x", "a", "b", "a", "y", "b", "a"]);
    let left = consume_inputs(&buffer, &vec![need("a", 2), need("b", 1)]).unwrap();
    assert_eq!(left, texts(&["x", "y", "b", "a"]));
    let left = consume_inputs(&buffer, &vec![need("b", 1), need("a", 1), need("b", 1)]).unwrap();
    assert_eq!(left, texts(&["x", "a", "y", "a"]));
}

#[test]
fn initial_buffer_lays_the_copies_out_in_order() {
    let buffer = initial_buffer(&vec![need("a", 2), need("b", 1), need("a", 1)]);
    assert_eq!(buffer, texts(&["a", "a", "b", "a"]));
}
