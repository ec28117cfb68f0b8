use emc_finder::recipe::{process_recipes, Ingredient, Recipe};

fn ingredient(role: &str, id: &str, amount: i32) -> Ingredient {
    Ingredient {
        role: role.to_string(),
        ingredient_type: "item".to_string(),
        ingredient_amount: amount,
        ingredient_id: id.to_string(),
        tags: vec!["tag:a".to_string(), "tag:b".to_string()],
        ingredient: format!("<{}>", id),
    }
}

fn raw(object: &str, title: &str, ingredients: Vec<Ingredient>) -> Recipe {
    Recipe {
        category: "minecraft:crafting".to_string(),
        category_title: title.to_string(),
        recipe_type_id: "type".to_string(),
        recipe_class: "class".to_string(),
        recipe_object: object.to_string(),
        ingredients,
    }
}

fn ids(list: &[Ingredient]) -> Vec<String> {
    list.iter().map(|g| g.ingredient_id.clone()).collect()
}

#[test]
fn normal_form_parts_ingredients_by_role() {
    let recipes = vec![raw(
        "obj@1",
        "Crafting",
        vec![
            ingredient("INPUT", "planks", 4),
            ingredient("OUTPUT", "table", 1),
            ingredient("INPUT", "stick", 2),
            ingredient("OUTPUT", "dust", 3),
        ],
    )];
    let done = process_recipes(&recipes);
    assert_eq!(done.len(), 1);
    assert_eq!(ids(&done[0].inputs), vec!["planks", "stick"]);
    assert_eq!(ids(&done[0].outputs), vec!["table", "dust"]);
    assert_eq!(done[0].inputs[0].ingredient_amount, 4);
    assert_eq!(done[0].inputs[1].ingredient_amount, 2);
    assert_eq!(done[0].outputs[1].ingredient_amount, 3);
}

#[test]
fn normal_form_takes_identifier_from_object_and_label_from_title() {
    let recipes = vec![raw("obj@7", "Smelting", vec![ingredient("INPUT", "ore", 1)])];
    let done = process_recipes(&recipes);
    assert_eq!(done[0].recipe_id, "obj@7");
    assert_eq!(done[0].category_title, "Smelting");
}

#[test]
fn normal_form_copies_every_field_of_an_ingredient() {
    let recipes = vec![raw("o", "t", vec![ingredient("OUTPUT", "gem", 5)])];
    let done = process_recipes(&recipes);
    let made = &done[0].outputs[0];
    assert_eq!(made.role, "OUTPUT");
    assert_eq!(made.ingredient_type, "item");
    assert_eq!(made.ingredient_amount, 5);
    assert_eq!(made.ingredient_id, "gem");
    assert_eq!(made.tags, vec!["tag:a".to_string(), "tag:b".to_string()]);
    assert_eq!(made.ingredient, "<gem>");
}

#[test]
fn normal_form_leaves_out_other_roles() {
    let recipes = vec![raw(
        "o",
        "t",
        vec![
            ingredient("CATALYST", "furnace", 1),
            ingredient("input", "lower", 1),
            ingredient("INPUT", "coal", 1),
            ingredient("OUTPUT ", "spaced", 1),
        ],
    )];
    let done = process_recipes(&recipes);
    assert_eq!(ids(&done[0].inputs), vec!["coal"]);
    assert!(done[0].outputs.is_empty());
}

#[test]
fn normal_form_keeps_recipes_without_inputs_or_outputs() {
    let recipes = vec![
        raw("none", "t", vec![]),
        raw("only_out", "t", vec![ingredient("OUTPUT", "x", 1)]),
        raw("only_in", "t", vec![ingredient("INPUT", "y", 1)]),
    ];
    let done = process_recipes(&recipes);
    assert_eq!(done.len(), 3);
    assert!(done[0].inputs.is_empty() && done[0].outputs.is_empty());
    assert!(done[1].inputs.is_empty());
    assert_eq!(ids(&done[1].outputs), vec!["x"]);
    assert_eq!(ids(&done[2].inputs), vec!["y"]);
    assert!(done[2].outputs.is_empty());
}

#[test]
fn normal_form_keeps_the_order_of_the_recipes() {
    let recipes = vec![raw("a", "1", vec![]), raw("b", "2", vec![]), raw("c", "3", vec![])];
    let done = process_recipes(&recipes);
    let names: Vec<&str> = done.iter().map(|r| r.recipe_id.as_str()).collect();
    assert_eq!(names, vec!["a", "b", "c"]);
    assert!(process_recipes(&[]).is_empty());
}
