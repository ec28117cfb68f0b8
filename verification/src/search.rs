//! The chain search: depth first over the recipe set, with backtracking.
//!
//! A chain starts from a buffer of items. A recipe can be applied where the
//! buffer pays for all its inputs; applying it takes the inputs out and puts
//! the outputs in. The search tries the recipes in the order of the recipe
//! set and reports the first chain that ends in a recipe which the caller has
//! marked as profitable.
use crate::buffer::{
    add_outputs, consume_inputs, contains_text, gained, holds, initial_buffer, required,
    satisfiable, stock, triggerable,
};
use crate::chain::{
    lemma_chain_keeps_depth_limit, lemma_chain_stays_in_the_set, lemma_found_chain_is_valid,
};
use crate::recipe::{copy_texts, Ingredient, IngredientView, ProcessedRecipe, ProcessedRecipeView};
use vstd::multiset::*;
use vstd::prelude::*;

verus! {

/// One applied recipe of a chain.
pub struct HistoryEntry {
    /// Where the recipe stands in the recipe set.
    pub recipe_index: usize,
    pub recipe_id: String,
    pub recipe_category: String,
    /// The items of the recipe's input ingredients, in their order.
    pub ingredients: Vec<String>,
}

/// The mathematical value of a [`HistoryEntry`].
pub ghost struct HistoryEntryView {
    pub recipe_index: int,
    pub recipe_id: Seq<char>,
    pub recipe_category: Seq<char>,
    pub ingredients: Seq<Seq<char>>,
}

impl View for HistoryEntry {
    type V = HistoryEntryView;

    open spec fn view(&self) -> HistoryEntryView {
        HistoryEntryView {
            recipe_index: self.recipe_index as int,
            recipe_id: self.recipe_id@,
            recipe_category: self.recipe_category@,
            ingredients: self.ingredients.deep_view(),
        }
    }
}

impl DeepView for HistoryEntry {
    type V = HistoryEntryView;

    open spec fn deep_view(&self) -> HistoryEntryView {
        self@
    }
}

/// What a search runs on: the recipe set in its fixed order, the items that
/// have a value, for each recipe the caller's verdict whether its outputs are
/// worth strictly more than its inputs, and the greatest number of recipes in
/// a chain.
pub ghost struct SearchContext {
    pub recipes: Seq<ProcessedRecipeView>,
    pub priced: Seq<Seq<char>>,
    pub profitable: Seq<bool>,
    pub max_depth: nat,
}

impl SearchContext {
    /// Whether recipe `i` is profitable. A recipe without a verdict is not.
    pub open spec fn gains(self, i: int) -> bool {
        0 <= i < self.profitable.len() && self.profitable[i]
    }

    /// Whether recipe `i` can be applied to `held`: the buffer has one of its
    /// input items at all, and pays for every input ingredient.
    pub open spec fn applicable(self, held: Multiset<Seq<char>>, i: int) -> bool {
        &&& triggerable(held, self.recipes[i].inputs)
        &&& satisfiable(held, self.recipes[i].inputs)
    }

    /// The buffer once recipe `i` has been applied to `held`.
    pub open spec fn after(self, held: Multiset<Seq<char>>, i: int) -> Multiset<Seq<char>> {
        held.sub(required(self.recipes[i].inputs)).add(
            gained(self.recipes[i].outputs, self.priced),
        )
    }

    /// The record of applying recipe `i`.
    pub open spec fn step(self, i: int) -> HistoryEntryView {
        HistoryEntryView {
            recipe_index: i,
            recipe_id: self.recipes[i].recipe_id,
            recipe_category: self.recipes[i].category_title,
            ingredients: self.recipes[i].inputs.map_values(|g: IngredientView| g.ingredient_id),
        }
    }

    /// The records of a chain of recipes, given by their places in the set.
    pub open spec fn steps(self, chain: Seq<int>) -> Seq<HistoryEntryView> {
        chain.map_values(|i: int| self.step(i))
    }
}

/// The chain that the search finds from `held` at `depth`, with the recipes
/// named in `visited` already applied, when it tries the recipes from place
/// `from` on: the places of the applied recipes, or `None` where every
/// candidate is exhausted.
pub open spec fn first_chain(
    cx: SearchContext,
    held: Multiset<Seq<char>>,
    visited: Seq<Seq<char>>,
    depth: nat,
    from: nat,
) -> Option<Seq<int>>
    decreases cx.max_depth - depth, cx.recipes.len() - from,
{
    if depth >= cx.max_depth || from >= cx.recipes.len() {
        None
    } else if visited.contains(cx.recipes[from as int].recipe_id) || !cx.applicable(
        held,
        from as int,
    ) {
        first_chain(cx, held, visited, depth, from + 1)
    } else if cx.gains(from as int) {
        Some(seq![from as int])
    } else {
        match first_chain(
            cx,
            cx.after(held, from as int),
            visited.push(cx.recipes[from as int].recipe_id),
            depth + 1,
            0,
        ) {
            Some(rest) => Some(seq![from as int] + rest),
            None => first_chain(cx, held, visited, depth, from + 1),
        }
    }
}

/// What the search hands back from `held` at `depth`: `history` followed by
/// the records of the chain it finds, or `None` where it finds none.
pub open spec fn report(
    cx: SearchContext,
    held: Multiset<Seq<char>>,
    visited: Seq<Seq<char>>,
    depth: nat,
    history: Seq<HistoryEntryView>,
) -> Option<Seq<HistoryEntryView>> {
    match first_chain(cx, held, visited, depth, 0) {
        Some(chain) => Some(history + cx.steps(chain)),
        None => None,
    }
}

/// The context that the arguments of a search stand for.
pub open spec fn context_of(
    recipes: &[ProcessedRecipe],
    priced: &Vec<String>,
    profitable: &Vec<bool>,
    max_depth: usize,
) -> SearchContext {
    SearchContext {
        recipes: recipes.deep_view(),
        priced: priced.deep_view(),
        profitable: profitable@,
        max_depth: max_depth as nat,
    }
}

/// The greatest number of input ingredients of a recipe that a search is
/// started from.
pub const MAX_START_INPUTS: usize = 9;

/// Whether a search is started from `recipe`: it has no more input
/// ingredients than [`MAX_START_INPUTS`]. This bounds the cost of a run; it
/// says nothing about which recipes may stand in a chain.
pub fn is_eligible(recipe: &ProcessedRecipe) -> (eligible: bool)
    ensures
        eligible == (recipe@.inputs.len() <= MAX_START_INPUTS),
{
    recipe.inputs.len() <= MAX_START_INPUTS
}

/// Whether `buffer` has at least one copy of some item that `inputs` names.
pub fn is_triggerable(buffer: &Vec<String>, inputs: &Vec<Ingredient>) -> (found: bool)
    ensures
        found == triggerable(stock(buffer.deep_view()), inputs.deep_view()),
{
    let mut k: usize = 0;
    while k < inputs.len()
        invariant
            k <= inputs.len(),
            forall|i: int|
                0 <= i < k ==> stock(buffer.deep_view()).count(
                    (#[trigger] inputs.deep_view()[i]).ingredient_id,
                ) == 0,
        decreases inputs.len() - k,
    {
        if holds(buffer, &inputs[k].ingredient_id) {
            assert(inputs.deep_view()[k as int].ingredient_id == inputs[k as int].ingredient_id@);
            return true;
        }
        k += 1;
    }
    false
}

/// The items of `inputs`, in their order.
pub fn input_ids(inputs: &Vec<Ingredient>) -> (ids: Vec<String>)
    ensures
        ids.deep_view() == inputs.deep_view().map_values(|g: IngredientView| g.ingredient_id),
{
    let mut ids: Vec<String> = Vec::new();
    let mut k: usize = 0;
    while k < inputs.len()
        invariant
            k <= inputs.len(),
            ids.len() == k,
            forall|i: int| 0 <= i < k ==> ids[i]@ == (#[trigger] inputs[i]).ingredient_id@,
        decreases inputs.len() - k,
    {
        ids.push(inputs[k].ingredient_id.clone());
        k += 1;
    }
    assert(ids.deep_view() =~= inputs.deep_view().map_values(
        |g: IngredientView| g.ingredient_id,
    ));
    ids
}

impl HistoryEntry {
    /// A copy of this record.
    pub fn duplicate(&self) -> (out: HistoryEntry)
        ensures
            out@ == self@,
    {
        HistoryEntry {
            recipe_index: self.recipe_index,
            recipe_id: self.recipe_id.clone(),
            recipe_category: self.recipe_category.clone(),
            ingredients: copy_texts(&self.ingredients),
        }
    }
}

/// A copy of a list of records.
pub fn copy_history(history: &Vec<HistoryEntry>) -> (out: Vec<HistoryEntry>)
    ensures
        out.deep_view() == history.deep_view(),
{
    let mut out: Vec<HistoryEntry> = Vec::new();
    let mut k: usize = 0;
    while k < history.len()
        invariant
            k <= history.len(),
            out.len() == k,
            forall|i: int| 0 <= i < k ==> out[i]@ == history[i]@,
        decreases history.len() - k,
    {
        out.push(history[k].duplicate());
        k += 1;
    }
    assert(out.deep_view() =~= history.deep_view());
    out
}

/// Searches from `buffer` at `depth` for the first chain that ends in a
/// profitable recipe, trying the recipes in the order of `recipes` and leaving
/// out those named in `visited_recipes`. On success the result is `history`
/// followed by the records of the chain. Both stacks are handed back as they
/// came, whether a chain was found or not.
pub fn traverse_recipes(
    buffer: Vec<String>,
    visited_recipes: &mut Vec<String>,
    history: &mut Vec<HistoryEntry>,
    recipes: &[ProcessedRecipe],
    priced: &Vec<String>,
    profitable: &Vec<bool>,
    depth: usize,
    max_depth: usize,
) -> (found: Option<Vec<HistoryEntry>>)
    ensures
        final(visited_recipes)@ == old(visited_recipes)@,
        final(history)@ == old(history)@,
        found.deep_view() == report(
            context_of(recipes, priced, profitable, max_depth),
            stock(buffer.deep_view()),
            old(visited_recipes).deep_view(),
            depth as nat,
            old(history).deep_view(),
        ),
    decreases max_depth - depth,
{
    let ghost cx = context_of(recipes, priced, profitable, max_depth);
    let ghost held = stock(buffer.deep_view());
    let ghost visited = visited_recipes.deep_view();
    if depth >= max_depth {
        return None;
    }
    let mut i: usize = 0;
    while i < recipes.len()
        invariant
            i <= recipes.len(),
            depth < max_depth,
            cx == context_of(recipes, priced, profitable, max_depth),
            held == stock(buffer.deep_view()),
            visited == old(visited_recipes).deep_view(),
            visited_recipes@ == old(visited_recipes)@,
            history@ == old(history)@,
            first_chain(cx, held, visited, depth as nat, 0) == first_chain(
                cx,
                held,
                visited,
                depth as nat,
                i as nat,
            ),
        decreases recipes.len() - i,
    {
        let recipe = &recipes[i];
        assert(cx.recipes[i as int] == recipe@);
        if !contains_text(visited_recipes, &recipe.recipe_id) && is_triggerable(
            &buffer,
            &recipe.inputs,
        ) {
            if let Some(mut work) = consume_inputs(&buffer, &recipe.inputs) {
                add_outputs(&mut work, &recipe.outputs, priced);
                assert(stock(work.deep_view()) == cx.after(held, i as int));
                let entry = HistoryEntry {
                    recipe_index: i,
                    recipe_id: recipe.recipe_id.clone(),
                    recipe_category: recipe.category_title.clone(),
                    ingredients: input_ids(&recipe.inputs),
                };
                assert(entry@ == cx.step(i as int));
                history.push(entry);
                visited_recipes.push(recipe.recipe_id.clone());
                assert(history.deep_view() =~= old(history).deep_view().push(cx.step(i as int)));
                assert(visited_recipes.deep_view() =~= visited.push(recipe.recipe_id@));
                if i < profitable.len() && profitable[i] {
                    let chain = copy_history(history);
                    history.pop();
                    visited_recipes.pop();
                    assert(history@ =~= old(history)@);
                    assert(visited_recipes@ =~= old(visited_recipes)@);
                    assert(chain.deep_view() =~= old(history).deep_view() + cx.steps(
                        seq![i as int],
                    ));
                    return Some(chain);
                }
                if depth + 1 < max_depth {
                    let deeper = traverse_recipes(
                        work,
                        visited_recipes,
                        history,
                        recipes,
                        priced,
                        profitable,
                        depth + 1,
                        max_depth,
                    );
                    history.pop();
                    visited_recipes.pop();
                    assert(history@ =~= old(history)@);
                    assert(visited_recipes@ =~= old(visited_recipes)@);
                    if let Some(chain) = deeper {
                        proof {
                            let rest = first_chain(
                                cx,
                                cx.after(held, i as int),
                                visited.push(recipe.recipe_id@),
                                (depth + 1) as nat,
                                0,
                            ).unwrap();
                            assert(chain.deep_view() =~= old(history).deep_view() + cx.steps(
                                seq![i as int] + rest,
                            ));
                        }
                        return Some(chain);
                    }
                } else {
                    history.pop();
                    visited_recipes.pop();
                    assert(history@ =~= old(history)@);
                    assert(visited_recipes@ =~= old(visited_recipes)@);
                }
            }
        }
        i += 1;
    }
    None
}

/// Searches for the first profitable chain that starts from the inputs of
/// `recipe`: the buffer starts with what those inputs ask for, nothing is
/// visited yet, and at most `max_depth` recipes are applied.
pub fn explore_recipe(
    recipe: &ProcessedRecipe,
    recipes: &[ProcessedRecipe],
    priced: &Vec<String>,
    profitable: &Vec<bool>,
    max_depth: usize,
) -> (found: Option<Vec<HistoryEntry>>)
    ensures
        found.deep_view() == report(
            context_of(recipes, priced, profitable, max_depth),
            required(recipe@.inputs),
            Seq::empty(),
            0,
            Seq::empty(),
        ),
        found is Some ==> 1 <= found.unwrap().len() <= max_depth,
        found is Some ==> forall|k: int|
            0 <= k < found.unwrap().len() ==> (#[trigger] found.unwrap()[k]).recipe_index
                < recipes.len(),
{
    let buffer = initial_buffer(&recipe.inputs);
    let mut visited_recipes: Vec<String> = Vec::new();
    let mut history: Vec<HistoryEntry> = Vec::new();
    assert(visited_recipes.deep_view() =~= Seq::<Seq<char>>::empty());
    let found = traverse_recipes(
        buffer,
        &mut visited_recipes,
        &mut history,
        recipes,
        priced,
        profitable,
        0,
        max_depth,
    );
    proof {
        if found is Some {
            assert(history.deep_view() =~= Seq::<HistoryEntryView>::empty());
            let cx = context_of(recipes, priced, profitable, max_depth);
            let start = required(recipe@.inputs);
            let places = first_chain(cx, start, Seq::empty(), 0, 0).unwrap();
            assert(found.unwrap().deep_view() =~= cx.steps(places));
            lemma_found_chain_is_valid(cx, start, Seq::empty(), 0, 0);
            lemma_chain_keeps_depth_limit(cx, start, Seq::empty(), 0, places);
            lemma_chain_stays_in_the_set(cx, start, Seq::empty(), 0, places);
            assert forall|k: int| 0 <= k < found.unwrap().len() implies (#[trigger] found.unwrap()[
                k
            ]).recipe_index < recipes.len() by {
                assert(found.unwrap().deep_view()[k] == found.unwrap()[k]@);
                assert(cx.steps(places)[k].recipe_index == places[k]);
            }
        }
    }
    found
}

} // verus!
