//! Recipe records and their normal form.
use vstd::prelude::*;

verus! {

/// One ingredient of a recipe: what is needed or made, and how much of it.
pub struct Ingredient {
    pub role: String,
    pub ingredient_type: String,
    pub ingredient_amount: i32,
    pub ingredient_id: String,
    pub tags: Vec<String>,
    pub ingredient: String,
}

/// The mathematical value of an [`Ingredient`].
pub ghost struct IngredientView {
    pub role: Seq<char>,
    pub ingredient_type: Seq<char>,
    pub ingredient_amount: int,
    pub ingredient_id: Seq<char>,
    pub tags: Seq<Seq<char>>,
    pub ingredient: Seq<char>,
}

impl View for Ingredient {
    type V = IngredientView;

    open spec fn view(&self) -> IngredientView {
        IngredientView {
            role: self.role@,
            ingredient_type: self.ingredient_type@,
            ingredient_amount: self.ingredient_amount as int,
            ingredient_id: self.ingredient_id@,
            tags: self.tags.deep_view(),
            ingredient: self.ingredient@,
        }
    }
}

impl DeepView for Ingredient {
    type V = IngredientView;

    open spec fn deep_view(&self) -> IngredientView {
        self@
    }
}

/// A raw recipe record: its ingredients stand in one list, each tagged by role.
pub struct Recipe {
    pub category: String,
    pub category_title: String,
    pub recipe_type_id: String,
    pub recipe_class: String,
    pub recipe_object: String,
    pub ingredients: Vec<Ingredient>,
}

/// The mathematical value of a [`Recipe`].
pub ghost struct RecipeView {
    pub category: Seq<char>,
    pub category_title: Seq<char>,
    pub recipe_type_id: Seq<char>,
    pub recipe_class: Seq<char>,
    pub recipe_object: Seq<char>,
    pub ingredients: Seq<IngredientView>,
}

impl View for Recipe {
    type V = RecipeView;

    open spec fn view(&self) -> RecipeView {
        RecipeView {
            category: self.category@,
            category_title: self.category_title@,
            recipe_type_id: self.recipe_type_id@,
            recipe_class: self.recipe_class@,
            recipe_object: self.recipe_object@,
            ingredients: self.ingredients.deep_view(),
        }
    }
}

impl DeepView for Recipe {
    type V = RecipeView;

    open spec fn deep_view(&self) -> RecipeView {
        self@
    }
}

/// A recipe in normal form: inputs and outputs in lists of their own.
pub struct ProcessedRecipe {
    pub recipe_id: String,
    pub category_title: String,
    pub inputs: Vec<Ingredient>,
    pub outputs: Vec<Ingredient>,
}

/// The mathematical value of a [`ProcessedRecipe`].
pub ghost struct ProcessedRecipeView {
    pub recipe_id: Seq<char>,
    pub category_title: Seq<char>,
    pub inputs: Seq<IngredientView>,
    pub outputs: Seq<IngredientView>,
}

impl View for ProcessedRecipe {
    type V = ProcessedRecipeView;

    open spec fn view(&self) -> ProcessedRecipeView {
        ProcessedRecipeView {
            recipe_id: self.recipe_id@,
            category_title: self.category_title@,
            inputs: self.inputs.deep_view(),
            outputs: self.outputs.deep_view(),
        }
    }
}

impl DeepView for ProcessedRecipe {
    type V = ProcessedRecipeView;

    open spec fn deep_view(&self) -> ProcessedRecipeView {
        self@
    }
}

/// The role that marks an ingredient as consumed.
pub open spec fn input_role() -> Seq<char> {
    "INPUT"@
}

/// The role that marks an ingredient as produced.
pub open spec fn output_role() -> Seq<char> {
    "OUTPUT"@
}

/// The ingredients of `all` that carry `role`, in the order they stand in.
pub open spec fn with_role(all: Seq<IngredientView>, role: Seq<char>) -> Seq<IngredientView> {
    all.filter(|g: IngredientView| g.role == role)
}

/// The normal form of one raw recipe: the identifier is the record's object
/// identifier, the label its category title, and the ingredients are parted by
/// role. An ingredient with any other role is in neither list.
pub open spec fn normal_form(raw: RecipeView) -> ProcessedRecipeView {
    ProcessedRecipeView {
        recipe_id: raw.recipe_object,
        category_title: raw.category_title,
        inputs: with_role(raw.ingredients, input_role()),
        outputs: with_role(raw.ingredients, output_role()),
    }
}

/// A copy of a list of texts.
pub fn copy_texts(texts: &Vec<String>) -> (out: Vec<String>)
    ensures
        out@ == texts@,
        out.deep_view() == texts.deep_view(),
{
    let mut out: Vec<String> = Vec::new();
    let mut i: usize = 0;
    while i < texts.len()
        invariant
            i <= texts.len(),
            out@ == texts@.take(i as int),
        decreases texts.len() - i,
    {
        out.push(texts[i].clone());
        i += 1;
    }
    assert(out@ == texts@);
    out
}

impl Ingredient {
    /// A copy of this ingredient.
    pub fn duplicate(&self) -> (out: Ingredient)
        ensures
            out@ == self@,
    {
        Ingredient {
            role: self.role.clone(),
            ingredient_type: self.ingredient_type.clone(),
            ingredient_amount: self.ingredient_amount,
            ingredient_id: self.ingredient_id.clone(),
            tags: copy_texts(&self.tags),
            ingredient: self.ingredient.clone(),
        }
    }
}

/// The ingredients of `all` whose role is `role`, copied in their order.
pub fn select_role(all: &Vec<Ingredient>, role: &String) -> (out: Vec<Ingredient>)
    ensures
        out.deep_view() == with_role(all.deep_view(), role@),
{
    let ghost keep = |g: IngredientView| g.role == role@;
    let mut out: Vec<Ingredient> = Vec::new();
    let mut i: usize = 0;
    proof {
        reveal(Seq::filter);
        assert(all.deep_view().take(0) =~= Seq::<IngredientView>::empty());
        assert(out.deep_view() =~= Seq::<IngredientView>::empty());
    }
    while i < all.len()
        invariant
            i <= all.len(),
            keep == |g: IngredientView| g.role == role@,
            out.deep_view() == all.deep_view().take(i as int).filter(keep),
        decreases all.len() - i,
    {
        let ghost before = out.deep_view();
        let ghost prefix = all.deep_view().take(i as int + 1);
        proof {
            reveal(Seq::filter);
            assert(prefix.drop_last() =~= all.deep_view().take(i as int));
            assert(prefix.last() == all[i as int]@);
        }
        if all[i].role == *role {
            let copy = all[i].duplicate();
            out.push(copy);
            assert(out.deep_view() =~= before.push(all[i as int]@));
        }
        i += 1;
    }
    assert(all.deep_view().take(all.len() as int) =~= all.deep_view());
    out
}

/// Brings raw recipes into normal form, one for one and in order.
pub fn process_recipes(recipes: &[Recipe]) -> (out: Vec<ProcessedRecipe>)
    ensures
        out.len() == recipes.len(),
        forall|i: int| 0 <= i < recipes.len() ==> #[trigger] out[i]@ == normal_form(recipes[i]@),
{
    let input = "INPUT".to_owned();
    let output = "OUTPUT".to_owned();
    let mut out: Vec<ProcessedRecipe> = Vec::new();
    let mut i: usize = 0;
    while i < recipes.len()
        invariant
            i <= recipes.len(),
            input@ == input_role(),
            output@ == output_role(),
            out.len() == i,
            forall|k: int| 0 <= k < i ==> #[trigger] out[k]@ == normal_form(recipes[k]@),
        decreases recipes.len() - i,
    {
        let raw = &recipes[i];
        let done = ProcessedRecipe {
            recipe_id: raw.recipe_object.clone(),
            category_title: raw.category_title.clone(),
            inputs: select_role(&raw.ingredients, &input),
            outputs: select_role(&raw.ingredients, &output),
        };
        out.push(done);
        i += 1;
    }
    out
}

} // verus!
