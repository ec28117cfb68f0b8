//! What the chain search finds, stated without the search: which chains
//! count, in which order they are tried, and what follows for every result.
use crate::search::{first_chain, report, HistoryEntryView, SearchContext};
use vstd::multiset::*;
use vstd::prelude::*;

verus! {

/// Whether `chain` is a chain that ends in a profit: from `held` at `depth`,
/// with the recipes named in `visited` already applied, each of its recipes
/// is in the set, is not yet visited and can be applied to the buffer that
/// the recipes before it leave; only the last one is profitable; and the
/// depth limit is kept.
pub open spec fn valid_chain(
    cx: SearchContext,
    held: Multiset<Seq<char>>,
    visited: Seq<Seq<char>>,
    depth: nat,
    chain: Seq<int>,
) -> bool
    decreases chain.len(),
{
    &&& chain.len() >= 1
    &&& depth < cx.max_depth
    &&& 0 <= chain[0] < cx.recipes.len()
    &&& !visited.contains(cx.recipes[chain[0]].recipe_id)
    &&& cx.applicable(held, chain[0])
    &&& if chain.len() == 1 {
        cx.gains(chain[0])
    } else {
        &&& !cx.gains(chain[0])
        &&& valid_chain(
            cx,
            cx.after(held, chain[0]),
            visited.push(cx.recipes[chain[0]].recipe_id),
            depth + 1,
            chain.drop_first(),
        )
    }
}

/// Whether the search comes to chain `a` no later than to chain `b`: at the
/// first place where they differ, `a` names the earlier recipe of the set; a
/// chain comes before each of its extensions.
pub open spec fn no_later(a: Seq<int>, b: Seq<int>) -> bool
    decreases a.len(),
{
    if a.len() == 0 {
        true
    } else if b.len() == 0 {
        false
    } else if a[0] != b[0] {
        a[0] < b[0]
    } else {
        no_later(a.drop_first(), b.drop_first())
    }
}

/// What the search reports is a chain that ends in a profit, and it begins
/// with a recipe from the place where the search began.
pub proof fn lemma_found_chain_is_valid(
    cx: SearchContext,
    held: Multiset<Seq<char>>,
    visited: Seq<Seq<char>>,
    depth: nat,
    from: nat,
)
    requires
        first_chain(cx, held, visited, depth, from) is Some,
    ensures
        valid_chain(cx, held, visited, depth, first_chain(cx, held, visited, depth, from).unwrap()),
        first_chain(cx, held, visited, depth, from).unwrap()[0] >= from,
    decreases cx.max_depth - depth, cx.recipes.len() - from,
{
    let i = from as int;
    let id = cx.recipes[i].recipe_id;
    if visited.contains(id) || !cx.applicable(held, i) {
        lemma_found_chain_is_valid(cx, held, visited, depth, from + 1);
    } else if cx.gains(i) {
    } else {
        let deeper = first_chain(cx, cx.after(held, i), visited.push(id), depth + 1, 0);
        if deeper is Some {
            lemma_found_chain_is_valid(cx, cx.after(held, i), visited.push(id), depth + 1, 0);
            let chain = seq![i] + deeper.unwrap();
            assert(chain.drop_first() =~= deeper.unwrap());
        } else {
            lemma_found_chain_is_valid(cx, held, visited, depth, from + 1);
        }
    }
}

/// Where any chain ends in a profit, the search reports one, and it comes to
/// the chain it reports no later than to any other.
pub proof fn lemma_found_chain_is_first(
    cx: SearchContext,
    held: Multiset<Seq<char>>,
    visited: Seq<Seq<char>>,
    depth: nat,
    from: nat,
    other: Seq<int>,
)
    requires
        valid_chain(cx, held, visited, depth, other),
        other[0] >= from,
    ensures
        first_chain(cx, held, visited, depth, from) is Some,
        no_later(first_chain(cx, held, visited, depth, from).unwrap(), other),
    decreases cx.max_depth - depth, cx.recipes.len() - from,
{
    let i = from as int;
    let id = cx.recipes[i].recipe_id;
    if visited.contains(id) || !cx.applicable(held, i) {
        lemma_found_chain_is_first(cx, held, visited, depth, from + 1, other);
    } else if cx.gains(i) {
        let chain = seq![i];
        assert(chain.drop_first().len() == 0);
        assert(no_later(chain.drop_first(), other.drop_first()));
    } else {
        let deeper = first_chain(cx, cx.after(held, i), visited.push(id), depth + 1, 0);
        if other[0] == i {
            let rest = other.drop_first();
            assert(valid_chain(cx, cx.after(held, i), visited.push(id), depth + 1, rest));
            assert(rest[0] >= 0);
            lemma_found_chain_is_first(cx, cx.after(held, i), visited.push(id), depth + 1, 0, rest);
            let chain = seq![i] + deeper.unwrap();
            assert(chain.drop_first() =~= deeper.unwrap());
        } else if deeper is Some {
            let chain = seq![i] + deeper.unwrap();
            assert(chain[0] == i);
        } else {
            lemma_found_chain_is_first(cx, held, visited, depth, from + 1, other);
        }
    }
}

/// Where the search reports nothing, no chain ends in a profit.
pub proof fn lemma_nothing_found_means_no_chain(
    cx: SearchContext,
    held: Multiset<Seq<char>>,
    visited: Seq<Seq<char>>,
    depth: nat,
    other: Seq<int>,
)
    requires
        first_chain(cx, held, visited, depth, 0) is None,
    ensures
        !valid_chain(cx, held, visited, depth, other),
{
    if valid_chain(cx, held, visited, depth, other) {
        lemma_found_chain_is_first(cx, held, visited, depth, 0, other);
    }
}

/// A chain that ends in a profit applies no more recipes than the depth
/// limit leaves room for. With a limit of one it has exactly one step.
pub proof fn lemma_chain_keeps_depth_limit(
    cx: SearchContext,
    held: Multiset<Seq<char>>,
    visited: Seq<Seq<char>>,
    depth: nat,
    chain: Seq<int>,
)
    requires
        valid_chain(cx, held, visited, depth, chain),
    ensures
        1 <= chain.len() <= cx.max_depth - depth,
    decreases chain.len(),
{
    if chain.len() > 1 {
        lemma_chain_keeps_depth_limit(
            cx,
            cx.after(held, chain[0]),
            visited.push(cx.recipes[chain[0]].recipe_id),
            depth + 1,
            chain.drop_first(),
        );
    }
}

/// Every place in a chain that ends in a profit is a place of the recipe set.
pub proof fn lemma_chain_stays_in_the_set(
    cx: SearchContext,
    held: Multiset<Seq<char>>,
    visited: Seq<Seq<char>>,
    depth: nat,
    chain: Seq<int>,
)
    requires
        valid_chain(cx, held, visited, depth, chain),
    ensures
        forall|k: int| 0 <= k < chain.len() ==> 0 <= #[trigger] chain[k] < cx.recipes.len(),
    decreases chain.len(),
{
    if chain.len() > 1 {
        let rest = chain.drop_first();
        lemma_chain_stays_in_the_set(
            cx,
            cx.after(held, chain[0]),
            visited.push(cx.recipes[chain[0]].recipe_id),
            depth + 1,
            rest,
        );
        assert forall|k: int| 0 <= k < chain.len() implies 0 <= #[trigger] chain[k]
            < cx.recipes.len() by {
            if k > 0 {
                assert(chain[k] == rest[k - 1]);
            }
        }
    }
}

/// No recipe is applied twice within a chain, and none that was visited
/// before the chain began: the identifiers of the chain's recipes differ from
/// each other and from every visited one.
pub proof fn lemma_chain_never_repeats(
    cx: SearchContext,
    held: Multiset<Seq<char>>,
    visited: Seq<Seq<char>>,
    depth: nat,
    chain: Seq<int>,
)
    requires
        valid_chain(cx, held, visited, depth, chain),
    ensures
        forall|a: int|
            0 <= a < chain.len() ==> !visited.contains(#[trigger] cx.recipes[chain[a]].recipe_id),
        forall|a: int, b: int|
            0 <= a < b < chain.len() ==> cx.recipes[chain[a]].recipe_id
                != cx.recipes[chain[b]].recipe_id,
    decreases chain.len(),
{
    if chain.len() > 1 {
        let id = cx.recipes[chain[0]].recipe_id;
        let rest = chain.drop_first();
        lemma_chain_never_repeats(cx, cx.after(held, chain[0]), visited.push(id), depth + 1, rest);
        assert forall|a: int| 0 <= a < chain.len() implies !visited.contains(
            #[trigger] cx.recipes[chain[a]].recipe_id,
        ) by {
            if a > 0 {
                let there = cx.recipes[rest[a - 1]].recipe_id;
                assert(!visited.push(id).contains(there));
                if visited.contains(there) {
                    let k = choose|k: int| 0 <= k < visited.len() && visited[k] == there;
                    assert(visited.push(id)[k] == there);
                }
            }
        }
        assert forall|a: int, b: int| 0 <= a < b < chain.len() implies cx.recipes[chain[a]].recipe_id
            != cx.recipes[chain[b]].recipe_id by {
            if a == 0 {
                let there = cx.recipes[rest[b - 1]].recipe_id;
                assert(!visited.push(id).contains(there));
                assert(visited.push(id)[visited.len() as int] == id);
            } else {
                assert(chain[a] == rest[a - 1] && chain[b] == rest[b - 1]);
            }
        }
    }
}

/// A recipe that is not visited, can be applied to the buffer and is
/// profitable is reported as a chain of one step, provided the search is
/// allowed a step at all and no recipe before it in the set is tried first.
pub proof fn lemma_profitable_recipe_is_one_step_chain(
    cx: SearchContext,
    held: Multiset<Seq<char>>,
    visited: Seq<Seq<char>>,
    depth: nat,
    i: int,
)
    requires
        depth < cx.max_depth,
        0 <= i < cx.recipes.len(),
        !visited.contains(cx.recipes[i].recipe_id),
        cx.applicable(held, i),
        cx.gains(i),
        forall|j: int|
            0 <= j < i ==> visited.contains(#[trigger] cx.recipes[j].recipe_id) || !cx.applicable(
                held,
                j,
            ),
    ensures
        first_chain(cx, held, visited, depth, 0) == Some(seq![i]),
{
    lemma_skips_to(cx, held, visited, depth, 0, i);
}

/// Recipes that are visited or cannot be applied are passed over.
proof fn lemma_skips_to(
    cx: SearchContext,
    held: Multiset<Seq<char>>,
    visited: Seq<Seq<char>>,
    depth: nat,
    from: nat,
    i: int,
)
    requires
        depth < cx.max_depth,
        from <= i < cx.recipes.len(),
        forall|j: int|
            from <= j < i ==> visited.contains(#[trigger] cx.recipes[j].recipe_id)
                || !cx.applicable(held, j),
    ensures
        first_chain(cx, held, visited, depth, from) == first_chain(
            cx,
            held,
            visited,
            depth,
            i as nat,
        ),
    decreases i - from,
{
    if from < i {
        assert(visited.contains(cx.recipes[from as int].recipe_id) || !cx.applicable(
            held,
            from as int,
        ));
        lemma_skips_to(cx, held, visited, depth, from + 1, i);
    }
}

/// Any recipe that is not visited, can be applied to the buffer and is
/// profitable makes the search succeed, with that recipe alone or with a
/// chain that it comes to earlier.
pub proof fn lemma_profitable_recipe_is_found(
    cx: SearchContext,
    held: Multiset<Seq<char>>,
    visited: Seq<Seq<char>>,
    depth: nat,
    i: int,
)
    requires
        depth < cx.max_depth,
        0 <= i < cx.recipes.len(),
        !visited.contains(cx.recipes[i].recipe_id),
        cx.applicable(held, i),
        cx.gains(i),
    ensures
        first_chain(cx, held, visited, depth, 0) is Some,
        no_later(first_chain(cx, held, visited, depth, 0).unwrap(), seq![i]),
{
    lemma_found_chain_is_first(cx, held, visited, depth, 0, seq![i]);
}

/// What the search hands back on success is the history it was given and,
/// behind it, at least one record and at most as many as the depth limit
/// leaves room for: with a limit of one, exactly one.
pub proof fn lemma_report_keeps_depth_limit(
    cx: SearchContext,
    held: Multiset<Seq<char>>,
    visited: Seq<Seq<char>>,
    depth: nat,
    history: Seq<HistoryEntryView>,
)
    requires
        report(cx, held, visited, depth, history) is Some,
    ensures
        history.len() + 1 <= report(cx, held, visited, depth, history).unwrap().len()
            <= history.len() + cx.max_depth - depth,
        history.is_prefix_of(report(cx, held, visited, depth, history).unwrap()),
{
    lemma_found_chain_is_valid(cx, held, visited, depth, 0);
    let chain = first_chain(cx, held, visited, depth, 0).unwrap();
    lemma_chain_keeps_depth_limit(cx, held, visited, depth, chain);
    assert((history + cx.steps(chain)).subrange(0, history.len() as int) =~= history);
}

/// In what the search hands back, the records behind the given history name
/// recipes that differ from each other and from every recipe visited before.
pub proof fn lemma_report_never_repeats(
    cx: SearchContext,
    held: Multiset<Seq<char>>,
    visited: Seq<Seq<char>>,
    depth: nat,
    history: Seq<HistoryEntryView>,
)
    requires
        report(cx, held, visited, depth, history) is Some,
    ensures
        forall|a: int|
            history.len() <= a < report(cx, held, visited, depth, history).unwrap().len()
                ==> !visited.contains(
                (#[trigger] report(cx, held, visited, depth, history).unwrap()[a]).recipe_id,
            ),
        forall|a: int, b: int|
            history.len() <= a < b < report(cx, held, visited, depth, history).unwrap().len()
                ==> (#[trigger] report(cx, held, visited, depth, history).unwrap()[a]).recipe_id
                != (#[trigger] report(cx, held, visited, depth, history).unwrap()[b]).recipe_id,
{
    lemma_found_chain_is_valid(cx, held, visited, depth, 0);
    let chain = first_chain(cx, held, visited, depth, 0).unwrap();
    lemma_chain_never_repeats(cx, held, visited, depth, chain);
    let found = report(cx, held, visited, depth, history).unwrap();
    let n = history.len() as int;
    assert forall|a: int| n <= a < found.len() implies (#[trigger] found[a]).recipe_id
        == cx.recipes[chain[a - n]].recipe_id by {
        assert(found[a] == cx.steps(chain)[a - n]);
    }
}

/// The search is a function of what it is given: two runs on the same
/// recipes, verdicts, buffer and stacks hand back the same.
pub proof fn lemma_search_is_deterministic(
    cx: SearchContext,
    held: Multiset<Seq<char>>,
    visited: Seq<Seq<char>>,
    depth: nat,
    history: Seq<HistoryEntryView>,
    first_run: Option<Seq<HistoryEntryView>>,
    second_run: Option<Seq<HistoryEntryView>>,
)
    requires
        first_run == report(cx, held, visited, depth, history),
        second_run == report(cx, held, visited, depth, history),
    ensures
        first_run == second_run,
{
}

} // verus!
