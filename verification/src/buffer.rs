//! The search buffer: the items held at one point of a chain.
//!
//! A buffer is a list of item identifiers in which an item may stand many
//! times. Each operation says which list it leaves. To the search only the
//! number of copies of each item matters, so each also says what that means
//! for the multiset of the identifiers.
use crate::recipe::{copy_texts, Ingredient, IngredientView};
use vstd::multiset::*;
use vstd::prelude::*;
use vstd::seq_lib::*;

verus! {

/// What a buffer holds: each identifier as often as it stands in the list.
pub open spec fn stock(buffer: Seq<Seq<char>>) -> Multiset<Seq<char>> {
    buffer.to_multiset()
}

/// `n` copies of `id` and nothing else; nothing at all where `n` is not positive.
pub open spec fn copies(id: Seq<char>, n: int) -> Multiset<Seq<char>> {
    Multiset::empty().update(
        id,
        if n > 0 {
            n as nat
        } else {
            0
        },
    )
}

/// `s` without the first `n` copies of `id`; everything else stays where it
/// stands. Where `s` has fewer copies, all of them leave.
pub open spec fn without_first(s: Seq<Seq<char>>, id: Seq<char>, n: int) -> Seq<Seq<char>>
    decreases s.len(),
{
    if n <= 0 || s.len() == 0 {
        s
    } else if s[0] == id {
        without_first(s.drop_first(), id, n - 1)
    } else {
        seq![s[0]] + without_first(s.drop_first(), id, n)
    }
}

/// `n` copies of `id` in a row; none where `n` is not positive.
pub open spec fn repeated(id: Seq<char>, n: int) -> Seq<Seq<char>> {
    Seq::new(
        if n > 0 {
            n as nat
        } else {
            0
        },
        |i: int| id,
    )
}

/// How often `id` stands in `copies(of, n)`.
pub proof fn lemma_copies_count(of: Seq<char>, n: int, id: Seq<char>)
    ensures
        copies(of, n).count(id) == if id == of && n > 0 {
            n
        } else {
            0
        },
{
    broadcast use {group_multiset_axioms, group_multiset_properties};

}

/// How often `id` stands in `buffer`.
pub fn count_of(buffer: &Vec<String>, id: &String) -> (n: usize)
    ensures
        n == stock(buffer.deep_view()).count(id@),
{
    broadcast use group_multiset_axioms;

    let mut n: usize = 0;
    let mut i: usize = 0;
    proof {
        to_multiset_len(buffer.deep_view().take(0));
    }
    while i < buffer.len()
        invariant
            i <= buffer.len(),
            n <= i,
            n == stock(buffer.deep_view().take(i as int)).count(id@),
        decreases buffer.len() - i,
    {
        proof {
            let seen = buffer.deep_view().take(i as int);
            assert(buffer.deep_view().take(i as int + 1) =~= seen.push(buffer[i as int]@));
            to_multiset_build(seen, buffer[i as int]@);
        }
        if buffer[i] == *id {
            n += 1;
        }
        i += 1;
    }
    assert(buffer.deep_view().take(buffer.len() as int) =~= buffer.deep_view());
    n
}

/// Whether `text` stands in `list`.
pub fn contains_text(list: &Vec<String>, text: &String) -> (found: bool)
    ensures
        found == list.deep_view().contains(text@),
{
    let mut i: usize = 0;
    while i < list.len()
        invariant
            i <= list.len(),
            forall|k: int| 0 <= k < i ==> list.deep_view()[k] != text@,
        decreases list.len() - i,
    {
        if list[i] == *text {
            assert(list.deep_view()[i as int] == text@);
            return true;
        }
        i += 1;
    }
    false
}

/// Whether `id` stands in `buffer` at all.
pub fn holds(buffer: &Vec<String>, id: &String) -> (found: bool)
    ensures
        found == (stock(buffer.deep_view()).count(id@) > 0),
{
    proof {
        to_multiset_contains(buffer.deep_view(), id@);
    }
    contains_text(buffer, id)
}

/// Takes the first `n` copies of `id` out of `buffer`; the rest keeps its order.
pub fn remove_copies(buffer: &mut Vec<String>, id: &String, n: usize)
    requires
        stock(old(buffer).deep_view()).count(id@) >= n,
    ensures
        final(buffer).deep_view() == without_first(old(buffer).deep_view(), id@, n as int),
        stock(final(buffer).deep_view()) == stock(old(buffer).deep_view()).sub(copies(id@, n as int)),
{
    broadcast use group_multiset_axioms;

    let ghost goal = without_first(old(buffer).deep_view(), id@, n as int);
    let mut taken: usize = 0;
    let mut i: usize = 0;
    proof {
        lemma_copies_zero(id@);
        assert(stock(buffer.deep_view()) =~= stock(old(buffer).deep_view()).sub(copies(id@, 0)));
        assert(buffer.deep_view().skip(0) =~= buffer.deep_view());
        assert(buffer.deep_view().take(0) + goal =~= goal);
    }
    while taken < n
        invariant
            taken <= n,
            i <= buffer.len(),
            stock(old(buffer).deep_view()).count(id@) >= n,
            forall|k: int| 0 <= k < i ==> buffer.deep_view()[k] != id@,
            stock(buffer.deep_view()) == stock(old(buffer).deep_view()).sub(
                copies(id@, taken as int),
            ),
            goal == without_first(old(buffer).deep_view(), id@, n as int),
            buffer.deep_view().take(i as int) + without_first(
                buffer.deep_view().skip(i as int),
                id@,
                n - taken,
            ) == goal,
        decreases buffer.len() - i,
    {
        let ghost before = buffer.deep_view();
        let ghost rest = before.skip(i as int);
        proof {
            lemma_copies_count(id@, taken as int, id@);
            assert(stock(buffer.deep_view()).count(id@) > 0);
            to_multiset_contains(buffer.deep_view(), id@);
            assert(buffer.deep_view().contains(id@));
            assert(rest[0] == before[i as int]);
        }
        if buffer[i] == *id {
            buffer.remove(i);
            proof {
                assert(buffer.deep_view() =~= before.remove(i as int));
                assert(buffer.deep_view().take(i as int) =~= before.take(i as int));
                assert(buffer.deep_view().skip(i as int) =~= rest.drop_first());
                to_multiset_remove(before, i as int);
                assert(stock(buffer.deep_view()) == stock(before).remove(id@));
                lemma_copies_step(id@, taken as int);
                assert(stock(buffer.deep_view()) =~= stock(old(buffer).deep_view()).sub(
                    copies(id@, taken as int + 1),
                )) by {
                    assert forall|x: Seq<char>|
                        stock(buffer.deep_view()).count(x) == stock(old(buffer).deep_view()).sub(
                            copies(id@, taken as int + 1),
                        ).count(x) by {
                        lemma_copies_count(id@, taken as int, x);
                        lemma_copies_count(id@, taken as int + 1, x);
                    }
                }
            }
            taken += 1;
        } else {
            proof {
                assert(before.take(i as int + 1) =~= before.take(i as int) + seq![rest[0]]);
                assert(before.skip(i as int + 1) =~= rest.drop_first());
                assert(before.take(i as int + 1) + without_first(
                    rest.drop_first(),
                    id@,
                    n - taken,
                ) =~= before.take(i as int) + (seq![rest[0]] + without_first(
                    rest.drop_first(),
                    id@,
                    n - taken,
                )));
            }
            i += 1;
        }
    }
    assert(buffer.deep_view().take(i as int) + buffer.deep_view().skip(i as int)
        =~= buffer.deep_view());
}

/// No copies are the empty multiset.
pub proof fn lemma_copies_zero(id: Seq<char>)
    ensures
        copies(id, 0) == Multiset::<Seq<char>>::empty(),
{
    broadcast use group_multiset_axioms;

    assert forall|x: Seq<char>| copies(id, 0).count(x) == 0 by {
        lemma_copies_count(id, 0, x);
    }
    assert(copies(id, 0) =~= Multiset::<Seq<char>>::empty());
}

/// One copy more is one insertion more.
pub proof fn lemma_copies_step(id: Seq<char>, n: int)
    requires
        n >= 0,
    ensures
        copies(id, n + 1) == copies(id, n).insert(id),
{
    broadcast use group_multiset_axioms;

    assert forall|x: Seq<char>| copies(id, n + 1).count(x) == copies(id, n).insert(id).count(x) by {
        lemma_copies_count(id, n, x);
        lemma_copies_count(id, n + 1, x);
    }
    assert(copies(id, n + 1) =~= copies(id, n).insert(id));
}

/// What a list of input ingredients asks for: of each item as many copies as
/// the amounts of the ingredients that name it add up to. An amount that is
/// not positive asks for nothing.
pub open spec fn required(inputs: Seq<IngredientView>) -> Multiset<Seq<char>>
    decreases inputs.len(),
{
    if inputs.len() == 0 {
        Multiset::empty()
    } else {
        required(inputs.drop_last()).add(
            copies(inputs.last().ingredient_id, inputs.last().ingredient_amount),
        )
    }
}

/// No ingredient asks for less than nothing.
pub open spec fn amounts_valid(inputs: Seq<IngredientView>) -> bool {
    forall|i: int| 0 <= i < inputs.len() ==> (#[trigger] inputs[i]).ingredient_amount >= 0
}

/// Whether `held` can pay for all of `inputs` at once. An amount below zero
/// can never be met.
pub open spec fn satisfiable(held: Multiset<Seq<char>>, inputs: Seq<IngredientView>) -> bool {
    amounts_valid(inputs) && required(inputs).subset_of(held)
}

/// Whether `held` has at least one copy of some item that `inputs` names.
pub open spec fn triggerable(held: Multiset<Seq<char>>, inputs: Seq<IngredientView>) -> bool {
    exists|i: int| 0 <= i < inputs.len() && held.count((#[trigger] inputs[i]).ingredient_id) > 0
}

/// What the outputs of a recipe add to a buffer: one copy of the item of each
/// output ingredient whose item stands in `priced`.
pub open spec fn gained(outputs: Seq<IngredientView>, priced: Seq<Seq<char>>) -> Multiset<
    Seq<char>,
>
    decreases outputs.len(),
{
    if outputs.len() == 0 {
        Multiset::empty()
    } else {
        let rest = gained(outputs.drop_last(), priced);
        if priced.contains(outputs.last().ingredient_id) {
            rest.insert(outputs.last().ingredient_id)
        } else {
            rest
        }
    }
}

/// What is left of `buffer` once every ingredient of `inputs` has been paid
/// in turn, each with the first copies of its item.
pub open spec fn paid(buffer: Seq<Seq<char>>, inputs: Seq<IngredientView>) -> Seq<Seq<char>>
    decreases inputs.len(),
{
    if inputs.len() == 0 {
        buffer
    } else {
        without_first(
            paid(buffer, inputs.drop_last()),
            inputs.last().ingredient_id,
            inputs.last().ingredient_amount,
        )
    }
}

/// The items that `outputs` put into a buffer, in their order: the item of
/// each output ingredient whose item stands in `priced`, once.
pub open spec fn yielded(outputs: Seq<IngredientView>, priced: Seq<Seq<char>>) -> Seq<Seq<char>>
    decreases outputs.len(),
{
    if outputs.len() == 0 {
        Seq::empty()
    } else {
        let rest = yielded(outputs.drop_last(), priced);
        if priced.contains(outputs.last().ingredient_id) {
            rest.push(outputs.last().ingredient_id)
        } else {
            rest
        }
    }
}

/// The buffer that the inputs of a recipe lay out: for each ingredient in
/// turn, as many copies of its item as its amount says.
pub open spec fn laid_out(inputs: Seq<IngredientView>) -> Seq<Seq<char>>
    decreases inputs.len(),
{
    if inputs.len() == 0 {
        Seq::empty()
    } else {
        laid_out(inputs.drop_last()) + repeated(
            inputs.last().ingredient_id,
            inputs.last().ingredient_amount,
        )
    }
}

/// One ingredient more asks for its copies more.
pub proof fn lemma_required_next(inputs: Seq<IngredientView>, k: int)
    requires
        0 <= k < inputs.len(),
    ensures
        required(inputs.take(k + 1)) == required(inputs.take(k)).add(
            copies(inputs[k].ingredient_id, inputs[k].ingredient_amount),
        ),
{
    assert(inputs.take(k + 1).drop_last() =~= inputs.take(k));
}

/// The first `k` ingredients ask for no more than all of them do.
pub proof fn lemma_required_prefix(inputs: Seq<IngredientView>, k: int)
    requires
        0 <= k <= inputs.len(),
    ensures
        required(inputs.take(k)).subset_of(required(inputs)),
    decreases inputs.len(),
{
    broadcast use group_multiset_axioms;

    if k == inputs.len() {
        assert(inputs.take(k) =~= inputs);
    } else {
        lemma_required_prefix(inputs.drop_last(), k);
        assert(inputs.drop_last().take(k) =~= inputs.take(k));
    }
}

/// How many copies of `id` the ingredients of `inputs` ask for in all: the
/// sum of the amounts of those that name it.
pub open spec fn asked(inputs: Seq<IngredientView>, id: Seq<char>) -> int
    decreases inputs.len(),
{
    if inputs.len() == 0 {
        0
    } else if inputs.last().ingredient_id == id && inputs.last().ingredient_amount > 0 {
        asked(inputs.drop_last(), id) + inputs.last().ingredient_amount
    } else {
        asked(inputs.drop_last(), id)
    }
}

/// The multiset of what is required holds of each item the sum of the
/// amounts asked of it.
pub proof fn lemma_required_count(inputs: Seq<IngredientView>, id: Seq<char>)
    ensures
        required(inputs).count(id) == asked(inputs, id),
    decreases inputs.len(),
{
    broadcast use group_multiset_axioms;

    if inputs.len() > 0 {
        lemma_required_count(inputs.drop_last(), id);
        lemma_copies_count(inputs.last().ingredient_id, inputs.last().ingredient_amount, id);
    }
}

/// Paying for a recipe takes of each item exactly the sum of the amounts
/// asked of it, no copy more and none less; items that no ingredient names
/// are left as they were.
pub proof fn lemma_consumption_is_exact(
    held: Multiset<Seq<char>>,
    inputs: Seq<IngredientView>,
    id: Seq<char>,
)
    requires
        satisfiable(held, inputs),
    ensures
        asked(inputs, id) <= held.count(id),
        held.sub(required(inputs)).count(id) == held.count(id) - asked(inputs, id),
{
    broadcast use group_multiset_axioms;

    lemma_required_count(inputs, id);
}

/// Tests whether `buffer` can pay for all of `inputs` and, if so, hands back
/// what is left of it once each ingredient's amount has been taken out. The
/// buffer itself is never changed: a failed attempt leaves nothing behind.
pub fn consume_inputs(buffer: &Vec<String>, inputs: &Vec<Ingredient>) -> (left: Option<
    Vec<String>,
>)
    ensures
        left is Some <==> satisfiable(stock(buffer.deep_view()), inputs.deep_view()),
        left is Some ==> left.unwrap().deep_view() == paid(buffer.deep_view(), inputs.deep_view()),
        left is Some ==> stock(left.unwrap().deep_view()) == stock(buffer.deep_view()).sub(
            required(inputs.deep_view()),
        ),
{
    broadcast use group_multiset_axioms;

    let ghost held = stock(buffer.deep_view());
    let ghost all = inputs.deep_view();
    let mut work = copy_texts(buffer);
    let mut k: usize = 0;
    assert(stock(work.deep_view()) =~= held.sub(required(all.take(0))));
    assert(work.deep_view() =~= paid(buffer.deep_view(), all.take(0)));
    while k < inputs.len()
        invariant
            k <= inputs.len(),
            held == stock(buffer.deep_view()),
            all == inputs.deep_view(),
            satisfiable(held, all.take(k as int)),
            stock(work.deep_view()) == held.sub(required(all.take(k as int))),
            work.deep_view() == paid(buffer.deep_view(), all.take(k as int)),
        decreases inputs.len() - k,
    {
        let need = &inputs[k];
        let ghost id = need.ingredient_id@;
        let ghost amount = need.ingredient_amount as int;
        proof {
            lemma_required_next(all, k as int);
            lemma_required_prefix(all, k as int + 1);
            assert(all[k as int] == need@);
            lemma_copies_count(id, amount, id);
            assert(all.take(k as int + 1).drop_last() =~= all.take(k as int));
        }
        if need.ingredient_amount < 0 {
            return None;
        }
        let wanted = need.ingredient_amount as usize;
        let have = count_of(&work, &need.ingredient_id);
        if have < wanted {
            assert(required(all.take(k as int + 1)).count(id) > held.count(id));
            assert(required(all).count(id) > held.count(id));
            return None;
        }
        remove_copies(&mut work, &need.ingredient_id, wanted);
        proof {
            assert forall|x: Seq<char>|
                required(all.take(k as int + 1)).count(x) <= held.count(x) by {
                lemma_copies_count(id, amount, x);
            }
            assert forall|i: int| 0 <= i < k + 1 implies (#[trigger] all.take(
                k as int + 1,
            )[i]).ingredient_amount >= 0 by {
                if i < k {
                    assert(all.take(k as int)[i] == all.take(k as int + 1)[i]);
                }
            }
            assert(stock(work.deep_view()) =~= held.sub(required(all.take(k as int + 1))));
        }
        k += 1;
    }
    assert(all.take(inputs.len() as int) =~= all);
    Some(work)
}

/// Adds to `buffer` what `outputs` yield: one copy of the item of each output
/// whose item stands in `priced`.
pub fn add_outputs(buffer: &mut Vec<String>, outputs: &Vec<Ingredient>, priced: &Vec<String>)
    ensures
        final(buffer).deep_view() == old(buffer).deep_view() + yielded(
            outputs.deep_view(),
            priced.deep_view(),
        ),
        stock(final(buffer).deep_view()) == stock(old(buffer).deep_view()).add(
            gained(outputs.deep_view(), priced.deep_view()),
        ),
{
    broadcast use group_multiset_axioms;

    let ghost all = outputs.deep_view();
    let ghost known = priced.deep_view();
    let mut k: usize = 0;
    assert(stock(buffer.deep_view()) =~= stock(old(buffer).deep_view()).add(
        gained(all.take(0), known),
    ));
    assert(buffer.deep_view() =~= old(buffer).deep_view() + yielded(all.take(0), known));
    while k < outputs.len()
        invariant
            k <= outputs.len(),
            all == outputs.deep_view(),
            known == priced.deep_view(),
            stock(buffer.deep_view()) == stock(old(buffer).deep_view()).add(
                gained(all.take(k as int), known),
            ),
            buffer.deep_view() == old(buffer).deep_view() + yielded(all.take(k as int), known),
        decreases outputs.len() - k,
    {
        let made = &outputs[k];
        proof {
            assert(all.take(k as int + 1).drop_last() =~= all.take(k as int));
            assert(all[k as int] == made@);
        }
        if contains_text(priced, &made.ingredient_id) {
            let ghost before = buffer.deep_view();
            buffer.push(made.ingredient_id.clone());
            proof {
                assert(buffer.deep_view() =~= before.push(made.ingredient_id@));
                to_multiset_build(before, made.ingredient_id@);
                assert(stock(buffer.deep_view()) =~= stock(old(buffer).deep_view()).add(
                    gained(all.take(k as int + 1), known),
                ));
                assert(buffer.deep_view() =~= old(buffer).deep_view() + yielded(
                    all.take(k as int + 1),
                    known,
                ));
            }
        }
        k += 1;
    }
    assert(all.take(outputs.len() as int) =~= all);
}

/// The buffer that a chain starts from: of each input ingredient's item as
/// many copies as its amount says.
pub fn initial_buffer(inputs: &Vec<Ingredient>) -> (buffer: Vec<String>)
    ensures
        buffer.deep_view() == laid_out(inputs.deep_view()),
        stock(buffer.deep_view()) == required(inputs.deep_view()),
{
    broadcast use group_multiset_axioms;

    let ghost all = inputs.deep_view();
    let mut buffer: Vec<String> = Vec::new();
    let mut k: usize = 0;
    proof {
        to_multiset_len(buffer.deep_view());
        assert(stock(buffer.deep_view()) =~= required(all.take(0)));
        assert(buffer.deep_view() =~= laid_out(all.take(0)));
    }
    while k < inputs.len()
        invariant
            k <= inputs.len(),
            all == inputs.deep_view(),
            stock(buffer.deep_view()) == required(all.take(k as int)),
            buffer.deep_view() == laid_out(all.take(k as int)),
        decreases inputs.len() - k,
    {
        let need = &inputs[k];
        let ghost id = need.ingredient_id@;
        let ghost base = stock(buffer.deep_view());
        let ghost front = buffer.deep_view();
        let mut put: i32 = 0;
        proof {
            lemma_required_next(all, k as int);
            assert(all[k as int] == need@);
            assert(all.take(k as int + 1).drop_last() =~= all.take(k as int));
            lemma_copies_zero(id);
            assert(base =~= base.add(copies(id, 0)));
            assert(front =~= front + repeated(id, 0));
        }
        while put < need.ingredient_amount
            invariant
                0 <= put,
                put <= need.ingredient_amount || put == 0,
                id == need.ingredient_id@,
                stock(buffer.deep_view()) == base.add(copies(id, put as int)),
                buffer.deep_view() == front + repeated(id, put as int),
            decreases need.ingredient_amount - put,
        {
            let ghost before = buffer.deep_view();
            buffer.push(need.ingredient_id.clone());
            proof {
                assert(buffer.deep_view() =~= before.push(id));
                to_multiset_build(before, id);
                lemma_copies_step(id, put as int);
                assert(stock(buffer.deep_view()) =~= base.add(copies(id, put as int + 1)));
                assert(buffer.deep_view() =~= front + repeated(id, put as int + 1));
            }
            put += 1;
        }
        proof {
            assert(repeated(id, put as int) =~= repeated(id, need.ingredient_amount as int));
            if need.ingredient_amount <= 0 {
                lemma_copies_zero(id);
                assert(copies(id, need.ingredient_amount as int) =~= copies(id, 0)) by {
                    assert forall|x: Seq<char>|
                        copies(id, need.ingredient_amount as int).count(x) == copies(
                            id,
                            0,
                        ).count(x) by {
                        lemma_copies_count(id, need.ingredient_amount as int, x);
                        lemma_copies_count(id, 0, x);
                    }
                }
            }
        }
        k += 1;
    }
    assert(all.take(inputs.len() as int) =~= all);
    buffer
}

} // verus!
