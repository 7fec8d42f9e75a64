//! The models that a run is about, each once and in the order of their names.
use crate::judge::Judgment;
use crate::provider::ModelId;
use crate::text::{
    lex_irreflexive, lex_less, lex_total, lex_transitive, sorted_texts_agree, text_less,
};
use vstd::prelude::*;

verus! {

/// The names of the models.
pub open spec fn names_of(models: Seq<ModelId>) -> Seq<Seq<char>> {
    models.map_values(|model: ModelId| model@)
}

/// The list holds a model with this name.
pub open spec fn lists_model(list: Seq<ModelId>, name: Seq<char>) -> bool {
    exists|i: int| 0 <= i < list.len() && (#[trigger] list[i])@ == name
}

/// Some judgment is about the model with this name.
pub open spec fn takes_part(judgments: Seq<Judgment>, name: Seq<char>) -> bool {
    exists|k: int|
        0 <= k < judgments.len() && ((#[trigger] judgments[k]).model_a@ == name
            || judgments[k].model_b@ == name)
}

/// The names grow strictly along the list.
pub open spec fn is_sorted(list: Seq<ModelId>) -> bool {
    forall|i: int, j: int|
        0 <= i < j < list.len() ==> lex_less((#[trigger] list[i])@, (#[trigger] list[j])@)
}

/// The list holds the requested models and those that were judged, and no others.
pub open spec fn is_roster(
    list: Seq<ModelId>,
    judgments: Seq<Judgment>,
    models: Seq<ModelId>,
) -> bool {
    &&& is_sorted(list)
    &&& forall|name: Seq<char>| #[trigger]
        lists_model(list, name) <==> lists_model(models, name) || takes_part(judgments, name)
}

/// Where the model with this name stands in the list.
pub open spec fn place_of(list: Seq<ModelId>, name: Seq<char>) -> int {
    choose|i: int| 0 <= i < list.len() && (#[trigger] list[i])@ == name
}

/// In a sorted list a name has one place.
pub proof fn place_unique(list: Seq<ModelId>, i: int)
    requires
        is_sorted(list),
        0 <= i < list.len(),
    ensures
        lists_model(list, list[i]@),
        place_of(list, list[i]@) == i,
{
    let p = place_of(list, list[i]@);
    assert(list[i]@ == list[i]@);
    assert(0 <= p < list.len() && list[p]@ == list[i]@);
    lex_irreflexive(list[i]@);
}

proof fn listed_is_contained(list: Seq<ModelId>, name: Seq<char>)
    ensures
        lists_model(list, name) <==> names_of(list).contains(name),
{
    if lists_model(list, name) {
        let i = choose|i: int| 0 <= i < list.len() && (#[trigger] list[i])@ == name;
        assert(names_of(list)[i] == name);
    }
    if names_of(list).contains(name) {
        let i = choose|i: int| 0 <= i < list.len() && names_of(list)[i] == name;
        assert(list[i]@ == name);
    }
}

/// Two sorted lists of the same models are equal, place by place.
pub proof fn sorted_lists_agree(one: Seq<ModelId>, two: Seq<ModelId>)
    requires
        is_sorted(one),
        is_sorted(two),
        forall|name: Seq<char>| #[trigger] lists_model(one, name) <==> lists_model(two, name),
    ensures
        one.len() == two.len(),
        forall|i: int| 0 <= i < one.len() ==> (#[trigger] one[i])@ == two[i]@,
{
    let a = names_of(one);
    let b = names_of(two);
    assert forall|name: Seq<char>| a.contains(name) <==> b.contains(name) by {
        listed_is_contained(one, name);
        listed_is_contained(two, name);
        assert(lists_model(one, name) <==> lists_model(two, name));
    }
    assert forall|i: int, j: int| 0 <= i < j < a.len() implies lex_less(
        #[trigger] a[i],
        #[trigger] a[j],
    ) by {
        assert(lex_less(one[i]@, one[j]@));
    }
    assert forall|i: int, j: int| 0 <= i < j < b.len() implies lex_less(
        #[trigger] b[i],
        #[trigger] b[j],
    ) by {
        assert(lex_less(two[i]@, two[j]@));
    }
    sorted_texts_agree(a, b);
    assert forall|i: int| 0 <= i < one.len() implies (#[trigger] one[i])@ == two[i]@ by {
        assert(a[i] == b[i]);
    }
}

/// The number of models in the list whose names come before `name`.
fn rank(list: &Vec<ModelId>, name: &str) -> (at: usize)
    requires
        is_sorted(list@),
    ensures
        at <= list@.len(),
        forall|i: int| 0 <= i < at ==> lex_less((#[trigger] list@[i])@, name@),
        forall|i: int| at <= i < list@.len() ==> !lex_less((#[trigger] list@[i])@, name@),
{
    let mut low: usize = 0;
    let mut high: usize = list.len();
    while low < high
        invariant
            low <= high <= list@.len(),
            is_sorted(list@),
            forall|i: int| 0 <= i < low ==> lex_less((#[trigger] list@[i])@, name@),
            forall|i: int| high <= i < list@.len() ==> !lex_less((#[trigger] list@[i])@, name@),
        decreases high - low,
    {
        let mid: usize = low + (high - low) / 2;
        if text_less(list[mid].as_str(), name) {
            proof {
                assert forall|i: int| 0 <= i < mid + 1 implies lex_less(
                    (#[trigger] list@[i])@,
                    name@,
                ) by {
                    if i < mid {
                        lex_transitive(list@[i]@, list@[mid as int]@, name@);
                    }
                }
            }
            low = mid + 1;
        } else {
            proof {
                assert forall|i: int| mid <= i < list@.len() implies !lex_less(
                    (#[trigger] list@[i])@,
                    name@,
                ) by {
                    if mid < i && lex_less(list@[i]@, name@) {
                        lex_transitive(list@[mid as int]@, list@[i]@, name@);
                    }
                }
            }
            high = mid;
        }
    }
    low
}

/// The place of a listed model.
pub fn place(list: &Vec<ModelId>, model: &ModelId) -> (at: usize)
    requires
        is_sorted(list@),
        lists_model(list@, model@),
    ensures
        at < list@.len(),
        at == place_of(list@, model@),
        list@[at as int]@ == model@,
{
    let at: usize = rank(list, model.as_str());
    proof {
        let p = place_of(list@, model@);
        assert(0 <= p < list@.len() && list@[p]@ == model@);
        lex_irreflexive(model@);
        assert(p >= at);
        if p > at {
            assert(lex_less(list@[at as int]@, list@[p]@));
        }
    }
    at
}

/// Adds the model to the list unless it is there.
pub fn enrol(list: &mut Vec<ModelId>, model: &ModelId)
    requires
        is_sorted(old(list)@),
    ensures
        is_sorted(final(list)@),
        forall|name: Seq<char>| #[trigger]
            lists_model(final(list)@, name) <==> lists_model(old(list)@, name) || name == model@,
{
    let ghost before = list@;
    let at: usize = rank(list, model.as_str());
    if at < list.len() && list[at] == *model {
        proof {
            assert(list@[at as int]@ == model@);
        }
        return ;
    }
    list.insert(at, model.clone());
    proof {
        let after = list@;
        assert(after =~= before.insert(at as int, after[at as int]));
        assert forall|i: int| at <= i < before.len() implies lex_less(
            model@,
            (#[trigger] before[i])@,
        ) by {
            if i == at {
                lex_total(before[i]@, model@);
            } else {
                lex_total(before[i]@, model@);
                assert(lex_less(before[at as int]@, before[i]@));
                lex_total(before[at as int]@, model@);
            }
        }
        assert forall|i: int, j: int| 0 <= i < j < after.len() implies lex_less(
            (#[trigger] after[i])@,
            (#[trigger] after[j])@,
        ) by {
            let x = if i < at { before[i]@ } else if i == at { model@ } else { before[i - 1]@ };
            let y = if j < at { before[j]@ } else if j == at { model@ } else { before[j - 1]@ };
            assert(after[i]@ == x && after[j]@ == y);
            if i != at && j != at {
                let a = if i < at { i } else { i - 1 };
                let b = if j < at { j } else { j - 1 };
                assert(lex_less(before[a]@, before[b]@));
            }
        }
        assert forall|name: Seq<char>| #[trigger]
            lists_model(after, name) <==> lists_model(before, name) || name == model@ by {
            if lists_model(after, name) {
                let i = choose|i: int| 0 <= i < after.len() && (#[trigger] after[i])@ == name;
                if i < at {
                    assert(before[i]@ == name);
                } else if i > at {
                    assert(before[i - 1]@ == name);
                }
            }
            if lists_model(before, name) {
                let i = choose|i: int| 0 <= i < before.len() && (#[trigger] before[i])@ == name;
                if i < at {
                    assert(after[i]@ == name);
                } else {
                    assert(after[i + 1]@ == name);
                }
            }
            if name == model@ {
                assert(after[at as int]@ == name);
            }
        }
    }
}

/// The requested and the judged models, sorted.
pub fn roster(judgments: &[Judgment], models: &[ModelId]) -> (list: Vec<ModelId>)
    ensures
        is_roster(list@, judgments@, models@),
{
    let mut list: Vec<ModelId> = Vec::new();
    let mut i: usize = 0;
    while i < models.len()
        invariant
            i <= models@.len(),
            is_sorted(list@),
            forall|name: Seq<char>| #[trigger]
                lists_model(list@, name) <==> lists_model(models@.take(i as int), name),
        decreases models@.len() - i,
    {
        let ghost before = list@;
        enrol(&mut list, &models[i]);
        proof {
            let seen = models@.take(i as int);
            let more = models@.take(i + 1);
            assert forall|name: Seq<char>| #[trigger]
                lists_model(list@, name) <==> lists_model(more, name) by {
                assert(lists_model(list@, name) <==> lists_model(before, name) || name
                    == models@[i as int]@);
                if lists_model(seen, name) {
                    let p = choose|p: int| 0 <= p < seen.len() && (#[trigger] seen[p])@ == name;
                    assert(more[p]@ == name);
                }
                if lists_model(more, name) {
                    let p = choose|p: int| 0 <= p < more.len() && (#[trigger] more[p])@ == name;
                    if p < i {
                        assert(seen[p]@ == name);
                    }
                }
                if name == models@[i as int]@ {
                    assert(more[i as int]@ == name);
                }
            }
        }
        i += 1;
    }
    proof {
        assert(models@.take(models@.len() as int) =~= models@);
    }
    let mut k: usize = 0;
    while k < judgments.len()
        invariant
            k <= judgments@.len(),
            is_sorted(list@),
            forall|name: Seq<char>| #[trigger]
                lists_model(list@, name) <==> lists_model(models@, name) || takes_part(
                    judgments@.take(k as int),
                    name,
                ),
        decreases judgments@.len() - k,
    {
        let ghost before = list@;
        enrol(&mut list, &judgments[k].model_a);
        let ghost between = list@;
        enrol(&mut list, &judgments[k].model_b);
        proof {
            let seen = judgments@.take(k as int);
            let more = judgments@.take(k + 1);
            let j = judgments@[k as int];
            assert forall|name: Seq<char>| #[trigger]
                lists_model(list@, name) <==> lists_model(models@, name) || takes_part(
                    more,
                    name,
                ) by {
                assert(lists_model(between, name) <==> lists_model(before, name) || name
                    == j.model_a@);
                assert(lists_model(list@, name) <==> lists_model(between, name) || name
                    == j.model_b@);
                if takes_part(seen, name) {
                    let p = choose|p: int|
                        0 <= p < seen.len() && ((#[trigger] seen[p]).model_a@ == name
                            || seen[p].model_b@ == name);
                    assert(more[p] == seen[p]);
                }
                if takes_part(more, name) {
                    let p = choose|p: int|
                        0 <= p < more.len() && ((#[trigger] more[p]).model_a@ == name
                            || more[p].model_b@ == name);
                    if p < k {
                        assert(seen[p] == more[p]);
                    }
                }
                assert(more[k as int] == j);
            }
        }
        k += 1;
    }
    proof {
        assert(judgments@.take(judgments@.len() as int) =~= judgments@);
    }
    list
}

} // verus!
