//! Deciding whether the requested language model is among those that the
//! model server lists.
use vstd::prelude::*;

use crate::text::chars_of;

verus! {

/// Whether the listed name `name` names the requested `model`: it is the
/// model's name itself, or that name followed by `:` and a tag.
pub open spec fn name_matches(name: Seq<char>, model: Seq<char>) -> bool {
    ||| name == model
    ||| model.len() < name.len() && name.take(model.len() as int) == model && name[model.len() as int]
        == ':'
}

/// Decides `name_matches` on two strings.
pub fn names_model(name: &str, model: &str) -> (b: bool)
    ensures
        b == name_matches(name@, model@),
{
    let v = chars_of(name);
    let m = chars_of(model);
    if m.len() > v.len() {
        return false;
    }
    for i in 0..m.len()
        invariant
            m.len() <= v.len(),
            v@ == name@,
            m@ == model@,
            forall|k: int| 0 <= k < i ==> v@[k] == m@[k],
    {
        if v[i] != m[i] {
            assert(name@.take(model@.len() as int)[i as int] != model@[i as int]);
            return false;
        }
    }
    assert(name@.take(model@.len() as int) == model@);
    if m.len() == v.len() {
        assert(name@ == name@.take(model@.len() as int));
        true
    } else {
        v[m.len()] == ':'
    }
}

/// The names of the listed entries that have one, in order.
pub open spec fn listed_names(entries: Seq<Option<Seq<char>>>) -> Seq<Seq<char>>
    decreases entries.len(),
{
    if entries.len() == 0 {
        Seq::empty()
    } else {
        let before = listed_names(entries.drop_last());
        match entries.last() {
            Some(n) => before.push(n),
            None => before,
        }
    }
}

/// Whether some listed entry has a name that names `model`.
pub open spec fn model_listed(entries: Seq<Option<Seq<char>>>, model: Seq<char>) -> bool {
    exists|i: int| 0 <= i < entries.len() && (#[trigger] entries[i] matches Some(n) && name_matches(n, model))
}

/// The entries of a listing, with each name as a character sequence.
pub open spec fn entries_view(entries: Seq<Option<String>>) -> Seq<Option<Seq<char>>> {
    entries.map_values(|e: Option<String>| e.deep_view())
}

/// Checks a model against the server's listing. `listing` is `None` when
/// the server's answer has no list of models, which is accepted; otherwise
/// it holds the name of each listed model (`None` for an entry without a
/// textual name). The model is available when some listed name is
/// `model_name` itself or `model_name` followed by `:` and a tag; when it is
/// not, the error holds the listed names.
pub fn check_model_listed(model_name: &str, listing: Option<&Vec<Option<String>>>) -> (r: Result<
    (),
    Vec<String>,
>)
    ensures
        match listing {
            None => r is Ok,
            Some(entries) => {
                &&& (r is Ok <==> model_listed(entries_view(entries@), model_name@))
                &&& (r matches Err(names) ==> names@.map_values(|n: String| n@) == listed_names(
                    entries_view(entries@),
                ))
            },
        },
{
    let entries = match listing {
        None => return Ok(()),
        Some(e) => e,
    };
    let ghost ev = entries_view(entries@);
    for i in 0..entries.len()
        invariant
            listing == Some(entries),
            ev == entries_view(entries@),
            forall|k: int|
                0 <= k < i ==> !(#[trigger] ev[k] matches Some(n) && name_matches(n, model_name@)),
    {
        match &entries[i] {
            Some(name) => {
                if names_model(name.as_str(), model_name) {
                    assert(ev[i as int] == Some(name@));
                    assert(model_listed(ev, model_name@));
                    return Ok(());
                }
            },
            None => {},
        }
    }
    let mut names: Vec<String> = Vec::new();
    for i in 0..entries.len()
        invariant
            ev == entries_view(entries@),
            names@.map_values(|n: String| n@) == listed_names(ev.take(i as int)),
    {
        let ghost before = names@;
        proof {
            let p = ev.take(i + 1);
            assert(p.drop_last() == ev.take(i as int));
            assert(p.last() == ev[i as int]);
        }
        match &entries[i] {
            Some(name) => {
                names.push(name.clone());
                assert(names@.map_values(|n: String| n@) == before.map_values(|n: String| n@).push(
                    name@,
                ));
            },
            None => {},
        }
    }
    assert(ev.take(entries@.len() as int) == ev);
    Err(names)
}

} // verus!
