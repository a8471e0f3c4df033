//! The lazily typed tree: objects and arrays are built, but every leaf keeps
//! the token it was read from, and is classified only when the tree is
//! materialized.

use vstd::prelude::*;
use crate::chars::same_text;
use crate::entries::{
    distinct_keys, entries_map, has_key, lemma_entries_map_dom, lemma_entries_map_lookup,
    lemma_entries_map_push, lemma_entries_map_update,
};
use crate::error::{Failure, ParseError};
use crate::parser::{classify, parse_value};
use crate::value::{values_model, JsonModel, JsonObject, JsonValue};

verus! {

/// The mathematical content of a [`JsonValueLazy`].
pub enum LazyModel {
    Something(Seq<char>),
    Object(Map<Seq<char>, LazyModel>),
    Array(Seq<LazyModel>),
    InValidLocation,
}

impl LazyModel {
    /// The member `key` of an object; the sentinel where there is none or
    /// where the tree is no object.
    pub open spec fn lookup(self, key: Seq<char>) -> LazyModel {
        match self {
            LazyModel::Object(members) => if members.dom().contains(key) {
                members[key]
            } else {
                LazyModel::InValidLocation
            },
            _ => LazyModel::InValidLocation,
        }
    }

    /// Whether every leaf of the tree can be classified.
    pub open spec fn materializable(self) -> bool
        decreases self,
    {
        match self {
            LazyModel::Something(token) => classify(token) is Ok,
            LazyModel::Object(members) => forall|key: Seq<char>|
                members.dom().contains(key) ==> (#[trigger] members[key]).materializable(),
            LazyModel::Array(elements) => forall|i: int|
                0 <= i < elements.len() ==> (#[trigger] elements[i]).materializable(),
            LazyModel::InValidLocation => true,
        }
    }

    /// The eager tree of the same shape, in which every leaf is classified.
    /// It has a meaning where the tree is materializable.
    pub open spec fn materialized(self) -> JsonModel
        decreases self,
    {
        match self {
            LazyModel::Something(token) => match classify(token) {
                Ok(value) => value,
                Err(_) => JsonModel::InValidLocation,
            },
            LazyModel::Object(members) => JsonModel::Object(
                Map::new(
                    |key: Seq<char>| members.dom().contains(key),
                    |key: Seq<char>|
                        if members.dom().contains(key) {
                            members[key].materialized()
                        } else {
                            JsonModel::InValidLocation
                        },
                ),
            ),
            LazyModel::Array(elements) => JsonModel::Array(
                Seq::new(
                    elements.len(),
                    |i: int|
                        if 0 <= i < elements.len() {
                            elements[i].materialized()
                        } else {
                            JsonModel::InValidLocation
                        },
                ),
            ),
            LazyModel::InValidLocation => JsonModel::InValidLocation,
        }
    }

    /// Whether some leaf of the tree fails to be classified, with `failure`.
    pub open spec fn leaf_fails_with(self, failure: Failure) -> bool
        decreases self,
    {
        match self {
            LazyModel::Something(token) => classify(token) == Err::<JsonModel, Failure>(failure),
            LazyModel::Object(members) => exists|key: Seq<char>|
                members.dom().contains(key) && (#[trigger] members[key]).leaf_fails_with(failure),
            LazyModel::Array(elements) => exists|i: int|
                0 <= i < elements.len() && (#[trigger] elements[i]).leaf_fails_with(failure),
            LazyModel::InValidLocation => false,
        }
    }
}

/// An object of the lazy tree: its members, each under a key of its own.
#[derive(Debug)]
pub struct LazyObject {
    entries: Vec<(String, JsonValueLazy)>,
}

/// A decoded value whose leaves are not classified yet.
#[derive(Debug)]
pub enum JsonValueLazy {
    /// A leaf: the token as it was read, with its quotes if it has any.
    Something(String),
    Object(LazyObject),
    Array(Vec<JsonValueLazy>),
    /// What a lookup yields that found nothing.  Decoding never produces it.
    InValidLocation,
}

/// The trees of a list of lazy values.
pub open spec fn lazy_values_model(values: Seq<JsonValueLazy>) -> Seq<LazyModel>
    decreases values, 0int,
{
    Seq::new(
        values.len(),
        |i: int|
            if 0 <= i < values.len() {
                values[i].view()
            } else {
                LazyModel::InValidLocation
            },
    )
}

/// The keys and trees of a list of lazy entries.
pub open spec fn lazy_pairs_model(pairs: Seq<(String, JsonValueLazy)>) -> Seq<
    (Seq<char>, LazyModel),
>
    decreases pairs, 0int,
{
    Seq::new(
        pairs.len(),
        |i: int|
            if 0 <= i < pairs.len() {
                (pairs[i].0@, pairs[i].1.view())
            } else {
                (Seq::empty(), LazyModel::InValidLocation)
            },
    )
}

impl JsonValueLazy {
    /// The tree that the value is.
    pub open spec fn view(&self) -> LazyModel
        decreases self, 0int,
    {
        match self {
            JsonValueLazy::Something(token) => LazyModel::Something(token@),
            JsonValueLazy::Object(o) => LazyModel::Object(o.view()),
            JsonValueLazy::Array(v) => LazyModel::Array(lazy_values_model(v@)),
            JsonValueLazy::InValidLocation => LazyModel::InValidLocation,
        }
    }
}

impl LazyObject {
    #[verifier::type_invariant]
    spec fn keys_are_distinct(&self) -> bool {
        distinct_keys(lazy_pairs_model(self.entries@))
    }

    /// The mapping from each key to the tree of its member.
    pub closed spec fn view(&self) -> Map<Seq<char>, LazyModel>
        decreases self, 0int,
    {
        entries_map(lazy_pairs_model(self.entries@))
    }

    /// The object without members.
    pub fn new() -> (r: Self)
        ensures
            r@ == Map::<Seq<char>, LazyModel>::empty(),
    {
        LazyObject { entries: Vec::new() }
    }

    /// The member under `key`, if there is one.
    pub fn get(&self, key: &str) -> (r: Option<&JsonValueLazy>)
        ensures
            match r {
                Some(v) => self@.dom().contains(key@) && self@[key@] == v@,
                None => !self@.dom().contains(key@),
            },
    {
        proof {
            use_type_invariant(self);
        }
        let ghost pairs = lazy_pairs_model(self.entries@);
        let mut i: usize = 0;
        while i < self.entries.len()
            invariant
                i <= self.entries.len(),
                pairs == lazy_pairs_model(self.entries@),
                distinct_keys(pairs),
                forall|j: int| 0 <= j < i ==> (#[trigger] pairs[j]).0 != key@,
            decreases self.entries.len() - i,
        {
            if same_text(self.entries[i].0.as_str(), key) {
                proof {
                    lemma_entries_map_lookup(pairs, i as int);
                }
                return Some(&self.entries[i].1);
            }
            i += 1;
        }
        proof {
            lemma_entries_map_dom(pairs);
        }
        None
    }

    /// Puts `value` under `key`, in place of the member that was there, if
    /// there was one.
    pub fn insert(&mut self, key: String, value: JsonValueLazy)
        ensures
            final(self)@ == old(self)@.insert(key@, value@),
    {
        proof {
            use_type_invariant(&*self);
        }
        let mut entries: Vec<(String, JsonValueLazy)> = Vec::new();
        assert(lazy_pairs_model(entries@) =~= Seq::empty());
        core::mem::swap(&mut self.entries, &mut entries);
        let ghost pairs = lazy_pairs_model(entries@);
        let mut i: usize = 0;
        while i < entries.len()
            invariant
                i <= entries.len(),
                pairs == lazy_pairs_model(entries@),
                forall|j: int| 0 <= j < i ==> (#[trigger] pairs[j]).0 != key@,
            ensures
                i <= entries.len(),
                forall|j: int| 0 <= j < i ==> (#[trigger] pairs[j]).0 != key@,
                i < entries.len() ==> pairs[i as int].0 == key@,
            decreases entries.len() - i,
        {
            if entries[i].0 == key {
                break ;
            }
            i += 1;
        }
        if i < entries.len() {
            proof {
                lemma_entries_map_update(pairs, i as int, value@);
            }
            entries.set(i, (key, value));
            assert(lazy_pairs_model(entries@) =~= pairs.update(i as int, (key@, value@)));
        } else {
            proof {
                lemma_entries_map_push(pairs, key@, value@);
                let pushed = pairs.push((key@, value@));
                assert forall|a: int, b: int| 0 <= a < b < pushed.len() implies (
                #[trigger] pushed[a]).0 != (#[trigger] pushed[b]).0 by {
                    if b < pairs.len() {
                        assert(pairs[a].0 != pairs[b].0);
                    } else {
                        assert(pairs[a].0 != key@);
                    }
                }
            }
            entries.push((key, value));
            assert(lazy_pairs_model(entries@) =~= pairs.push((key@, value@)));
        }
        core::mem::swap(&mut self.entries, &mut entries);
    }

    /// The members with their keys.  No key occurs twice.
    pub fn into_entries(self) -> (r: Vec<(String, JsonValueLazy)>)
        ensures
            distinct_keys(lazy_pairs_model(r@)),
            entries_map(lazy_pairs_model(r@)) == self@,
    {
        proof {
            use_type_invariant(&self);
        }
        self.entries
    }
}

impl JsonValueLazy {
    /// The member `key` of an object.  Where `self` is no object, or has no
    /// such member, the result is the sentinel, so that lookups can be
    /// chained without a test in between.
    pub fn index(&self, key: &str) -> (r: &JsonValueLazy)
        ensures
            r@ == self@.lookup(key@),
    {
        match self {
            JsonValueLazy::Object(members) => match members.get(key) {
                Some(value) => value,
                None => &JsonValueLazy::InValidLocation,
            },
            _ => &JsonValueLazy::InValidLocation,
        }
    }
}

/// The keys of `pairs`, each with the materialized tree of its member.
pub open spec fn materialized_pairs(pairs: Seq<(Seq<char>, LazyModel)>) -> Seq<
    (Seq<char>, JsonModel),
> {
    Seq::new(pairs.len(), |i: int| (pairs[i].0, pairs[i].1.materialized()))
}

/// The materialized trees of `elements`.
pub open spec fn materialized_elements(elements: Seq<LazyModel>) -> Seq<JsonModel> {
    Seq::new(elements.len(), |i: int| elements[i].materialized())
}

/// An object is materializable if and only if each of its members is.
pub proof fn lemma_materializable_members(members: Map<Seq<char>, LazyModel>)
    ensures
        LazyModel::Object(members).materializable() <==> forall|key: Seq<char>|
            members.dom().contains(key) ==> (#[trigger] members[key]).materializable(),
{
    let tree = LazyModel::Object(members);
    if tree.materializable() {
        assert forall|key: Seq<char>| members.dom().contains(key) implies (
        #[trigger] members[key]).materializable() by {
            assert(tree->Object_0.dom().contains(key));
            assert(tree->Object_0[key].materializable());
        }
    }
}

/// An array is materializable if and only if each of its elements is.
pub proof fn lemma_materializable_elements(elements: Seq<LazyModel>)
    ensures
        LazyModel::Array(elements).materializable() <==> forall|i: int|
            0 <= i < elements.len() ==> (#[trigger] elements[i]).materializable(),
{
    let tree = LazyModel::Array(elements);
    if tree.materializable() {
        assert forall|i: int| 0 <= i < elements.len() implies (
        #[trigger] elements[i]).materializable() by {
            assert(tree->Array_0[i].materializable());
        }
    }
}

/// Materializing an object materializes each member under its key.
pub proof fn lemma_materialized_members(members: Map<Seq<char>, LazyModel>)
    ensures
        LazyModel::Object(members).materialized() is Object,
        LazyModel::Object(members).materialized()->Object_0.dom() == members.dom(),
        forall|key: Seq<char>|
            members.dom().contains(key) ==> LazyModel::Object(
                members,
            ).materialized()->Object_0[key] == (#[trigger] members[key]).materialized(),
{
    let tree = LazyModel::Object(members);
    let made = tree.materialized()->Object_0;
    assert(made.dom() =~= members.dom());
    assert forall|key: Seq<char>| members.dom().contains(key) implies made[key] == (
    #[trigger] members[key]).materialized() by {
        assert(tree->Object_0.dom().contains(key));
        assert(made[key] == tree->Object_0[key].materialized());
    }
}

/// Materializing an array materializes each element in its place.
pub proof fn lemma_materialized_elements(elements: Seq<LazyModel>)
    ensures
        LazyModel::Array(elements).materialized() == JsonModel::Array(
            materialized_elements(elements),
        ),
{
    let tree = LazyModel::Array(elements);
    let made = tree.materialized()->Array_0;
    assert(made.len() == elements.len());
    assert forall|i: int| 0 <= i < elements.len() implies made[i] == (
    #[trigger] elements[i]).materialized() by {
        assert(made[i] == tree->Array_0[i].materialized());
    }
    assert(made =~= materialized_elements(elements));
}

/// A leaf that fails in a member of an object fails in the object.
pub proof fn lemma_leaf_fails_in_member(
    members: Map<Seq<char>, LazyModel>,
    key: Seq<char>,
    failure: Failure,
)
    requires
        members.dom().contains(key),
        members[key].leaf_fails_with(failure),
    ensures
        LazyModel::Object(members).leaf_fails_with(failure),
{
    let tree = LazyModel::Object(members);
    assert(tree->Object_0.dom().contains(key) && tree->Object_0[key].leaf_fails_with(failure));
}

/// A leaf that fails in an element of an array fails in the array.
pub proof fn lemma_leaf_fails_in_element(elements: Seq<LazyModel>, i: int, failure: Failure)
    requires
        0 <= i < elements.len(),
        elements[i].leaf_fails_with(failure),
    ensures
        LazyModel::Array(elements).leaf_fails_with(failure),
{
    let tree = LazyModel::Array(elements);
    assert(0 <= i < tree->Array_0.len() && tree->Array_0[i].leaf_fails_with(failure));
}

/// Materializing the object that a list of entries denotes gives the object
/// that the materialized entries denote.
pub proof fn lemma_materialized_object(pairs: Seq<(Seq<char>, LazyModel)>)
    ensures
        LazyModel::Object(entries_map(pairs)).materialized() == JsonModel::Object(
            entries_map(materialized_pairs(pairs)),
        ),
    decreases pairs.len(),
{
    let members = entries_map(pairs);
    lemma_materialized_members(members);
    let left = LazyModel::Object(members).materialized()->Object_0;
    let right = entries_map(materialized_pairs(pairs));
    if pairs.len() == 0 {
        assert(left =~= right);
    } else {
        let front = pairs.drop_last();
        lemma_materialized_object(front);
        lemma_materialized_members(entries_map(front));
        assert(materialized_pairs(pairs).drop_last() =~= materialized_pairs(front));
        let front_left = LazyModel::Object(entries_map(front)).materialized()->Object_0;
        assert(front_left == entries_map(materialized_pairs(front)));
        assert(left.dom() =~= right.dom());
        assert forall|key: Seq<char>| #[trigger] left.dom().contains(key) implies left[key]
            == right[key] by {
            assert(left[key] == members[key].materialized());
            if key != pairs.last().0 {
                assert(entries_map(front).dom().contains(key));
                assert(front_left[key] == entries_map(front)[key].materialized());
            }
        }
        assert(left =~= right);
    }
}

/// Where the keys are distinct, an object is materializable if and only if
/// the member of each entry is.
pub proof fn lemma_materializable_object(pairs: Seq<(Seq<char>, LazyModel)>)
    requires
        distinct_keys(pairs),
    ensures
        LazyModel::Object(entries_map(pairs)).materializable() <==> forall|i: int|
            0 <= i < pairs.len() ==> (#[trigger] pairs[i]).1.materializable(),
{
    let members = entries_map(pairs);
    lemma_entries_map_dom(pairs);
    lemma_materializable_members(members);
    if forall|i: int| 0 <= i < pairs.len() ==> (#[trigger] pairs[i]).1.materializable() {
        assert forall|key: Seq<char>| members.dom().contains(key) implies (
        #[trigger] members[key]).materializable() by {
            assert(has_key(pairs, key));
            let i = choose|i: int| 0 <= i < pairs.len() && (#[trigger] pairs[i]).0 == key;
            lemma_entries_map_lookup(pairs, i);
        }
    }
    if LazyModel::Object(members).materializable() {
        assert forall|i: int| 0 <= i < pairs.len() implies (
        #[trigger] pairs[i]).1.materializable() by {
            lemma_entries_map_lookup(pairs, i);
            assert(members[pairs[i].0].materializable());
        }
    }
}

/// Where the keys are distinct, a leaf that fails in the member of an entry
/// fails in the object.
pub proof fn lemma_leaf_fails_in_object(
    pairs: Seq<(Seq<char>, LazyModel)>,
    i: int,
    failure: Failure,
)
    requires
        distinct_keys(pairs),
        0 <= i < pairs.len(),
        pairs[i].1.leaf_fails_with(failure),
    ensures
        LazyModel::Object(entries_map(pairs)).leaf_fails_with(failure),
{
    lemma_entries_map_lookup(pairs, i);
    lemma_leaf_fails_in_member(entries_map(pairs), pairs[i].0, failure);
}

impl JsonValueLazy {
    /// The eager tree of the same shape: every leaf is classified, once.
    /// The conversion succeeds if and only if every leaf can be classified;
    /// if some cannot, it fails as one of them does.
    pub fn materialize(self) -> (r: Result<JsonValue, ParseError>)
        ensures
            match r {
                Ok(value) => self@.materializable() && value@ == self@.materialized(),
                Err(e) => !self@.materializable() && self@.leaf_fails_with(e@),
            },
        decreases self,
    {
        match self {
            JsonValueLazy::Something(token) => parse_value(token.as_str()),
            JsonValueLazy::Object(members) => {
                proof {
                    use_type_invariant(&members);
                }
                let entries = members.entries;
                let ghost all = entries@;
                let ghost pairs = lazy_pairs_model(all);
                let mut out = JsonObject::new();
                proof {
                    lemma_materializable_object(pairs);
                    assert(materialized_pairs(pairs.take(0)) =~= Seq::empty());
                }
                for entry in it: entries.into_iter()
                    invariant
                        it.seq() == all,
                        pairs == lazy_pairs_model(all),
                        distinct_keys(pairs),
                        self == JsonValueLazy::Object(members),
                        members.entries@ == all,
                        forall|j: int|
                            0 <= j < it.index() ==> (#[trigger] pairs[j]).1.materializable(),
                        out@ == entries_map(materialized_pairs(pairs.take(it.index() as int))),
                {
                    let ghost i = it.index() as int;
                    let (key, lazy) = entry;
                    assert(lazy@ == pairs[i].1 && key@ == pairs[i].0);
                    match lazy.materialize() {
                        Err(e) => {
                            proof {
                                lemma_materializable_object(pairs);
                                lemma_leaf_fails_in_object(pairs, i, e@);
                            }
                            return Err(e);
                        },
                        Ok(value) => {
                            proof {
                                let done = materialized_pairs(pairs.take(i));
                                lemma_entries_map_push(done, key@, value@);
                                assert(materialized_pairs(pairs.take(i + 1)) =~= done.push(
                                    (key@, value@),
                                ));
                            }
                            out.insert(key, value);
                        },
                    }
                }
                proof {
                    assert(pairs.take(pairs.len() as int) =~= pairs);
                    lemma_materializable_object(pairs);
                    lemma_materialized_object(pairs);
                }
                Ok(JsonValue::Object(out))
            },
            JsonValueLazy::Array(elements) => {
                let ghost all = elements@;
                let ghost models = lazy_values_model(all);
                let mut out: Vec<JsonValue> = Vec::new();
                for element in it: elements.into_iter()
                    invariant
                        it.seq() == all,
                        models == lazy_values_model(all),
                        self == JsonValueLazy::Array(elements),
                        elements@ == all,
                        forall|j: int|
                            0 <= j < it.index() ==> (#[trigger] models[j]).materializable(),
                        values_model(out@) == materialized_elements(
                            models.take(it.index() as int),
                        ),
                {
                    let ghost i = it.index() as int;
                    let ghost before = values_model(out@);
                    assert(element@ == models[i]);
                    match element.materialize() {
                        Err(e) => {
                            proof {
                                lemma_materializable_elements(models);
                                lemma_leaf_fails_in_element(models, i, e@);
                            }
                            return Err(e);
                        },
                        Ok(value) => {
                            out.push(value);
                            assert(values_model(out@) =~= before.push(value@));
                            assert(materialized_elements(models.take(i + 1)) =~= before.push(
                                value@,
                            ));
                        },
                    }
                }
                proof {
                    assert(models.take(models.len() as int) =~= models);
                    lemma_materializable_elements(models);
                    lemma_materialized_elements(models);
                }
                Ok(JsonValue::Array(out))
            },
            JsonValueLazy::InValidLocation => Ok(JsonValue::InValidLocation),
        }
    }
}

} // verus!
