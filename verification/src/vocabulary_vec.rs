//! Labelled vocabularies: a vocabulary of types, the type assigned to every
//! item of a collection, and how many items each type has.

use vstd::prelude::*;
use crate::errors::GraphError;
use crate::partition::{label_count, lemma_count_bound, lemma_count_take_step};
use crate::types::NodeT;
use crate::vocabulary::Vocabulary;

verus! {

/// The types of the items of a collection.
///
/// `ids[i]` is the type of item `i`, `vocabulary` names the types, and
/// `counts[k]` is the number of items of type `k`, for every type that has
/// a name.
pub struct VocabularyVec {
    pub ids: Vec<u16>,
    pub vocabulary: Vocabulary,
    pub counts: Vec<usize>,
}

/// The identifiers of a list of types, as mathematical integers.
pub open spec fn as_labels(ids: Seq<u16>) -> Seq<int> {
    Seq::new(ids.len(), |i: int| ids[i] as int)
}

impl VocabularyVec {
    /// The type of every item, in item order.
    pub open spec fn assignments(&self) -> Seq<int> {
        as_labels(self.ids@)
    }

    /// Whether the vocabulary is well formed and every type identifier
    /// fits the width of an assignment.
    pub open spec fn fits(&self) -> bool {
        &&& self.vocabulary.wf()
        &&& forall|i: int|
            0 <= i < self.vocabulary.values@.len() ==> #[trigger] self.vocabulary.values@[i]
                <= u16::MAX
    }

    /// The invariant of a labelled vocabulary: its vocabulary is well
    /// formed, every type identifier fits the width of an assignment, and
    /// the counts say how many items each type has.
    pub open spec fn wf(&self) -> bool {
        self.fits() && self.counted()
    }

    /// Whether `counts` holds, for every type, the number of items of it.
    pub open spec fn counted(&self) -> bool {
        &&& self.counts@.len() == self.vocabulary.names().len()
        &&& forall|k: int|
            0 <= k < self.counts@.len() ==> #[trigger] self.counts@[k] == label_count(
                self.assignments(),
                k,
            )
    }

    /// A labelled vocabulary with no item and no type.
    pub fn default() -> (v: VocabularyVec)
        ensures
            v.wf(),
            v.counted(),
            v.ids@.len() == 0,
            v.vocabulary.names().len() == 0,
            !v.vocabulary.numeric_ids,
            v.vocabulary.model() == crate::vocabulary::Names::empty(false),
    {
        VocabularyVec { ids: Vec::new(), vocabulary: Vocabulary::default(), counts: Vec::new() }
    }

    /// Joins the types of the items with the vocabulary that names them, and
    /// counts the items of each type. Without a vocabulary there is nothing
    /// to join.
    pub fn from_structs(ids: Vec<u16>, vocabulary: Option<Vocabulary>) -> (r: Option<VocabularyVec>)
        requires
            vocabulary matches Some(v) ==> v.wf() && forall|i: int|
                0 <= i < v.values@.len() ==> #[trigger] v.values@[i] <= u16::MAX,
        ensures
            r is Some <==> vocabulary is Some,
            r matches Some(v) ==> v.wf() && v.counted() && v.ids@ == ids@ && v.vocabulary
                == vocabulary->Some_0,
    {
        match vocabulary {
            Some(vocabulary) => {
                let mut v = VocabularyVec { ids, vocabulary, counts: Vec::new() };
                v.build_counts();
                Some(v)
            },
            None => None,
        }
    }

    /// Counts the items of every type of the vocabulary anew, whatever the
    /// counts held before.
    pub fn build_counts(&mut self)
        requires
            old(self).fits(),
        ensures
            final(self).wf(),
            final(self).counted(),
            final(self).ids@ == old(self).ids@,
            final(self).vocabulary == old(self).vocabulary,
    {
        let types = self.vocabulary.len();
        let mut counts: Vec<usize> = Vec::new();
        let mut k: usize = 0;
        while k < types
            invariant
                k <= types,
                counts@.len() == k,
                forall|c: int| 0 <= c < k ==> #[trigger] counts@[c] == 0,
            decreases types - k,
        {
            counts.push(0);
            k += 1;
        }
        let ghost labels = self.assignments();
        let mut i: usize = 0;
        while i < self.ids.len()
            invariant
                i <= self.ids@.len(),
                labels == as_labels(self.ids@),
                counts@.len() == types,
                forall|c: int|
                    0 <= c < types ==> #[trigger] counts@[c] == label_count(labels.take(i as int), c),
            decreases self.ids@.len() - i,
        {
            let id = self.ids[i] as usize;
            proof {
                assert forall|c: int| 0 <= c < types implies label_count(labels.take(i + 1), c)
                    == label_count(labels.take(i as int), c) + (if labels[i as int] == c {
                    1nat
                } else {
                    0nat
                }) by {
                    lemma_count_take_step(labels, i as int, c);
                }
                lemma_count_bound(labels.take(i + 1), id as int);
            }
            if id < types {
                counts.set(id, counts[id] + 1);
            }
            i += 1;
        }
        proof {
            assert(labels.take(i as int) =~= labels);
        }
        self.counts = counts;
    }

    /// Builds the mapping from type identifiers back to type names.
    pub fn build_reverse_mapping(&mut self) -> (r: Result<(), GraphError>)
        requires
            old(self).wf(),
        ensures
            final(self).wf(),
            final(self).ids@ == old(self).ids@,
            final(self).counts@ == old(self).counts@,
            final(self).vocabulary.names() == old(self).vocabulary.names(),
            final(self).vocabulary.ids() == old(self).vocabulary.ids(),
            final(self).vocabulary.map@ == old(self).vocabulary.map@,
            final(self).vocabulary.numeric_ids == old(self).vocabulary.numeric_ids,
            r is Ok <==> old(self).vocabulary.dense(),
            r is Ok ==> final(self).vocabulary.reverse_built(),
            r is Err ==> r == Err::<(), GraphError>(GraphError::NotDense),
    {
        self.vocabulary.build_reverse_mapping()
    }

    /// What `insert` answers for `name`: the failure, or the type identifier
    /// that the name has or gets.
    pub open spec fn insert_outcome(&self, name: Seq<char>) -> Result<u16, GraphError> {
        match self.vocabulary.insert_outcome(name) {
            Err(e) => Err(e),
            Ok(id) => if id > u16::MAX {
                Err(GraphError::TooManyNames)
            } else {
                Ok(id as u16)
            },
        }
    }

    /// Assigns the type named `value` to the next item and returns its
    /// identifier, adding the type to the vocabulary if it is new. The item
    /// is counted: the count of its type grows by one, and a new type gets
    /// the count of the items that have its place as their type. On failure
    /// nothing changes.
    pub fn insert(&mut self, value: String) -> (r: Result<u16, GraphError>)
        requires
            old(self).wf(),
        ensures
            final(self).wf(),
            r == old(self).insert_outcome(value@),
            final(self).vocabulary.numeric_ids == old(self).vocabulary.numeric_ids,
            r matches Ok(id) ==> final(self).ids@ == old(self).ids@.push(id) && final(self).vocabulary.id_of(value@) == Some(id as NodeT),
            r matches Ok(id) ==> forall|k: int|
                0 <= k < old(self).counts@.len() ==> #[trigger] final(self).counts@[k] == old(
                    self,
                ).counts@[k] + (if k == id {
                    1int
                } else {
                    0int
                }),
            r is Ok && old(self).vocabulary.insert_adds(value@) ==> final(self).vocabulary.names()
                == old(self).vocabulary.names().push(value@) && final(self).counts@.len() == old(
                self,
            ).counts@.len() + 1,
            r is Ok && !old(self).vocabulary.insert_adds(value@) ==> final(self).vocabulary.names()
                == old(self).vocabulary.names() && final(self).vocabulary.map@ == old(self).vocabulary.map@
                && final(self).counts@.len() == old(self).counts@.len(),
            r is Err ==> final(self).ids@ == old(self).ids@ && final(self).vocabulary == old(
                self,
            ).vocabulary && final(self).counts@ == old(self).counts@,
            r is Ok ==> final(self).vocabulary.model() == old(self).vocabulary.model().inserted(
                value@,
            ),
    {
        let id: NodeT = match self.vocabulary.outcome(value.as_str()) {
            Err(e) => {
                return Err(e);
            },
            Ok(id) => id,
        };
        if id > u16::MAX as NodeT {
            return Err(GraphError::TooManyNames);
        }
        let before = self.vocabulary.len();
        let ghost old_labels = self.assignments();
        let ghost old_counts = self.counts@;
        let _ = self.vocabulary.insert(value);
        self.ids.push(id as u16);
        let ghost labels = self.assignments();
        proof {
            assert(labels.drop_last() =~= old_labels);
            assert(labels.last() == id as int);
            assert forall|c: int| label_count(labels, c) == label_count(old_labels, c) + (if id
                == c {
                1nat
            } else {
                0nat
            }) by {}
            lemma_count_bound(labels, id as int);
        }
        let items = self.ids.len();
        if (id as usize) < before {
            let count = self.counts[id as usize];
            proof {
                assert(old_counts[id as int] == label_count(old_labels, id as int));
                assert(label_count(labels, id as int) == label_count(old_labels, id as int) + 1);
                assert(labels.len() == self.ids@.len());
                assert(count == old_counts[id as int]);
                lemma_count_bound(labels, id as int);
                assert(count + 1 <= items);
            }
            self.counts.set(id as usize, count + 1);
        }
        if self.vocabulary.len() > before {
            let count = count_of(&self.ids, before);
            self.counts.push(count);
        }
        Ok(id as u16)
    }

    /// Whether no type has been named.
    pub fn is_empty(&self) -> (empty: bool)
        requires
            self.wf(),
        ensures
            empty == (self.vocabulary.names().len() == 0),
    {
        self.vocabulary.is_empty()
    }

    /// The name of the type `id`. Asks for the reverse mapping.
    pub fn translate(&self, id: u16) -> (name: &str)
        requires
            self.wf(),
            self.vocabulary.reverse_built(),
            id < self.vocabulary.names().len(),
        ensures
            name@ == self.vocabulary.reverse_map@[id as int]@,
            self.vocabulary.id_of(name@) == Some(id as NodeT),
    {
        self.vocabulary.translate(id as NodeT)
    }

    /// The identifier of the type named `key`, if there is one.
    pub fn get(&self, key: &str) -> (id: Option<u16>)
        requires
            self.wf(),
        ensures
            id is Some <==> self.vocabulary.has_name(key@),
            id matches Some(t) ==> self.vocabulary.id_of(key@) == Some(t as NodeT),
    {
        match self.vocabulary.get(key) {
            Some(id) => {
                proof {
                    let i = choose|i: int|
                        0 <= i < self.vocabulary.keys@.len() && self.vocabulary.keys@[i]@ == key@;
                    assert(self.vocabulary.map@.contains_key(self.vocabulary.keys@[i]@));
                    assert(self.vocabulary.values@[i] <= u16::MAX);
                }
                Some(id as u16)
            },
            None => None,
        }
    }

    /// The names of the types, in the order they were given: every name
    /// once.
    pub fn keys(&self) -> (names: Vec<String>)
        requires
            self.wf(),
        ensures
            names@.len() == self.vocabulary.names().len(),
            forall|i: int|
                0 <= i < names@.len() ==> #[trigger] names@[i]@ == self.vocabulary.names()[i],
            self.vocabulary.lists_names(names@),
    {
        self.vocabulary.keys()
    }

    /// The number of types.
    pub fn len(&self) -> (len: usize)
        ensures
            len == self.vocabulary.names().len(),
    {
        self.vocabulary.keys.len()
    }

    /// Whether the type names are read as numbers.
    pub fn has_numeric_ids(&self) -> (numeric: bool)
        ensures
            numeric == self.vocabulary.numeric_ids,
    {
        self.vocabulary.has_numeric_ids()
    }

    /// Sets whether the type names are read as numbers. Names, identifiers,
    /// assignments and counts stay as they are, so the vocabulary has to fit
    /// the mode that is set: one without a name takes either.
    pub fn set_numeric_ids(self, numeric_ids: bool) -> (v: VocabularyVec)
        requires
            self.wf(),
            self.vocabulary.fits_mode(numeric_ids),
        ensures
            v.wf(),
            v.ids@ == self.ids@,
            v.counts@ == self.counts@,
            v.vocabulary.names() == self.vocabulary.names(),
            v.vocabulary.ids() == self.vocabulary.ids(),
            v.vocabulary.map@ == self.vocabulary.map@,
            v.vocabulary.numeric_ids == numeric_ids,
    {
        let VocabularyVec { ids, vocabulary, counts } = self;
        VocabularyVec { ids, vocabulary: vocabulary.set_numeric_ids(numeric_ids), counts }
    }
}

/// Counts the items whose type is `label`.
pub fn count_of(ids: &Vec<u16>, label: usize) -> (count: usize)
    ensures
        count == label_count(as_labels(ids@), label as int),
{
    let ghost labels = as_labels(ids@);
    let mut count: usize = 0;
    let mut i: usize = 0;
    while i < ids.len()
        invariant
            i <= ids@.len(),
            labels == as_labels(ids@),
            count == label_count(labels.take(i as int), label as int),
            count <= i,
        decreases ids@.len() - i,
    {
        proof {
            lemma_count_take_step(labels, i as int, label as int);
        }
        if ids[i] as usize == label {
            count += 1;
        }
        i += 1;
    }
    proof {
        assert(labels.take(i as int) =~= labels);
    }
    count
}

} // verus!
