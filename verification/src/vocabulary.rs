//! Vocabularies: the one-to-one correspondence between names and dense
//! identifiers.

use vstd::prelude::*;
use vstd::hash_map::StringHashMap;
use vstd::string::StrSliceExecFns;
use crate::errors::GraphError;
use crate::types::NodeT;
use crate::partition::{label_count, lemma_count_full, lemma_count_update};

verus! {

/// The value of a decimal digit, if `c` is one.
pub open spec fn digit_value(c: char) -> Option<nat> {
    if '0' <= c <= '9' {
        Some((c as nat - '0' as nat) as nat)
    } else {
        None
    }
}

/// The number that `s` writes in decimal digits, if `s` is one or more digits.
pub open spec fn decimal_value(s: Seq<char>) -> Option<nat>
    decreases s.len(),
{
    if s.len() == 0 {
        None
    } else if s.len() == 1 {
        digit_value(s[0])
    } else {
        match (decimal_value(s.drop_last()), digit_value(s.last())) {
            (Some(high), Some(digit)) => Some(10 * high + digit),
            _ => None,
        }
    }
}

/// The identifier that a numeric name stands for: its decimal value, where it
/// has one that fits.
pub open spec fn numeric_id(s: Seq<char>) -> Option<NodeT> {
    match decimal_value(s) {
        Some(v) => if v <= NodeT::MAX {
            Some(v as NodeT)
        } else {
            None
        },
        None => None,
    }
}

/// A number never reads smaller than one of its non-empty prefixes, and a
/// prefix of a number is a number.
proof fn lemma_decimal_prefix(s: Seq<char>, k: int)
    requires
        0 < k <= s.len(),
        decimal_value(s) is Some,
    ensures
        decimal_value(s.take(k)) is Some,
        decimal_value(s.take(k))->Some_0 <= decimal_value(s)->Some_0,
    decreases s.len(),
{
    if k == s.len() {
        assert(s.take(k) =~= s);
    } else {
        assert(s.take(k) =~= s.drop_last().take(k));
        lemma_decimal_prefix(s.drop_last(), k);
    }
}

/// A text with a prefix that is no number is no number.
proof fn lemma_decimal_bad_prefix(s: Seq<char>, k: int)
    requires
        0 < k <= s.len(),
        decimal_value(s.take(k)) is None,
    ensures
        decimal_value(s) is None,
{
    if decimal_value(s) is Some {
        lemma_decimal_prefix(s, k);
    }
}

/// Reads `name` as a decimal number that fits an identifier.
pub fn parse_numeric_id(name: &str) -> (id: Option<NodeT>)
    ensures
        id == numeric_id(name@),
{
    let len = name.unicode_len();
    if len == 0 {
        return None;
    }
    let mut value: u64 = 0;
    let mut i: usize = 0;
    while i < len
        invariant
            i <= len,
            len == name@.len(),
            value <= NodeT::MAX,
            i > 0 ==> decimal_value(name@.take(i as int)) == Some(value as nat),
            i == 0 ==> value == 0,
        decreases len - i,
    {
        let c = name.get_char(i);
        proof {
            assert(name@.take(i + 1).drop_last() =~= name@.take(i as int));
            assert(name@.take(i + 1).last() == c);
            if i == 0 {
                assert(name@.take(1)[0] == c);
            }
        }
        if c < '0' || c > '9' {
            proof {
                lemma_decimal_bad_prefix(name@, i + 1);
            }
            return None;
        }
        let digit: u64 = (c as u32 - '0' as u32) as u64;
        let next: u64 = value * 10 + digit;
        if next > NodeT::MAX as u64 {
            proof {
                if decimal_value(name@) is Some {
                    lemma_decimal_prefix(name@, i + 1);
                }
            }
            return None;
        }
        value = next;
        i += 1;
    }
    proof {
        assert(name@.take(len as int) =~= name@);
    }
    Some(value as NodeT)
}

} // verus!

verus! {

/// What a vocabulary holds, as mathematics: the names in the order they were
/// given, the identifier of each, the same as a map, and the mode.
pub struct Names {
    pub names: Seq<Seq<char>>,
    pub ids: Seq<NodeT>,
    pub map: Map<Seq<char>, NodeT>,
    pub numeric_ids: bool,
}

impl Names {
    /// No name at all.
    pub open spec fn empty(numeric_ids: bool) -> Names {
        Names { names: Seq::empty(), ids: Seq::empty(), map: Map::empty(), numeric_ids }
    }

    /// What inserting `name` answers: the failure, or the identifier that
    /// the name has or gets.
    pub open spec fn insert_outcome(self, name: Seq<char>) -> Result<NodeT, GraphError> {
        if name.len() == 0 {
            Err(GraphError::EmptyName)
        } else if self.numeric_ids && numeric_id(name) is None {
            Err(GraphError::NotNumeric)
        } else if self.map.contains_key(name) {
            Ok(self.map[name])
        } else if self.names.len() >= NodeT::MAX {
            Err(GraphError::TooManyNames)
        } else if self.numeric_ids {
            Ok(numeric_id(name)->Some_0)
        } else {
            Ok(self.names.len() as NodeT)
        }
    }

    /// Whether inserting `name` adds it as a new name.
    pub open spec fn insert_adds(self, name: Seq<char>) -> bool {
        self.insert_outcome(name) is Ok && !self.map.contains_key(name)
    }

    /// The names after `name` has been inserted.
    pub open spec fn inserted(self, name: Seq<char>) -> Names {
        if self.insert_adds(name) {
            Names {
                names: self.names.push(name),
                ids: self.ids.push(self.insert_outcome(name)->Ok_0),
                map: self.map.insert(name, self.insert_outcome(name)->Ok_0),
                numeric_ids: self.numeric_ids,
            }
        } else {
            self
        }
    }

    /// The identifier of `name`, if it is held.
    pub open spec fn id_of(self, name: Seq<char>) -> Option<NodeT> {
        if self.map.contains_key(name) {
            Some(self.map[name])
        } else {
            None
        }
    }

    /// Whether the identifiers cover `0..len` exactly once each.
    pub open spec fn dense(self) -> bool {
        &&& forall|i: int| 0 <= i < self.ids.len() ==> #[trigger] self.ids[i] < self.ids.len()
        &&& forall|i: int, j: int|
            0 <= i < j < self.ids.len() ==> #[trigger] self.ids[i] != #[trigger] self.ids[j]
    }
}

/// A set of names with a dense identifier for each.
///
/// In symbolic mode a name gets the number of names that came before it. In
/// numeric mode every name is a decimal number and is its own identifier.
/// `keys` and `values` hold the names and their identifiers in the order the
/// names were given, `map` finds the identifier of a name, and `reverse_map`,
/// once built, finds the name of an identifier.
pub struct Vocabulary {
    pub map: StringHashMap<NodeT>,
    pub keys: Vec<String>,
    pub values: Vec<NodeT>,
    pub reverse_map: Vec<String>,
    pub numeric_ids: bool,
}

impl Vocabulary {
    /// What the vocabulary holds. The reverse mapping is left out: it is
    /// made from the names and their identifiers, and the invariant says
    /// what it holds once it is built.
    pub open spec fn model(&self) -> Names {
        Names {
            names: self.names(),
            ids: self.ids(),
            map: self.map@,
            numeric_ids: self.numeric_ids,
        }
    }

    /// The names, in the order they were given.
    pub open spec fn names(&self) -> Seq<Seq<char>> {
        Seq::new(self.keys@.len(), |i: int| self.keys@[i]@)
    }

    /// The identifiers, in the order their names were given.
    pub open spec fn ids(&self) -> Seq<NodeT> {
        self.values@
    }

    /// Whether `name` is in the vocabulary.
    pub open spec fn has_name(&self, name: Seq<char>) -> bool {
        self.map@.contains_key(name)
    }

    /// The identifier of `name`, if the vocabulary holds it.
    pub open spec fn id_of(&self, name: Seq<char>) -> Option<NodeT> {
        if self.map@.contains_key(name) {
            Some(self.map@[name])
        } else {
            None
        }
    }

    /// Whether the reverse mapping has been built.
    pub open spec fn reverse_built(&self) -> bool {
        self.reverse_map@.len() == self.keys@.len()
    }

    /// Whether the identifiers cover `0..len` exactly once each.
    pub open spec fn dense(&self) -> bool {
        &&& forall|i: int| 0 <= i < self.values@.len() ==> #[trigger] self.values@[i] < self.values@.len()
        &&& forall|i: int, j: int|
            0 <= i < j < self.values@.len() ==> #[trigger] self.values@[i] != #[trigger] self.values@[j]
    }

    /// A vocabulary is dense exactly when what it holds is.
    pub proof fn lemma_dense_model(&self)
        ensures
            self.dense() <==> self.model().dense(),
    {
        let m = self.model();
        if self.dense() {
            assert forall|i: int| 0 <= i < m.ids.len() implies #[trigger] m.ids[i] < m.ids.len() by {
                assert(self.values@[i] < self.values@.len());
            }
            assert forall|i: int, j: int| 0 <= i < j < m.ids.len() implies #[trigger] m.ids[i]
                != #[trigger] m.ids[j] by {
                assert(self.values@[i] != self.values@[j]);
            }
        }
        if m.dense() {
            assert forall|i: int| 0 <= i < self.values@.len() implies #[trigger] self.values@[i]
                < self.values@.len() by {
                assert(m.ids[i] < m.ids.len());
            }
            assert forall|i: int, j: int| 0 <= i < j < self.values@.len() implies #[trigger] self.values@[i]
                != #[trigger] self.values@[j] by {
                assert(m.ids[i] != m.ids[j]);
            }
        }
    }

    /// The invariant of a vocabulary.
    pub open spec fn wf(&self) -> bool {
        &&& self.keys@.len() == self.values@.len()
        &&& self.keys@.len() <= NodeT::MAX
        &&& forall|i: int|
            0 <= i < self.keys@.len() ==> self.map@.contains_key(#[trigger] self.keys@[i]@)
                && self.map@[self.keys@[i]@] == self.values@[i] && self.keys@[i]@.len() > 0
        &&& forall|name: Seq<char>| #[trigger]
            self.map@.contains_key(name) ==> exists|i: int|
                0 <= i < self.keys@.len() && self.keys@[i]@ == name
        &&& forall|i: int, j: int|
            0 <= i < j < self.keys@.len() ==> (#[trigger] self.keys@[i])@ != (
            #[trigger] self.keys@[j])@
        &&& !self.numeric_ids ==> forall|i: int|
            0 <= i < self.values@.len() ==> #[trigger] self.values@[i] == i
        &&& self.numeric_ids ==> forall|i: int|
            0 <= i < self.keys@.len() ==> numeric_id(#[trigger] self.keys@[i]@) == Some(
                self.values@[i],
            )
        &&& self.reverse_map@.len() == 0 || self.reverse_built()
        &&& self.reverse_built() ==> forall|i: int|
            0 <= i < self.keys@.len() ==> #[trigger] self.values@[i] < self.keys@.len()
                && self.reverse_map@[self.values@[i] as int]@ == self.keys@[i]@
        &&& self.reverse_built() ==> forall|id: int|
            0 <= id < self.reverse_map@.len() ==> self.map@.contains_key(
                #[trigger] self.reverse_map@[id]@,
            ) && self.map@[self.reverse_map@[id]@] == id
    }

    /// An empty vocabulary in symbolic mode.
    pub fn default() -> (v: Vocabulary)
        ensures
            v.wf(),
            v.names().len() == 0,
            !v.numeric_ids,
            forall|name: Seq<char>| !v.has_name(name),
            v.model() == Names::empty(false),
    {
        Vocabulary::new(false)
    }

    /// An empty vocabulary, numeric where `numeric_ids` says so.
    pub fn new(numeric_ids: bool) -> (v: Vocabulary)
        ensures
            v.wf(),
            v.names().len() == 0,
            v.numeric_ids == numeric_ids,
            forall|name: Seq<char>| !v.has_name(name),
            v.model() == Names::empty(numeric_ids),
    {
        let v = Vocabulary {
            map: StringHashMap::new(),
            keys: Vec::new(),
            values: Vec::new(),
            reverse_map: Vec::new(),
            numeric_ids,
        };
        proof {
            assert(v.names() =~= Seq::<Seq<char>>::empty());
            assert(v.ids() =~= Seq::<NodeT>::empty());
        }
        v
    }

    /// What `insert` answers for `name`: the failure, or the identifier that
    /// the name has or gets.
    pub open spec fn insert_outcome(&self, name: Seq<char>) -> Result<NodeT, GraphError> {
        self.model().insert_outcome(name)
    }

    /// Whether `insert` adds `name` as a new name.
    pub open spec fn insert_adds(&self, name: Seq<char>) -> bool {
        self.model().insert_adds(name)
    }

    /// Computes what `insert` would answer for `name`, leaving the vocabulary
    /// as it is.
    pub fn outcome(&self, name: &str) -> (r: Result<NodeT, GraphError>)
        requires
            self.wf(),
        ensures
            r == self.insert_outcome(name@),
    {
        if name.unicode_len() == 0 {
            return Err(GraphError::EmptyName);
        }
        let parsed: Option<NodeT> = if self.numeric_ids {
            let parsed = parse_numeric_id(name);
            if parsed.is_none() {
                return Err(GraphError::NotNumeric);
            }
            parsed
        } else {
            None
        };
        match self.map.get(name) {
            Some(id) => {
                return Ok(*id);
            },
            None => {},
        }
        if self.keys.len() >= NodeT::MAX as usize {
            return Err(GraphError::TooManyNames);
        }
        match parsed {
            Some(id) => Ok(id),
            None => Ok(self.keys.len() as NodeT),
        }
    }

    /// Returns the identifier of `value`, adding the name if it is new.
    ///
    /// An empty name is refused, and so is, in numeric mode, a name that is no
    /// decimal number. Adding a name discards the reverse mapping.
    pub fn insert(&mut self, value: String) -> (r: Result<NodeT, GraphError>)
        requires
            old(self).wf(),
        ensures
            final(self).wf(),
            r == old(self).insert_outcome(value@),
            final(self).model() == old(self).model().inserted(value@),
            final(self).numeric_ids == old(self).numeric_ids,
            old(self).insert_adds(value@) ==> final(self).names() == old(self).names().push(value@)
                && final(self).ids() == old(self).ids().push(r->Ok_0) && final(self).map@ == old(self).map@.insert(value@, r->Ok_0),
            !old(self).insert_adds(value@) ==> final(self).names() == old(self).names() && final(self).ids() == old(self).ids() && final(self).map@ == old(self).map@ && final(self).reverse_map@ == old(self).reverse_map@,
    {
        let id: NodeT = match self.outcome(value.as_str()) {
            Err(e) => {
                return Err(e);
            },
            Ok(id) => id,
        };
        if self.map.contains_key(value.as_str()) {
            return Ok(id);
        }
        let ghost before = *self;
        self.map.insert(value.clone(), id);
        self.keys.push(value);
        self.values.push(id);
        self.reverse_map = Vec::new();
        proof {
            assert(self.names() =~= before.names().push(value@));
            assert forall|i: int| 0 <= i < self.keys@.len() implies self.map@.contains_key(
                #[trigger] self.keys@[i]@,
            ) && self.map@[self.keys@[i]@] == self.values@[i] by {
                if i < before.keys@.len() {
                    assert(before.map@.contains_key(before.keys@[i]@));
                }
            }
            assert forall|name: Seq<char>| #[trigger] self.map@.contains_key(name) implies exists|
                i: int,
            |
                0 <= i < self.keys@.len() && self.keys@[i]@ == name by {
                if name == value@ {
                    assert(self.keys@[before.keys@.len() as int]@ == name);
                } else {
                    assert(before.map@.contains_key(name));
                    let i = choose|i: int| 0 <= i < before.keys@.len() && before.keys@[i]@ == name;
                    assert(self.keys@[i]@ == name);
                }
            }
        }
        Ok(id)
    }

    /// Whether the vocabulary holds no name.
    pub fn is_empty(&self) -> (empty: bool)
        requires
            self.wf(),
        ensures
            empty == (self.names().len() == 0),
    {
        self.keys.len() == 0
    }

    /// The number of names.
    pub fn len(&self) -> (len: usize)
        requires
            self.wf(),
        ensures
            len == self.names().len(),
            len <= NodeT::MAX,
    {
        self.keys.len()
    }

    /// The identifier of `key`, if the vocabulary holds it.
    pub fn get(&self, key: &str) -> (id: Option<NodeT>)
        requires
            self.wf(),
        ensures
            id == self.id_of(key@),
    {
        match self.map.get(key) {
            Some(id) => Some(*id),
            None => None,
        }
    }

    /// The name of `id`. Asks for the reverse mapping.
    pub fn translate(&self, id: NodeT) -> (name: &str)
        requires
            self.wf(),
            self.reverse_built(),
            id < self.names().len(),
        ensures
            name@ == self.reverse_map@[id as int]@,
            self.id_of(name@) == Some(id),
    {
        self.reverse_map[id as usize].as_str()
    }

    /// Whether `names` holds exactly the names of the vocabulary, each
    /// once: no two of its entries are the same name, every entry is held,
    /// and every name that is held is an entry.
    pub open spec fn lists_names(&self, names: Seq<String>) -> bool {
        &&& forall|i: int, j: int|
            0 <= i < j < names.len() ==> (#[trigger] names[i])@ != (#[trigger] names[j])@
        &&& forall|i: int| 0 <= i < names.len() ==> self.has_name((#[trigger] names[i])@)
        &&& forall|name: Seq<char>| #[trigger]
            self.has_name(name) ==> exists|i: int| 0 <= i < names.len() && names[i]@ == name
    }

    /// The names, in the order they were given: every name once.
    pub fn keys(&self) -> (names: Vec<String>)
        requires
            self.wf(),
        ensures
            names@.len() == self.names().len(),
            forall|i: int| 0 <= i < names@.len() ==> #[trigger] names@[i]@ == self.names()[i],
            self.lists_names(names@),
    {
        let names = copy_names(&self.keys);
        proof {
            assert forall|i: int, j: int| 0 <= i < j < names@.len() implies (#[trigger] names@[i])@
                != (#[trigger] names@[j])@ by {
                assert(names@[i]@ == self.keys@[i]@ && names@[j]@ == self.keys@[j]@);
            }
            assert forall|i: int| 0 <= i < names@.len() implies self.has_name(
                (#[trigger] names@[i])@,
            ) by {
                assert(names@[i]@ == self.keys@[i]@);
                assert(self.map@.contains_key(self.keys@[i]@));
            }
            assert forall|name: Seq<char>| #[trigger] self.has_name(name) implies exists|i: int|
                0 <= i < names@.len() && names@[i]@ == name by {
                let i = choose|i: int| 0 <= i < self.keys@.len() && self.keys@[i]@ == name;
                assert(names@[i]@ == name);
            }
        }
        names
    }

    /// Whether the names are read as numbers.
    pub fn has_numeric_ids(&self) -> (numeric: bool)
        ensures
            numeric == self.numeric_ids,
    {
        self.numeric_ids
    }

    /// Whether the identifiers that the names have are those that the mode
    /// gives them: in numeric mode the number that each name writes, in
    /// symbolic mode the place of each name. An empty vocabulary fits both
    /// modes, and every vocabulary fits its own.
    pub open spec fn fits_mode(&self, numeric_ids: bool) -> bool {
        if numeric_ids {
            forall|i: int|
                0 <= i < self.keys@.len() ==> numeric_id(#[trigger] self.keys@[i]@) == Some(
                    self.values@[i],
                )
        } else {
            forall|i: int| 0 <= i < self.values@.len() ==> #[trigger] self.values@[i] == i
        }
    }

    /// Every vocabulary fits its own mode.
    pub proof fn lemma_fits_own_mode(&self)
        requires
            self.wf(),
        ensures
            self.fits_mode(self.numeric_ids),
            self.names().len() == 0 ==> self.fits_mode(true) && self.fits_mode(false),
    {
    }

    /// Tells whether the vocabulary fits the mode, so that the mode can be
    /// set.
    pub fn can_take_mode(&self, numeric_ids: bool) -> (fits: bool)
        requires
            self.wf(),
        ensures
            fits == self.fits_mode(numeric_ids),
    {
        let mut i: usize = 0;
        while i < self.keys.len()
            invariant
                self.wf(),
                i <= self.keys@.len(),
                numeric_ids ==> forall|k: int|
                    0 <= k < i ==> numeric_id(#[trigger] self.keys@[k]@) == Some(self.values@[k]),
                !numeric_ids ==> forall|k: int| 0 <= k < i ==> #[trigger] self.values@[k] == k,
            decreases self.keys@.len() - i,
        {
            let fits_here = if numeric_ids {
                match parse_numeric_id(self.keys[i].as_str()) {
                    Some(id) => id == self.values[i],
                    None => false,
                }
            } else {
                self.values[i] as usize == i
            };
            if !fits_here {
                proof {
                    if numeric_ids {
                        assert(numeric_id(self.keys@[i as int]@) != Some(self.values@[i as int]));
                    } else {
                        assert(self.values@[i as int] != i);
                    }
                }
                return false;
            }
            i += 1;
        }
        true
    }

    /// Sets the mode, numeric or symbolic. Names, identifiers and mappings
    /// stay as they are, so the vocabulary has to fit the mode that is set:
    /// an empty vocabulary takes either.
    pub fn set_numeric_ids(self, numeric_ids: bool) -> (v: Vocabulary)
        requires
            self.wf(),
            self.fits_mode(numeric_ids),
        ensures
            v.wf(),
            v.names() == self.names(),
            v.ids() == self.ids(),
            v.map@ == self.map@,
            v.reverse_map@ == self.reverse_map@,
            v.numeric_ids == numeric_ids,
    {
        let mut v = self;
        v.numeric_ids = numeric_ids;
        v
    }
}

/// A copy of a list of names.
pub fn copy_names(names: &Vec<String>) -> (copy: Vec<String>)
    ensures
        copy@.len() == names@.len(),
        forall|i: int| 0 <= i < copy@.len() ==> #[trigger] copy@[i]@ == names@[i]@,
{
    let mut copy: Vec<String> = Vec::new();
    let mut i: usize = 0;
    while i < names.len()
        invariant
            i <= names@.len(),
            copy@.len() == i,
            forall|k: int| 0 <= k < i ==> #[trigger] copy@[k]@ == names@[k]@,
        decreases names@.len() - i,
    {
        copy.push(names[i].clone());
        i += 1;
    }
    copy
}

} // verus!

verus! {

/// A vector of `len` empty names.
fn empty_names(len: usize) -> (names: Vec<String>)
    ensures
        names@.len() == len,
{
    let mut names: Vec<String> = Vec::new();
    let mut i: usize = 0;
    while i < len
        invariant
            i <= len,
            names@.len() == i,
        decreases len - i,
    {
        names.push(String::new());
        i += 1;
    }
    names
}

/// A vector of `len` flags, none of them set.
fn cleared_flags(len: usize) -> (flags: Vec<bool>)
    ensures
        flags@.len() == len,
        forall|i: int| 0 <= i < len ==> !flags@[i],
{
    let mut flags: Vec<bool> = Vec::new();
    let mut i: usize = 0;
    while i < len
        invariant
            i <= len,
            flags@.len() == i,
            forall|k: int| 0 <= k < i ==> !flags@[k],
        decreases len - i,
    {
        flags.push(false);
        i += 1;
    }
    flags
}

impl Vocabulary {
    /// Builds the mapping from identifiers back to names.
    ///
    /// It fails, and leaves the vocabulary as it was, where the identifiers do
    /// not cover `0..len` exactly once each, which only numeric names can
    /// cause. After success every identifier below `len` translates to the
    /// name that it was given for.
    pub fn build_reverse_mapping(&mut self) -> (r: Result<(), GraphError>)
        requires
            old(self).wf(),
        ensures
            final(self).wf(),
            final(self).names() == old(self).names(),
            final(self).ids() == old(self).ids(),
            final(self).map@ == old(self).map@,
            final(self).numeric_ids == old(self).numeric_ids,
            final(self).model() == old(self).model(),
            r is Ok <==> old(self).dense(),
            r is Ok ==> final(self).reverse_built(),
            r is Err ==> r == Err::<(), GraphError>(GraphError::NotDense) && final(self).reverse_map@
                == old(self).reverse_map@,
    {
        let len = self.keys.len();
        let mut reverse: Vec<String> = empty_names(len);
        let mut taken: Vec<bool> = cleared_flags(len);
        let ghost mut marks: Seq<int> = Seq::new(len as nat, |i: int| 0int);
        let ghost mut owner: Seq<int> = Seq::new(len as nat, |i: int| -1int);
        proof {
            lemma_no_marks(len as nat);
        }
        let mut i: usize = 0;
        while i < len
            invariant
                i <= len,
                len == self.keys@.len(),
                *self == *old(self),
                self.wf(),
                reverse@.len() == len,
                taken@.len() == len,
                marks.len() == len,
                owner.len() == len,
                label_count(marks, 1) == i,
                forall|id: int| 0 <= id < len ==> (#[trigger] taken@[id] <==> marks[id] == 1),
                forall|id: int|
                    0 <= id < len && #[trigger] taken@[id] ==> 0 <= owner[id] < i && self.values@[owner[id]]
                        == id && reverse@[id]@ == self.keys@[owner[id]]@,
                forall|k: int|
                    0 <= k < i ==> #[trigger] self.values@[k] < len && taken@[self.values@[k] as int]
                        && owner[self.values@[k] as int] == k,
            decreases len - i,
        {
            let id: NodeT = self.values[i];
            if id as usize >= len {
                return Err(GraphError::NotDense);
            }
            if taken[id as usize] {
                proof {
                    let k = owner[id as int];
                    assert(self.values@[k] == self.values@[i as int]);
                }
                return Err(GraphError::NotDense);
            }
            proof {
                lemma_count_update(marks, id as int, 1, 1);
                marks = marks.update(id as int, 1);
                owner = owner.update(id as int, i as int);
            }
            reverse.set(id as usize, self.keys[i].clone());
            taken.set(id as usize, true);
            i += 1;
        }
        proof {
            lemma_count_full(marks, 1);
            assert forall|a: int, b: int| 0 <= a < b < self.values@.len() implies #[trigger] self.values@[a]
                != #[trigger] self.values@[b] by {
                assert(owner[self.values@[a] as int] == a);
                assert(owner[self.values@[b] as int] == b);
            }
            assert forall|id: int| 0 <= id < reverse@.len() implies self.map@.contains_key(
                #[trigger] reverse@[id]@,
            ) && self.map@[reverse@[id]@] == id by {
                assert(taken@[id]);
                let k = owner[id];
                assert(self.map@.contains_key(self.keys@[k]@));
            }
        }
        self.reverse_map = reverse;
        Ok(())
    }
}

/// A sequence of zeros holds no one.
proof fn lemma_no_marks(len: nat)
    ensures
        label_count(Seq::new(len, |i: int| 0int), 1) == 0,
    decreases len,
{
    if len > 0 {
        assert(Seq::new(len, |i: int| 0int).drop_last() =~= Seq::new((len - 1) as nat, |i: int| 0int));
        lemma_no_marks((len - 1) as nat);
    }
}

} // verus!
