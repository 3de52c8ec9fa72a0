use vstd::prelude::*;

verus! {

/// A hash map from names to words (hashbrown's `HashMap<String, i16>`).
#[verifier::external_body]
pub struct SymbolTable {
    inner: hashbrown::HashMap<String, i16>,
}

/// The entries of a `SymbolTable`.
pub uninterp spec fn symbol_entries(m: SymbolTable) -> Map<Seq<char>, i16>;

impl SymbolTable {
    /// An empty map (hashbrown's `HashMap::new`).
    #[verifier::external_body]
    pub fn new() -> (m: SymbolTable)
        ensures
            symbol_entries(m).dom().is_empty(),
    {
        SymbolTable { inner: hashbrown::HashMap::new() }
    }

    /// Inserts or replaces the entry of `key` (hashbrown's `HashMap::insert`).
    #[verifier::external_body]
    pub fn insert(&mut self, key: &str, value: i16)
        ensures
            symbol_entries(*final(self)) == symbol_entries(*old(self)).insert(key@, value),
    {
        self.inner.insert(key.to_owned(), value);
    }

    /// The value of `key`, if it has an entry (hashbrown's `HashMap::get`).
    #[verifier::external_body]
    pub fn get(&self, key: &str) -> (r: Option<i16>)
        ensures
            r == (if symbol_entries(*self).dom().contains(key@) {
                Some(symbol_entries(*self)[key@])
            } else {
                None
            }),
    {
        self.inner.get(key).copied()
    }
}

/// A hash map from names to indices (hashbrown's `HashMap<String, usize>`).
#[verifier::external_body]
pub struct IndexMap {
    inner: hashbrown::HashMap<String, usize>,
}

/// The entries of an `IndexMap`.
pub uninterp spec fn index_entries(m: IndexMap) -> Map<Seq<char>, usize>;

impl IndexMap {
    /// An empty map (hashbrown's `HashMap::new`).
    #[verifier::external_body]
    pub fn new() -> (m: IndexMap)
        ensures
            index_entries(m).dom().is_empty(),
    {
        IndexMap { inner: hashbrown::HashMap::new() }
    }

    /// Inserts or replaces the entry of `key` (hashbrown's `HashMap::insert`).
    #[verifier::external_body]
    pub fn insert(&mut self, key: &str, value: usize)
        ensures
            index_entries(*final(self)) == index_entries(*old(self)).insert(key@, value),
    {
        self.inner.insert(key.to_owned(), value);
    }

    /// The value of `key`, if it has an entry (hashbrown's `HashMap::get`).
    #[verifier::external_body]
    pub fn get(&self, key: &str) -> (r: Option<usize>)
        ensures
            r == (if index_entries(*self).dom().contains(key@) {
                Some(index_entries(*self)[key@])
            } else {
                None
            }),
    {
        self.inner.get(key).copied()
    }
}

impl Clone for IndexMap {
    /// A copy with the same entries (hashbrown's `HashMap::clone`).
    #[verifier::external_body]
    fn clone(&self) -> (r: Self)
        ensures
            index_entries(r) == index_entries(*self),
    {
        IndexMap { inner: self.inner.clone() }
    }
}

/// A hash map from names to counts (hashbrown's `HashMap<String, u64>`).
#[verifier::external_body]
pub struct CallCounts {
    inner: hashbrown::HashMap<String, u64>,
}

/// The entries of a `CallCounts`.
pub uninterp spec fn count_entries(m: CallCounts) -> Map<Seq<char>, u64>;

impl CallCounts {
    /// An empty map (hashbrown's `HashMap::new`).
    #[verifier::external_body]
    pub fn new() -> (m: CallCounts)
        ensures
            count_entries(m).dom().is_empty(),
    {
        CallCounts { inner: hashbrown::HashMap::new() }
    }

    /// Inserts or replaces the entry of `key` (hashbrown's `HashMap::insert`).
    #[verifier::external_body]
    pub fn insert(&mut self, key: &str, value: u64)
        ensures
            count_entries(*final(self)) == count_entries(*old(self)).insert(key@, value),
    {
        self.inner.insert(key.to_owned(), value);
    }

    /// The value of `key`, if it has an entry (hashbrown's `HashMap::get`).
    #[verifier::external_body]
    pub fn get(&self, key: &str) -> (r: Option<u64>)
        ensures
            r == (if count_entries(*self).dom().contains(key@) {
                Some(count_entries(*self)[key@])
            } else {
                None
            }),
    {
        self.inner.get(key).copied()
    }

    /// All entries, each key once, in the map's iteration order (hashbrown's
    /// `HashMap::iter`); that order depends on the hasher's seed and is left open.
    #[verifier::external_body]
    pub fn entries(&self) -> (v: Vec<(String, u64)>)
        ensures
            forall|i: int|
                0 <= i < v@.len() ==> count_entries(*self).dom().contains(#[trigger] v@[i].0@)
                    && count_entries(*self)[v@[i].0@] == v@[i].1,
            forall|k: Seq<char>|
                count_entries(*self).dom().contains(k) ==> exists|i: int|
                    0 <= i < v@.len() && #[trigger] v@[i].0@ == k,
            forall|i: int, j: int| 0 <= i < j < v@.len() ==> #[trigger] v@[i].0@ != #[trigger] v@[j].0@,
    {
        self.inner.iter().map(|(k, c)| (k.clone(), *c)).collect()
    }
}

impl Clone for CallCounts {
    /// A copy with the same entries (hashbrown's `HashMap::clone`).
    #[verifier::external_body]
    fn clone(&self) -> (r: Self)
        ensures
            count_entries(r) == count_entries(*self),
    {
        CallCounts { inner: self.inner.clone() }
    }
}

/// A hash map from words to words (hashbrown's `HashMap<i16, i16>`).
#[verifier::external_body]
pub struct WordMap {
    inner: hashbrown::HashMap<i16, i16>,
}

/// The entries of a `WordMap`.
pub uninterp spec fn word_entries(m: WordMap) -> Map<i16, i16>;

impl WordMap {
    /// An empty map (hashbrown's `HashMap::new`).
    #[verifier::external_body]
    pub fn new() -> (m: WordMap)
        ensures
            word_entries(m).dom().is_empty(),
    {
        WordMap { inner: hashbrown::HashMap::new() }
    }

    /// Inserts or replaces the entry of `key` (hashbrown's `HashMap::insert`).
    #[verifier::external_body]
    pub fn insert(&mut self, key: i16, value: i16)
        ensures
            word_entries(*final(self)) == word_entries(*old(self)).insert(key, value),
    {
        self.inner.insert(key, value);
    }

    /// Removes the entry of `key` and returns its value, if it had one (hashbrown's
    /// `HashMap::remove`).
    #[verifier::external_body]
    pub fn remove(&mut self, key: i16) -> (r: Option<i16>)
        ensures
            r == (if word_entries(*old(self)).dom().contains(key) {
                Some(word_entries(*old(self))[key])
            } else {
                None
            }),
            word_entries(*final(self)) == word_entries(*old(self)).remove(key),
    {
        self.inner.remove(&key)
    }

    /// All entries, each key once, in the map's iteration order (hashbrown's
    /// `HashMap::iter`); that order depends on the hasher's seed and is left open.
    #[verifier::external_body]
    pub fn entries(&self) -> (v: Vec<(i16, i16)>)
        ensures
            forall|i: int|
                0 <= i < v@.len() ==> word_entries(*self).dom().contains(#[trigger] v@[i].0)
                    && word_entries(*self)[v@[i].0] == v@[i].1,
            forall|k: i16|
                word_entries(*self).dom().contains(k) ==> exists|i: int|
                    0 <= i < v@.len() && #[trigger] v@[i].0 == k,
            forall|i: int, j: int| 0 <= i < j < v@.len() ==> #[trigger] v@[i].0 != #[trigger] v@[j].0,
    {
        self.inner.iter().map(|(k, v)| (*k, *v)).collect()
    }
}

impl Clone for WordMap {
    /// A copy with the same entries (hashbrown's `HashMap::clone`).
    #[verifier::external_body]
    fn clone(&self) -> (r: Self)
        ensures
            word_entries(r) == word_entries(*self),
    {
        WordMap { inner: self.inner.clone() }
    }
}

} // verus!
