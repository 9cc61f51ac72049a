use vstd::prelude::*;

verus! {

/// The first position at or after `from` whose key is `k`, or -1.
pub open spec fn index_of_key(s: Seq<(Seq<char>, Seq<char>)>, k: Seq<char>, from: int) -> int
    decreases s.len() - from,
{
    if from < 0 || from >= s.len() {
        -1
    } else if s[from].0 == k {
        from
    } else {
        index_of_key(s, k, from + 1)
    }
}

/// The value stored under `k`, if any.
pub open spec fn table_get(s: Seq<(Seq<char>, Seq<char>)>, k: Seq<char>) -> Option<Seq<char>> {
    let i = index_of_key(s, k, 0);
    if i >= 0 {
        Some(s[i].1)
    } else {
        None
    }
}

/// The table after storing `v` under `k`: the entry of `k` keeps its place
/// and takes the new value; a new key goes last.
pub open spec fn table_insert(s: Seq<(Seq<char>, Seq<char>)>, k: Seq<char>, v: Seq<char>) -> Seq<(Seq<char>, Seq<char>)> {
    let i = index_of_key(s, k, 0);
    if i >= 0 {
        s.update(i, (k, v))
    } else {
        s.push((k, v))
    }
}

/// No key occurs twice.
pub open spec fn keys_distinct(s: Seq<(Seq<char>, Seq<char>)>) -> bool {
    forall|i: int, j: int| 0 <= i < s.len() && 0 <= j < s.len() && i != j ==> s[i].0 != s[j].0
}

/// Where the search for a key ends, and what it passes over.
pub proof fn lemma_index_of_key(s: Seq<(Seq<char>, Seq<char>)>, k: Seq<char>, from: int)
    requires
        0 <= from,
    ensures
        index_of_key(s, k, from) == -1 || (from <= index_of_key(s, k, from) < s.len()
            && s[index_of_key(s, k, from)].0 == k),
        index_of_key(s, k, from) == -1 <==> (forall|j: int| from <= j < s.len() ==> s[j].0 != k),
        index_of_key(s, k, from) >= 0 ==> (forall|j: int| from <= j < index_of_key(s, k, from) ==> s[j].0 != k),
    decreases s.len() - from,
{
    if from < s.len() && s[from].0 != k {
        lemma_index_of_key(s, k, from + 1);
    }
}

/// A table from strings to strings that keeps its keys in the order in
/// which they were first stored.
pub struct StringTable {
    pairs: Vec<(String, String)>,
}

impl View for StringTable {
    type V = Seq<(Seq<char>, Seq<char>)>;

    closed spec fn view(&self) -> Seq<(Seq<char>, Seq<char>)> {
        self.pairs@.map_values(|p: (String, String)| (p.0@, p.1@))
    }
}

impl StringTable {
    /// An empty table.
    pub fn new() -> (r: StringTable)
        ensures
            r@ == Seq::<(Seq<char>, Seq<char>)>::empty(),
    {
        let r = StringTable { pairs: Vec::new() };
        assert(r@ =~= Seq::<(Seq<char>, Seq<char>)>::empty());
        r
    }

    /// The number of keys.
    pub fn len(&self) -> (r: usize)
        ensures
            r == self@.len(),
    {
        self.pairs.len()
    }

    /// The position of `k`, if it is a key.
    fn find(&self, k: &String) -> (r: Option<usize>)
        ensures
            r matches Some(i) ==> i as int == index_of_key(self@, k@, 0),
            r is None ==> index_of_key(self@, k@, 0) == -1,
    {
        let mut i: usize = 0;
        while i < self.pairs.len()
            invariant
                i <= self@.len(),
                self@.len() == self.pairs@.len(),
                index_of_key(self@, k@, i as int) == index_of_key(self@, k@, 0),
            decreases self.pairs@.len() - i,
        {
            assert(self@[i as int].0 == self.pairs@[i as int].0@);
            if self.pairs[i].0 == *k {
                return Some(i);
            }
            i = i + 1;
        }
        None
    }

    /// Whether `k` is a key.
    pub fn contains_key(&self, k: &String) -> (r: bool)
        ensures
            r == (table_get(self@, k@) is Some),
    {
        proof {
            lemma_index_of_key(self@, k@, 0);
        }
        self.find(k).is_some()
    }

    /// The value stored under `k`, if any.
    pub fn get(&self, k: &String) -> (r: Option<String>)
        ensures
            r matches Some(v) ==> table_get(self@, k@) == Some(v@),
            r is None ==> table_get(self@, k@) is None,
    {
        proof {
            lemma_index_of_key(self@, k@, 0);
        }
        match self.find(k) {
            Some(i) => Some(self.pairs[i].1.clone()),
            None => None,
        }
    }

    /// The key and the value at position `i`.
    pub fn entry_at(&self, i: usize) -> (r: (String, String))
        requires
            i < self@.len(),
        ensures
            (r.0@, r.1@) == self@[i as int],
    {
        (self.pairs[i].0.clone(), self.pairs[i].1.clone())
    }

    /// Stores `v` under `k`.
    pub fn insert(&mut self, k: String, v: String)
        ensures
            final(self)@ == table_insert(old(self)@, k@, v@),
    {
        proof {
            lemma_index_of_key(self@, k@, 0);
        }
        let ghost k_view = k@;
        let ghost v_view = v@;
        match self.find(&k) {
            Some(i) => {
                let ghost before = self@;
                self.pairs.set(i, (k, v));
                assert(self@ =~= before.update(i as int, (k_view, v_view)));
            },
            None => {
                let ghost before = self@;
                self.pairs.push((k, v));
                assert(self@ =~= before.push((k_view, v_view)));
            },
        }
    }
}

} // verus!
