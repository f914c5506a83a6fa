use vstd::prelude::*;

verus! {

/// A mapping from variable names to string values.
///
/// It is backed by a vector of key/value pairs whose keys are pairwise
/// distinct, so that callers can both look a name up and walk all bound
/// variables. Its mathematical content is the `Map<Seq<char>, Seq<char>>`
/// returned by the view.
pub struct VarMap {
    entries: Vec<(String, String)>,
}

/// The mathematical map described by a sequence of key/value pairs; a later
/// pair wins over an earlier one with the same key.
pub open spec fn map_of_entries(entries: Seq<(String, String)>) -> Map<Seq<char>, Seq<char>>
    decreases entries.len(),
{
    if entries.len() == 0 {
        Map::empty()
    } else {
        map_of_entries(entries.drop_last()).insert(entries.last().0@, entries.last().1@)
    }
}

/// No two pairs of the sequence bind the same name.
pub open spec fn distinct_keys(entries: Seq<(String, String)>) -> bool {
    forall|i: int, j: int| 0 <= i < j < entries.len() ==> entries[i].0@ != entries[j].0@
}

impl View for VarMap {
    type V = Map<Seq<char>, Seq<char>>;

    closed spec fn view(&self) -> Map<Seq<char>, Seq<char>> {
        map_of_entries(self.entries@)
    }
}

proof fn lemma_map_of_entries_dom(entries: Seq<(String, String)>, k: Seq<char>)
    ensures
        map_of_entries(entries).contains_key(k) <==> (exists|i: int|
            0 <= i < entries.len() && entries[i].0@ == k),
    decreases entries.len(),
{
    if entries.len() > 0 {
        lemma_map_of_entries_dom(entries.drop_last(), k);
        if entries.last().0@ == k {
            assert(entries[entries.len() - 1].0@ == k);
        } else if map_of_entries(entries).contains_key(k) {
            let i = choose|i: int| 0 <= i < entries.drop_last().len() && entries.drop_last()[i].0@ == k;
            assert(entries[i].0@ == k);
        } else if exists|i: int| 0 <= i < entries.len() && entries[i].0@ == k {
            let i = choose|i: int| 0 <= i < entries.len() && entries[i].0@ == k;
            assert(entries.drop_last()[i].0@ == k);
        }
    }
}

proof fn lemma_map_of_entries_at(entries: Seq<(String, String)>, i: int)
    requires
        distinct_keys(entries),
        0 <= i < entries.len(),
    ensures
        map_of_entries(entries).contains_key(entries[i].0@),
        map_of_entries(entries)[entries[i].0@] == entries[i].1@,
    decreases entries.len(),
{
    if i < entries.len() - 1 {
        assert(distinct_keys(entries.drop_last())) by {
            assert(forall|p: int, q: int|
                0 <= p < q < entries.drop_last().len() ==> entries.drop_last()[p].0@
                    == entries[p].0@ && entries.drop_last()[q].0@ == entries[q].0@);
        }
        lemma_map_of_entries_at(entries.drop_last(), i);
        assert(entries.drop_last()[i] == entries[i]);
        assert(entries[i].0@ != entries.last().0@);
    }
}

impl VarMap {
    #[verifier::type_invariant]
    spec fn wf(self) -> bool {
        distinct_keys(self.entries@)
    }

    /// An empty map.
    pub fn new() -> (r: VarMap)
        ensures
            r@ == Map::<Seq<char>, Seq<char>>::empty(),
    {
        VarMap { entries: Vec::new() }
    }

    /// The value bound to `key`, if any.
    pub fn get<'a>(&'a self, key: &String) -> (r: Option<&'a String>)
        ensures
            match r {
                Some(v) => self@.contains_key(key@) && v@ == self@[key@],
                None => !self@.contains_key(key@),
            },
    {
        proof {
            use_type_invariant(self);
        }
        let n = self.entries.len();
        let mut i: usize = 0;
        while i < n
            invariant
                n == self.entries.len(),
                i <= n,
                distinct_keys(self.entries@),
                self@ == map_of_entries(self.entries@),
                forall|j: int| 0 <= j < i ==> self.entries@[j].0@ != key@,
            decreases n - i,
        {
            if self.entries[i].0 == *key {
                proof {
                    lemma_map_of_entries_at(self.entries@, i as int);
                }
                return Some(&self.entries[i].1);
            }
            i += 1;
        }
        proof {
            lemma_map_of_entries_dom(self.entries@, key@);
        }
        None
    }

    /// Binds `key` to `value`, replacing any earlier binding of the same name.
    pub fn insert(&mut self, key: String, value: String)
        ensures
            final(self)@ == old(self)@.insert(key@, value@),
    {
        proof {
            use_type_invariant(&*self);
        }
        let mut entries: Vec<(String, String)> = Vec::new();
        core::mem::swap(&mut entries, &mut self.entries);
        let ghost orig = entries@;
        let n = entries.len();
        let mut i: usize = 0;
        while i < n
            invariant
                n == entries.len(),
                i <= n,
                entries@ == orig,
                distinct_keys(orig),
                map_of_entries(orig) == old(self)@,
                forall|j: int| 0 <= j < i ==> orig[j].0@ != key@,
            decreases n - i,
        {
            if entries[i].0 == key {
                proof {
                    lemma_map_of_entries_at(orig, i as int);
                    lemma_update_keeps_map(orig, i as int, (key, value));
                }
                entries.set(i, (key, value));
                self.entries = entries;
                return ;
            }
            i += 1;
        }
        entries.push((key, value));
        proof {
            assert(entries@.drop_last() == orig);
            assert(distinct_keys(entries@)) by {
                lemma_map_of_entries_dom(orig, key@);
            }
        }
        self.entries = entries;
    }

    /// All bindings, as key/value pairs with pairwise distinct keys.
    pub fn entries<'a>(&'a self) -> (r: &'a Vec<(String, String)>)
        ensures
            distinct_keys(r@),
            map_of_entries(r@) == self@,
            forall|i: int|
                0 <= i < r@.len() ==> self@.contains_key(#[trigger] r@[i].0@) && self@[r@[i].0@]
                    == r@[i].1@,
            forall|k: Seq<char>|
                self@.contains_key(k) ==> exists|i: int| 0 <= i < r@.len() && r@[i].0@ == k,
    {
        proof {
            use_type_invariant(self);
            assert forall|i: int| 0 <= i < self.entries@.len() implies self@.contains_key(
                #[trigger] self.entries@[i].0@,
            ) && self@[self.entries@[i].0@] == self.entries@[i].1@ by {
                lemma_map_of_entries_at(self.entries@, i);
            }
            assert forall|k: Seq<char>| self@.contains_key(k) implies exists|i: int|
                0 <= i < self.entries@.len() && self.entries@[i].0@ == k by {
                lemma_map_of_entries_dom(self.entries@, k);
            }
        }
        &self.entries
    }
}

proof fn lemma_update_keeps_map(entries: Seq<(String, String)>, i: int, pair: (String, String))
    requires
        distinct_keys(entries),
        0 <= i < entries.len(),
        entries[i].0@ == pair.0@,
    ensures
        distinct_keys(entries.update(i, pair)),
        map_of_entries(entries.update(i, pair)) == map_of_entries(entries).insert(
            pair.0@,
            pair.1@,
        ),
{
    let updated = entries.update(i, pair);
    assert(distinct_keys(updated)) by {
        assert(forall|p: int|
            0 <= p < entries.len() ==> #[trigger] updated[p].0@ == entries[p].0@);
    }
    assert forall|k: Seq<char>|
        map_of_entries(updated).contains_key(k)
            == map_of_entries(entries).insert(pair.0@, pair.1@).contains_key(k) by {
        lemma_map_of_entries_dom(updated, k);
        lemma_map_of_entries_dom(entries, k);
        if exists|p: int| 0 <= p < entries.len() && entries[p].0@ == k {
            let p = choose|p: int| 0 <= p < entries.len() && entries[p].0@ == k;
            assert(updated[p].0@ == k);
        }
        if exists|p: int| 0 <= p < updated.len() && updated[p].0@ == k {
            let p = choose|p: int| 0 <= p < updated.len() && updated[p].0@ == k;
            assert(entries[p].0@ == k || k == pair.0@);
        }
    }
    assert forall|k: Seq<char>| map_of_entries(updated).contains_key(k) implies map_of_entries(
        updated,
    )[k] == map_of_entries(entries).insert(pair.0@, pair.1@)[k] by {
        lemma_map_of_entries_dom(updated, k);
        let p = choose|p: int| 0 <= p < updated.len() && updated[p].0@ == k;
        lemma_map_of_entries_at(updated, p);
        if k != pair.0@ {
            assert(entries[p].0@ == k);
            lemma_map_of_entries_at(entries, p);
        } else {
            lemma_map_of_entries_at(updated, i);
        }
    }
    assert(map_of_entries(updated) =~= map_of_entries(entries).insert(pair.0@, pair.1@));
}

} // verus!
