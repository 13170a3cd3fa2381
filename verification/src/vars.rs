use vstd::prelude::*;

verus! {

/// A mapping from variable names to string values, as supplied to the
/// renderer for one recipient.
///
/// Entries are kept in insertion order; inserting an existing key again
/// shadows the earlier entry, so the view is the map built by folding the
/// insertions from first to last.
#[derive(Debug)]
pub struct VarMap {
    entries: Vec<(String, String)>,
}

/// The map denoted by a sequence of (key, value) entries: later entries win.
pub open spec fn map_of_entries(es: Seq<(String, String)>) -> Map<Seq<char>, Seq<char>>
    decreases es.len(),
{
    if es.len() == 0 {
        Map::empty()
    } else {
        map_of_entries(es.drop_last()).insert(es.last().0@, es.last().1@)
    }
}

/// If no entry carries the key, the denoted map does not contain it.
proof fn lemma_map_of_entries_absent(es: Seq<(String, String)>, k: Seq<char>)
    requires
        forall|j: int| 0 <= j < es.len() ==> es[j].0@ != k,
    ensures
        !map_of_entries(es).contains_key(k),
    decreases es.len(),
{
    if es.len() > 0 {
        lemma_map_of_entries_absent(es.drop_last(), k);
    }
}

/// The denoted map sends a key to the value of the last entry carrying it.
proof fn lemma_map_of_entries_found(es: Seq<(String, String)>, k: Seq<char>, i: int)
    requires
        0 <= i < es.len(),
        es[i].0@ == k,
        forall|j: int| i < j < es.len() ==> es[j].0@ != k,
    ensures
        map_of_entries(es).contains_key(k),
        map_of_entries(es)[k] == es[i].1@,
    decreases es.len(),
{
    if i == es.len() - 1 {
    } else {
        lemma_map_of_entries_found(es.drop_last(), k, i);
    }
}

impl View for VarMap {
    type V = Map<Seq<char>, Seq<char>>;

    closed spec fn view(&self) -> Map<Seq<char>, Seq<char>> {
        map_of_entries(self.entries@)
    }
}

impl VarMap {
    pub fn new() -> (r: VarMap)
        ensures
            r@ == Map::<Seq<char>, Seq<char>>::empty(),
    {
        VarMap { entries: Vec::new() }
    }

    pub fn insert(&mut self, key: String, value: String)
        ensures
            final(self)@ == old(self)@.insert(key@, value@),
    {
        self.entries.push((key, value));
        proof {
            assert(self.entries@.drop_last() == old(self).entries@);
        }
    }

    /// Looks a name up; the latest insertion of the name decides its value.
    pub fn get(&self, key: &String) -> (r: Option<&String>)
        ensures
            match r {
                Some(v) => self@.contains_key(key@) && v@ == self@[key@],
                None => !self@.contains_key(key@),
            },
    {
        let mut i: usize = self.entries.len();
        while i > 0
            invariant
                i <= self.entries.len(),
                forall|j: int| i <= j < self.entries.len() ==> self.entries@[j].0@ != key@,
            decreases i,
        {
            i = i - 1;
            if self.entries[i].0 == *key {
                proof {
                    lemma_map_of_entries_found(self.entries@, key@, i as int);
                }
                return Some(&self.entries[i].1);
            }
        }
        proof {
            lemma_map_of_entries_absent(self.entries@, key@);
        }
        None
    }
}

} // verus!
