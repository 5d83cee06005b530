//! A table from texts to texts: variable names and their values, variable
//! expressions and their expansions, substitution keys and their
//! replacements.

use vstd::prelude::*;
use vstd::string::StringExecFns;

verus! {

/// One entry of a table.
struct Entry {
    key: String,
    value: String,
}

/// A finite map from texts to texts. A later entry replaces an earlier one
/// with the same key.
pub struct Table {
    entries: Vec<Entry>,
}

/// The value that the latest entry with this key holds.
spec fn find(entries: Seq<Entry>, key: Seq<char>) -> Option<Seq<char>>
    decreases entries.len(),
{
    if entries.len() == 0 {
        None
    } else if entries.last().key@ == key {
        Some(entries.last().value@)
    } else {
        find(entries.drop_last(), key)
    }
}

impl View for Table {
    type V = Map<Seq<char>, Seq<char>>;

    closed spec fn view(&self) -> Map<Seq<char>, Seq<char>> {
        Map::new(
            |key: Seq<char>| find(self.entries@, key) is Some,
            |key: Seq<char>| find(self.entries@, key)->0,
        )
    }
}

impl Table {
    /// The empty table.
    pub fn new() -> (table: Table)
        ensures
            table@ == Map::<Seq<char>, Seq<char>>::empty(),
    {
        let table = Table { entries: Vec::new() };
        assert(table@ =~= Map::<Seq<char>, Seq<char>>::empty());
        table
    }

    /// Sets the value of `key`.
    pub fn insert(&mut self, key: &str, value: &str)
        ensures
            final(self)@ == old(self)@.insert(key@, value@),
    {
        self.entries.push(Entry { key: String::from_str(key), value: String::from_str(value) });
        proof {
            assert(self.entries@.drop_last() == old(self).entries@);
            assert(self@ =~= old(self)@.insert(key@, value@));
        }
    }

    /// The value of `key`, if it has one.
    pub fn get(&self, key: &str) -> (value: Option<&str>)
        ensures
            match value {
                Some(text) => self@.contains_key(key@) && self@[key@] == text@,
                None => !self@.contains_key(key@),
            },
    {
        let wanted = String::from_str(key);
        let mut i: usize = self.entries.len();
        assert(self.entries@.take(i as int) == self.entries@);
        while i > 0
            invariant
                i <= self.entries.len(),
                wanted@ == key@,
                find(self.entries@, key@) == find(self.entries@.take(i as int), key@),
            decreases i,
        {
            i -= 1;
            proof {
                assert(self.entries@.take(i + 1).drop_last() == self.entries@.take(i as int));
            }
            if self.entries[i].key == wanted {
                return Some(self.entries[i].value.as_str());
            }
        }
        None
    }
}

} // verus!
