//! The symbol table: element names mapped to their resolved values.
//! It lives for one translation run; a name, once stored, is never
//! overwritten by the translator, which checks for the name first.

use crate::text::str_eq;
use vstd::prelude::*;

verus! {

/// The map denoted by a list of entries: each pair inserted in order,
/// later pairs overriding earlier ones.
pub open spec fn entries_map(es: Seq<(String, String)>) -> Map<Seq<char>, Seq<char>>
    decreases es.len(),
{
    if es.len() == 0 {
        Map::empty()
    } else {
        entries_map(es.drop_last()).insert(es.last().0@, es.last().1@)
    }
}

/// A mapping from element names to their resolved string values,
/// abstracted as a `Map<Seq<char>, Seq<char>>`.
pub struct SymbolTable {
    entries: Vec<(String, String)>,
}

impl View for SymbolTable {
    type V = Map<Seq<char>, Seq<char>>;

    closed spec fn view(&self) -> Map<Seq<char>, Seq<char>> {
        entries_map(self.entries@)
    }
}

impl SymbolTable {
    /// An empty table.
    pub fn new() -> (t: SymbolTable)
        ensures
            t@ == Map::<Seq<char>, Seq<char>>::empty(),
    {
        SymbolTable { entries: Vec::new() }
    }

    /// The value stored under `name`, if any.
    pub fn get(&self, name: &str) -> (r: Option<String>)
        ensures
            match r {
                Some(v) => self@.contains_key(name@) && v@ == self@[name@],
                None => !self@.contains_key(name@),
            },
    {
        let ghost es = self.entries@;
        let mut i: usize = self.entries.len();
        proof {
            assert(es.take(i as int) =~= es);
        }
        while i > 0
            invariant
                es == self.entries@,
                0 <= i <= es.len(),
                entries_map(es.take(i as int)).contains_key(name@) == entries_map(
                    es,
                ).contains_key(name@),
                entries_map(es.take(i as int)).contains_key(name@) ==> entries_map(
                    es.take(i as int),
                )[name@] == entries_map(es)[name@],
            decreases i,
        {
            let j = i - 1;
            proof {
                assert(es.take(i as int).drop_last() =~= es.take(j as int));
                assert(es.take(i as int).last() == es[j as int]);
            }
            if str_eq(self.entries[j].0.as_str(), name) {
                return Some(self.entries[j].1.clone());
            }
            i = j;
        }
        proof {
            assert(es.take(0) =~= Seq::<(String, String)>::empty());
        }
        None
    }

    /// Whether `name` is stored.
    pub fn contains_key(&self, name: &str) -> (r: bool)
        ensures
            r == self@.contains_key(name@),
    {
        match self.get(name) {
            Some(_) => true,
            None => false,
        }
    }

    /// Store `value` under `name`.
    pub fn insert(&mut self, name: String, value: String)
        ensures
            final(self)@ == old(self)@.insert(name@, value@),
    {
        let ghost es = self.entries@;
        self.entries.push((name, value));
        proof {
            assert(self.entries@.drop_last() =~= es);
        }
    }
}

} // verus!
