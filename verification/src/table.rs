//! A table of named text values: request parameters, secrets, volume contexts,
//! child-process environments.
//!
//! A table keeps its settings in the order in which they were made; a later
//! setting of a name replaces an earlier one.

use vstd::prelude::*;

use crate::text;

verus! {

/// What a list of settings says: for each name, the last value set.
pub open spec fn settings(s: Seq<(Seq<char>, Seq<char>)>) -> Map<Seq<char>, Seq<char>>
    decreases s.len(),
{
    if s.len() == 0 {
        Map::empty()
    } else {
        settings(s.drop_last()).insert(s.last().0, s.last().1)
    }
}

/// The texts of a list of pairs of strings.
pub open spec fn pairs(v: Seq<(String, String)>) -> Seq<(Seq<char>, Seq<char>)> {
    v.map_values(|p: (String, String)| (p.0@, p.1@))
}

/// The value under a name, if there is one.
pub open spec fn value(m: Map<Seq<char>, Seq<char>>, name: Seq<char>) -> Option<Seq<char>> {
    if m.contains_key(name) {
        Some(m[name])
    } else {
        None
    }
}

/// `m` with `name` set to `v` when there is such a value, unchanged otherwise.
pub open spec fn with(
    m: Map<Seq<char>, Seq<char>>,
    name: Seq<char>,
    v: Option<Seq<char>>,
) -> Map<Seq<char>, Seq<char>> {
    match v {
        Some(x) => m.insert(name, x),
        None => m,
    }
}

/// A value, unless it is empty.
pub open spec fn filled(v: Option<Seq<char>>) -> Option<Seq<char>> {
    match v {
        Some(s) => if s.len() > 0 {
            Some(s)
        } else {
            None
        },
        None => None,
    }
}

/// `v`, unless it is empty.
pub fn keep_filled(v: Option<String>) -> (r: Option<String>)
    ensures
        text::opt_view(r) == filled(text::opt_view(v)),
{
    match v {
        Some(s) => if s.as_str().is_empty() {
            None
        } else {
            Some(s)
        },
        None => None,
    }
}

/// Named text values.
#[derive(Debug)]
pub struct Table {
    entries: Vec<(String, String)>,
}

impl View for Table {
    type V = Map<Seq<char>, Seq<char>>;

    closed spec fn view(&self) -> Map<Seq<char>, Seq<char>> {
        settings(pairs(self.entries@))
    }
}

impl Default for Table {
    fn default() -> (r: Self)
        ensures
            r@ == Map::<Seq<char>, Seq<char>>::empty(),
    {
        Table::new()
    }
}

impl Table {
    /// An empty table.
    pub fn new() -> (r: Table)
        ensures
            r@ == Map::<Seq<char>, Seq<char>>::empty(),
    {
        Table { entries: Vec::new() }
    }

    /// A table from a list of settings.
    pub fn of(entries: Vec<(String, String)>) -> (r: Table)
        ensures
            r@ == settings(pairs(entries@)),
    {
        Table { entries }
    }

    /// Set `name` to `v`.
    pub fn insert(&mut self, name: &str, v: String)
        ensures
            final(self)@ == old(self)@.insert(name@, v@),
    {
        let ghost before = self.entries@;
        let ghost pair = (name@, v@);
        self.entries.push((name.to_owned(), v));
        proof {
            assert(pairs(self.entries@) == pairs(before).push(pair));
            assert(pairs(before).push(pair).drop_last() == pairs(before));
        }
    }

    /// Set `name` to a copy of `v` when there is one.
    pub fn insert_opt(&mut self, name: &str, v: &Option<String>)
        ensures
            final(self)@ == with(old(self)@, name@, text::opt_view(*v)),
    {
        match v {
            Some(x) => {
                self.insert(name, x.clone());
            },
            None => {},
        }
    }

    /// The value under `name`.
    pub fn get(&self, name: &str) -> (r: Option<String>)
        ensures
            text::opt_view(r) == value(self@, name@),
    {
        let mut i: usize = self.entries.len();
        let ghost all = pairs(self.entries@);
        assert(all.take(all.len() as int) == all);
        while i > 0
            invariant
                i <= self.entries@.len(),
                all == pairs(self.entries@),
                value(self@, name@) == value(settings(all.take(i as int)), name@),
            decreases i,
        {
            proof {
                let part = all.take(i as int);
                assert(part.drop_last() == all.take(i - 1));
                assert(part.last() == all[i - 1]);
            }
            i = i - 1;
            if text::same(self.entries[i].0.as_str(), name) {
                return Some(self.entries[i].1.clone());
            }
        }
        None
    }

    /// The value under `name`, unless it is empty.
    pub fn get_filled(&self, name: &str) -> (r: Option<String>)
        ensures
            text::opt_view(r) == filled(value(self@, name@)),
    {
        keep_filled(self.get(name))
    }

    /// The value under `name`, or `default` without one.
    pub fn get_or(&self, name: &str, default: &str) -> (r: String)
        ensures
            r@ == (match value(self@, name@) {
                Some(v) => v,
                None => default@,
            }),
    {
        match self.get(name) {
            Some(v) => v,
            None => default.to_owned(),
        }
    }

    /// The settings in the order in which they were made.
    pub fn entries(&self) -> (r: &Vec<(String, String)>)
        ensures
            settings(pairs(r@)) == self@,
    {
        &self.entries
    }
}

/// One setting more decides what its name stands for, and no other name.
pub proof fn the_last_setting_of_a_name_counts(
    s: Seq<(Seq<char>, Seq<char>)>,
    name: Seq<char>,
    v: Seq<char>,
    other: Seq<char>,
)
    ensures
        value(settings(Seq::empty()), name) is None,
        value(settings(s.push((name, v))), name) == Some(v),
        other != name ==> value(settings(s.push((name, v))), other) == value(settings(s), other),
{
    assert(s.push((name, v)).drop_last() =~= s);
}

/// An optional setting: a value is set under its name and nowhere else; without one
/// the table stays as it is.
pub proof fn an_optional_setting_is_made_where_there_is_one(
    m: Map<Seq<char>, Seq<char>>,
    name: Seq<char>,
    v: Option<Seq<char>>,
    other: Seq<char>,
)
    ensures
        v is Some ==> value(with(m, name, v), name) == v,
        v is None ==> with(m, name, v) == m,
        other != name ==> value(with(m, name, v), other) == value(m, other),
{
}

/// Only an empty value is dropped.
pub proof fn only_an_empty_value_is_dropped(v: Option<Seq<char>>)
    ensures
        filled(v) is None <==> v is None || v == Some(Seq::<char>::empty()),
        filled(v) is Some ==> filled(v) == v,
{
    if let Some(s) = v {
        if s.len() == 0 {
            assert(s =~= Seq::<char>::empty());
        }
    }
}

} // verus!
