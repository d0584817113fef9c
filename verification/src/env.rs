//! The evaluator's variable environment: named values, later bindings
//! shadowing none because names are kept unique.

use vstd::prelude::*;
use crate::value::{Value, ValueV, value_view, value_wf};

verus! {

/// A name-to-value binding list with unique names, viewed as a map from
/// character sequences to value shapes.
pub struct VarMap {
    pub entries: Vec<(String, Value)>,
}

/// The map a binding list denotes; later bindings win.
pub open spec fn bindings_map(s: Seq<(String, Value)>) -> Map<Seq<char>, ValueV>
    decreases s,
{
    if s.len() == 0 {
        Map::empty()
    } else {
        bindings_map(s.drop_last()).insert(s.last().0@, value_view(s.last().1))
    }
}

/// No two bindings share a name.
pub open spec fn bindings_unique(s: Seq<(String, Value)>) -> bool {
    forall|i: int, j: int| 0 <= i < j < s.len() ==> s[i].0@ != s[j].0@
}

/// Every bound value is well-formed.
pub open spec fn bindings_wf(s: Seq<(String, Value)>) -> bool {
    forall|i: int| 0 <= i < s.len() ==> value_wf(#[trigger] value_view(s[i].1))
}

/// A key is in the map exactly when some binding carries it, and the
/// bound value is that binding's (names being unique).
pub proof fn lemma_bindings_map_get(s: Seq<(String, Value)>, k: Seq<char>)
    requires
        bindings_unique(s),
    ensures
        bindings_map(s).contains_key(k) == (exists|i: int| 0 <= i < s.len() && #[trigger] s[i].0@ == k),
        forall|i: int| 0 <= i < s.len() && #[trigger] s[i].0@ == k
            ==> bindings_map(s).contains_key(k) && bindings_map(s)[k] == value_view(s[i].1),
    decreases s,
{
    if s.len() > 0 {
        assert(bindings_unique(s.drop_last()));
        lemma_bindings_map_get(s.drop_last(), k);
        if s.last().0@ == k {
        } else {
            assert forall|i: int| 0 <= i < s.len() && #[trigger] s[i].0@ == k
                implies bindings_map(s).contains_key(k) && bindings_map(s)[k] == value_view(s[i].1) by {
                assert(i < s.len() - 1);
                assert(s.drop_last()[i] == s[i]);
            }
            if bindings_map(s).contains_key(k) {
                let i = choose|i: int| 0 <= i < s.drop_last().len() && #[trigger] s.drop_last()[i].0@ == k;
                assert(s[i].0@ == k);
            }
        }
    }
}

impl VarMap {
    /// The map this environment denotes.
    pub open spec fn view_map(self) -> Map<Seq<char>, ValueV> {
        bindings_map(self.entries@)
    }

    /// Unique names, well-formed values.
    pub open spec fn wf(self) -> bool {
        bindings_unique(self.entries@) && bindings_wf(self.entries@)
    }

    /// An empty environment.
    pub fn new() -> (r: VarMap)
        ensures
            r.wf(),
            r.view_map() == Map::<Seq<char>, ValueV>::empty(),
            r.entries@.len() == 0,
    {
        VarMap { entries: Vec::new() }
    }

    /// Whether a name is bound.
    pub fn contains(&self, name: &str) -> (r: bool)
        requires
            self.wf(),
        ensures
            r == self.view_map().contains_key(name@),
    {
        let n = self.entries.len();
        let mut i: usize = 0;
        while i < n
            invariant
                n == self.entries@.len(),
                i <= n,
                bindings_unique(self.entries@),
                forall|j: int| 0 <= j < i ==> self.entries@[j].0@ != name@,
            decreases n - i,
        {
            if crate::trusted::str_eq(self.entries[i].0.as_str(), name) {
                proof {
                    lemma_bindings_map_get(self.entries@, name@);
                }
                return true;
            }
            i = i + 1;
        }
        proof {
            lemma_bindings_map_get(self.entries@, name@);
        }
        false
    }

    /// The value bound to a name, copied out.
    pub fn lookup(&self, name: &str) -> (r: Option<Value>)
        requires
            self.wf(),
        ensures
            match r {
                Some(v) => self.view_map().contains_key(name@)
                    && value_view(v) == self.view_map()[name@]
                    && value_wf(value_view(v)),
                None => !self.view_map().contains_key(name@),
            },
    {
        let n = self.entries.len();
        let mut i: usize = 0;
        while i < n
            invariant
                n == self.entries@.len(),
                i <= n,
                bindings_unique(self.entries@),
                bindings_wf(self.entries@),
                forall|j: int| 0 <= j < i ==> self.entries@[j].0@ != name@,
            decreases n - i,
        {
            if crate::trusted::str_eq(self.entries[i].0.as_str(), name) {
                proof {
                    lemma_bindings_map_get(self.entries@, name@);
                }
                return Some(self.entries[i].1.dup());
            }
            i = i + 1;
        }
        proof {
            lemma_bindings_map_get(self.entries@, name@);
        }
        None
    }

    /// Binds a fresh name.
    pub fn insert(&mut self, name: String, value: Value)
        requires
            old(self).wf(),
            !old(self).view_map().contains_key(name@),
            value_wf(value_view(value)),
        ensures
            final(self).wf(),
            final(self).view_map() == old(self).view_map().insert(name@, value_view(value)),
            final(self).entries@.len() == old(self).entries@.len() + 1,
            final(self).entries@ == old(self).entries@.push((name, value)),
    {
        proof {
            lemma_bindings_map_get(self.entries@, name@);
        }
        self.entries.push((name, value));
        proof {
            assert(self.entries@.drop_last() =~= old(self).entries@);
        }
    }

    /// Drops every binding past the first `n`.
    pub fn truncate_to(&mut self, n: usize)
        requires
            n <= old(self).entries@.len(),
        ensures
            final(self).entries@ == old(self).entries@.subrange(0, n as int),
    {
        self.entries.truncate(n);
    }

    /// How many bindings are held.
    pub fn len(&self) -> (r: usize)
        ensures
            r == self.entries@.len(),
    {
        self.entries.len()
    }
}

} // verus!
