//! The name registry: every directory-qualified name or alias maps to
//! the node it was registered for.
//!
//! The registry itself accepts any registration; collision detection is
//! the duplicate-name gate's job and runs before registration starts.
//! When the same name is registered twice, the later registration wins on
//! lookup, so on collision-free input every name resolves to the one node
//! it was registered for.

use vstd::prelude::*;
use vstd::string::StringExecFns;

verus! {

/// A mapping from qualified names to node identifiers, kept as the plain
/// list of registrations.
pub struct NameRegistry {
    entries: Vec<(String, usize)>,
}

/// Looks a name up among registrations, newest first.
pub open spec fn spec_resolve_in(entries: Seq<(Seq<char>, usize)>, name: Seq<char>) -> Option<
    usize,
>
    decreases entries.len(),
{
    if entries.len() == 0 {
        None
    } else if entries.last().0 == name {
        Some(entries.last().1)
    } else {
        spec_resolve_in(entries.drop_last(), name)
    }
}

/// A successful lookup always comes from some registration.
pub proof fn lemma_resolve_is_entry(entries: Seq<(Seq<char>, usize)>, name: Seq<char>)
    requires
        spec_resolve_in(entries, name) is Some,
    ensures
        exists|k: int|
            0 <= k < entries.len() && #[trigger] entries[k] == (
            name,
            spec_resolve_in(entries, name)->Some_0,
            ),
    decreases entries.len(),
{
    if entries.len() > 0 {
        if entries.last().0 == name {
            assert(entries[entries.len() - 1] == (name, spec_resolve_in(entries, name)->Some_0));
        } else {
            lemma_resolve_is_entry(entries.drop_last(), name);
            let k = choose|k: int|
                0 <= k < entries.drop_last().len() && #[trigger] entries.drop_last()[k] == (
                name,
                spec_resolve_in(entries.drop_last(), name)->Some_0,
                );
            assert(entries[k] == (name, spec_resolve_in(entries, name)->Some_0));
        }
    }
}

/// Lookup in a concatenation: the later registrations win; only when
/// they miss does the lookup fall back to the earlier ones.
pub proof fn lemma_resolve_append(
    a: Seq<(Seq<char>, usize)>,
    b: Seq<(Seq<char>, usize)>,
    name: Seq<char>,
)
    ensures
        spec_resolve_in(a + b, name) == if spec_resolve_in(b, name) is Some {
            spec_resolve_in(b, name)
        } else {
            spec_resolve_in(a, name)
        },
    decreases b.len(),
{
    if b.len() == 0 {
        assert(a + b =~= a);
    } else {
        assert((a + b).last() == b.last());
        assert((a + b).drop_last() =~= a + b.drop_last());
        lemma_resolve_append(a, b.drop_last(), name);
    }
}

/// Lookup in one item's block of registrations, which all carry the same
/// node: a hit exactly when the block mentions the name.
pub proof fn lemma_resolve_block(names: Seq<Seq<char>>, id: usize, name: Seq<char>)
    ensures
        spec_resolve_in(names.map_values(|nm: Seq<char>| (nm, id)), name) == if names.contains(
            name,
        ) {
            Some(id)
        } else {
            None::<usize>
        },
    decreases names.len(),
{
    let block = names.map_values(|nm: Seq<char>| (nm, id));
    if names.len() == 0 {
        assert(!names.contains(name));
    } else {
        assert(block.last() == (names.last(), id));
        assert(block.drop_last() =~= names.drop_last().map_values(|nm: Seq<char>| (nm, id)));
        lemma_resolve_block(names.drop_last(), id, name);
        if names.last() == name {
            assert(names.contains(name));
        } else {
            assert(names.contains(name) == names.drop_last().contains(name)) by {
                if names.contains(name) {
                    let k = choose|k: int| 0 <= k < names.len() && names[k] == name;
                    assert(names.drop_last()[k] == name);
                }
                if names.drop_last().contains(name) {
                    let k = choose|k: int|
                        0 <= k < names.drop_last().len() && names.drop_last()[k] == name;
                    assert(names[k] == name);
                }
            }
        }
    }
}

impl NameRegistry {
    /// The registrations, in order, as (name, node) pairs.
    pub closed spec fn spec_entries(self) -> Seq<(Seq<char>, usize)> {
        self.entries@.map_values(|e: (String, usize)| (e.0@, e.1))
    }

    /// What the given name resolves to.
    pub open spec fn spec_resolve(self, name: Seq<char>) -> Option<usize> {
        spec_resolve_in(self.spec_entries(), name)
    }

    /// An empty registry.
    pub fn new() -> (r: NameRegistry)
        ensures
            r.spec_entries() == Seq::<(Seq<char>, usize)>::empty(),
    {
        let r = NameRegistry { entries: Vec::new() };
        proof {
            assert(r.spec_entries() =~= Seq::<(Seq<char>, usize)>::empty());
        }
        r
    }

    /// Records that `name` maps to node `id`.
    pub fn register(&mut self, name: String, id: usize)
        ensures
            final(self).spec_entries() == old(self).spec_entries().push((name@, id)),
    {
        let ghost name_view = name@;
        self.entries.push((name, id));
        proof {
            assert(self.spec_entries() =~= old(self).spec_entries().push((name_view, id)));
        }
    }

    /// Finds the node the name was last registered for, if any.
    pub fn resolve(&self, name: &str) -> (r: Option<usize>)
        ensures
            r == self.spec_resolve(name@),
    {
        let key = name.to_owned();
        let mut i: usize = self.entries.len();
        proof {
            assert(self.spec_entries().take(i as int) =~= self.spec_entries());
        }
        while i > 0
            invariant
                i <= self.entries@.len(),
                key@ == name@,
                spec_resolve_in(self.spec_entries().take(i as int), name@) == self.spec_resolve(
                    name@,
                ),
            decreases i,
        {
            let ghost pre = self.spec_entries().take(i as int);
            proof {
                assert(pre.last() == self.spec_entries()[i - 1]);
                assert(pre.drop_last() =~= self.spec_entries().take(i - 1));
            }
            if self.entries[i - 1].0 == key {
                return Some(self.entries[i - 1].1);
            }
            i = i - 1;
        }
        proof {
            assert(self.spec_entries().take(0) =~= Seq::<(Seq<char>, usize)>::empty());
        }
        None
    }
}

} // verus!
