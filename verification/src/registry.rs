//! The registry of index names: canonical names bound to index handles, and
//! aliases bound to other names. Lookups resolve alias chains.

use vstd::prelude::*;
use crate::assoc::{assoc_map_of, lemma_assoc_contains, lemma_assoc_index, lemma_assoc_update,
    lemma_assoc_remove};
use crate::index::Index;

verus! {

/// A dense handle to a registered index.
#[derive(Debug, Clone, Copy, Hash, PartialEq, Eq, Structural)]
pub struct IndexRef(pub u32);

/// What a registered name stands for.
#[derive(Debug)]
pub enum Name {
    /// This is the canonical name of an index.
    Canonical(IndexRef),
    /// This is an alias for another name.
    Alias(String),
}

/// The name stands for this index, canonically.
pub open spec fn is_canonical(n: Name, index_ref: IndexRef) -> bool {
    match n {
        Name::Canonical(ir) => ir == index_ref,
        Name::Alias(_) => false,
    }
}

/// The name is an alias for a name with these characters.
pub open spec fn is_alias(n: Name, selector: Seq<char>) -> bool {
    match n {
        Name::Canonical(_) => false,
        Name::Alias(s) => s@ == selector,
    }
}

/// The name is canonical, whatever it stands for.
pub open spec fn is_any_canonical(n: Name) -> bool {
    match n {
        Name::Canonical(_) => true,
        Name::Alias(_) => false,
    }
}

/// The handles a name stands for, following at most `fuel` alias steps.
/// A canonical name yields its handle; an alias follows the chain; an
/// unregistered name, or a chain longer than `fuel`, yields nothing.
pub open spec fn resolve_spec(m: Map<Seq<char>, Name>, n: Name, fuel: nat) -> Seq<IndexRef>
    decreases fuel,
{
    match n {
        Name::Canonical(ir) => seq![ir],
        Name::Alias(s) => if !m.contains_key(s@) {
            Seq::empty()
        } else if fuel == 0 {
            Seq::empty()
        } else {
            resolve_spec(m, m[s@], (fuel - 1) as nat)
        },
    }
}

/// The handles a looked-up name stands for.
pub open spec fn find_spec(m: Map<Seq<char>, Name>, selector: Seq<char>, fuel: nat) -> Seq<
    IndexRef,
> {
    if m.contains_key(selector) {
        resolve_spec(m, m[selector], fuel)
    } else {
        Seq::empty()
    }
}

/// Names bound to handles or to other names, each name bound once.
pub struct NameRegistry {
    names: Vec<(String, Name)>,
}

impl View for NameRegistry {
    type V = Map<Seq<char>, Name>;

    closed spec fn view(&self) -> Map<Seq<char>, Name> {
        assoc_map_of(self.names@)
    }
}

impl NameRegistry {
    /// Each name is bound at most once.
    pub closed spec fn wf(&self) -> bool {
        forall|i: int, j: int|
            0 <= i < self.names@.len() && 0 <= j < self.names@.len() && i != j
                ==> #[trigger] self.names@[i].0@ != #[trigger] self.names@[j].0@
    }

    /// How many names are bound: enough fuel for any alias chain.
    pub closed spec fn count(&self) -> nat {
        self.names@.len()
    }

    /// An empty registry.
    pub fn new() -> (r: NameRegistry)
        ensures
            r.wf(),
            r@ == Map::<Seq<char>, Name>::empty(),
    {
        NameRegistry { names: Vec::new() }
    }

    /// The position holding a name, if any.
    fn find_index(&self, name: &String) -> (r: Option<usize>)
        ensures
            match r {
                Some(i) => i < self.names@.len() && self.names@[i as int].0@ == name@,
                None => forall|j: int|
                    0 <= j < self.names@.len() ==> #[trigger] self.names@[j].0@ != name@,
            },
    {
        let mut i: usize = 0;
        while i < self.names.len()
            invariant
                0 <= i <= self.names@.len(),
                forall|j: int| 0 <= j < i ==> #[trigger] self.names@[j].0@ != name@,
            decreases self.names@.len() - i,
        {
            if self.names[i].0 == *name {
                return Some(i);
            }
            i = i + 1;
        }
        None
    }

    /// Binds a canonical name to a handle; a name already bound, canonically
    /// or as an alias, is refused.
    pub fn insert_canonical(&mut self, name: String, index_ref: IndexRef) -> (r: Result<(), ()>)
        requires
            old(self).wf(),
        ensures
            final(self).wf(),
            r is Ok <==> !old(self)@.contains_key(name@),
            r is Ok ==> final(self)@ == old(self)@.insert(name@, Name::Canonical(index_ref)),
            r is Err ==> final(self)@ == old(self)@ && final(self).count() == old(self).count(),
    {
        proof {
            lemma_assoc_contains(self.names@, name@);
        }
        if let Some(_) = self.find_index(&name) {
            return Err(());
        }
        let ghost s = self.names@;
        self.names.push((name, Name::Canonical(index_ref)));
        proof {
            assert(self.names@.drop_last() =~= s);
        }
        Ok(())
    }

    /// Unbinds a canonical name, provided it is bound to this very handle;
    /// anything else is refused.
    pub fn delete_canonical(&mut self, name: &String, index_ref: IndexRef) -> (r: Result<(), ()>)
        requires
            old(self).wf(),
        ensures
            final(self).wf(),
            r is Ok <==> old(self)@.contains_key(name@) && is_canonical(
                old(self)@[name@],
                index_ref,
            ),
            r is Ok ==> final(self)@ == old(self)@.remove(name@),
            r is Err ==> final(self)@ == old(self)@ && final(self).count() == old(self).count(),
    {
        proof {
            lemma_assoc_contains(self.names@, name@);
        }
        match self.find_index(name) {
            Some(i) => {
                proof {
                    lemma_assoc_index(self.names@, i as int);
                }
                let matches_ref = match &self.names[i].1 {
                    Name::Canonical(actual) => actual.0 == index_ref.0,
                    Name::Alias(_) => false,
                };
                if !matches_ref {
                    return Err(());
                }
                let ghost s = self.names@;
                proof {
                    lemma_assoc_remove(s, i as int);
                }
                self.names.remove(i);
                proof {
                    assert forall|x: int, y: int|
                        0 <= x < self.names@.len() && 0 <= y < self.names@.len() && x != y implies
                        #[trigger] self.names@[x].0@ != #[trigger] self.names@[y].0@ by {
                        let x0: int = if x < i { x } else { x + 1 };
                        let y0: int = if y < i { y } else { y + 1 };
                        assert(self.names@[x] == s[x0]);
                        assert(self.names@[y] == s[y0]);
                    }
                }
                Ok(())
            },
            None => Err(()),
        }
    }

    /// Binds an alias to a name; a name already bound is refused.
    pub fn insert_alias(&mut self, name: String, selector: String) -> (r: Result<(), ()>)
        requires
            old(self).wf(),
        ensures
            final(self).wf(),
            r is Ok <==> !old(self)@.contains_key(name@),
            r is Ok ==> final(self)@ == old(self)@.insert(name@, Name::Alias(selector)),
            r is Err ==> final(self)@ == old(self)@ && final(self).count() == old(self).count(),
    {
        proof {
            lemma_assoc_contains(self.names@, name@);
        }
        if let Some(_) = self.find_index(&name) {
            return Err(());
        }
        let ghost s = self.names@;
        self.names.push((name, Name::Alias(selector)));
        proof {
            assert(self.names@.drop_last() =~= s);
        }
        Ok(())
    }

    /// Binds an alias, replacing an alias already bound under the name and
    /// returning the replaced target; a canonical name is refused.
    pub fn insert_or_replace_alias(&mut self, name: String, selector: String) -> (r: Result<
        Option<String>,
        (),
    >)
        requires
            old(self).wf(),
        ensures
            final(self).wf(),
            r is Err <==> old(self)@.contains_key(name@) && is_any_canonical(old(self)@[name@]),
            r is Err ==> final(self)@ == old(self)@ && final(self).count() == old(self).count(),
            r matches Ok(prev) ==> final(self)@ == old(self)@.insert(name@, Name::Alias(selector))
                && (match prev {
                Some(p) => old(self)@.contains_key(name@) && is_alias(old(self)@[name@], p@),
                None => !old(self)@.contains_key(name@),
            }),
    {
        proof {
            lemma_assoc_contains(self.names@, name@);
        }
        match self.find_index(&name) {
            Some(i) => {
                proof {
                    lemma_assoc_index(self.names@, i as int);
                }
                let is_canon = match &self.names[i].1 {
                    Name::Canonical(_) => true,
                    Name::Alias(_) => false,
                };
                if is_canon {
                    return Err(());
                }
                let prev = match &self.names[i].1 {
                    Name::Alias(a) => Some(a.clone()),
                    Name::Canonical(_) => None,
                };
                let ghost s = self.names@;
                proof {
                    lemma_assoc_update(s, i as int, (name, Name::Alias(selector)));
                }
                self.names[i] = (name, Name::Alias(selector));
                proof {
                    assert forall|x: int, y: int|
                        0 <= x < self.names@.len() && 0 <= y < self.names@.len() && x != y implies
                        #[trigger] self.names@[x].0@ != #[trigger] self.names@[y].0@ by {
                        if x != i && y != i {
                            assert(self.names@[x] == s[x]);
                            assert(self.names@[y] == s[y]);
                        }
                    }
                }
                Ok(prev)
            },
            None => {
                let ghost s = self.names@;
                self.names.push((name, Name::Alias(selector)));
                proof {
                    assert(self.names@.drop_last() =~= s);
                }
                Ok(None)
            },
        }
    }

    /// Follows a name through alias steps, appending the handles found.
    fn resolve_name(&self, name: &Name, fuel: usize, indices: &mut Vec<IndexRef>)
        requires
            self.wf(),
        ensures
            final(indices)@ == old(indices)@ + resolve_spec(self@, *name, fuel as nat),
        decreases fuel,
    {
        match name {
            Name::Canonical(index_ref) => {
                indices.push(*index_ref);
                proof {
                    assert(indices@ =~= old(indices)@ + resolve_spec(self@, *name, fuel as nat));
                }
            },
            Name::Alias(selector) => {
                match self.find_index(selector) {
                    Some(i) => {
                        proof {
                            lemma_assoc_index(self.names@, i as int);
                            lemma_assoc_contains(self.names@, selector@);
                        }
                        if fuel > 0 {
                            let next = &self.names[i].1;
                            self.resolve_name(next, fuel - 1, indices);
                        } else {
                            proof {
                                assert(indices@ =~= old(indices)@ + resolve_spec(
                                    self@,
                                    *name,
                                    fuel as nat,
                                ));
                            }
                        }
                    },
                    None => {
                        proof {
                            lemma_assoc_contains(self.names@, selector@);
                            assert(indices@ =~= old(indices)@ + resolve_spec(
                                self@,
                                *name,
                                fuel as nat,
                            ));
                        }
                    },
                }
            },
        }
    }

    /// All handles a name stands for, following alias chains as far as the
    /// number of bound names.
    pub fn find(&self, selector: &String) -> (r: Vec<IndexRef>)
        requires
            self.wf(),
        ensures
            r@ == find_spec(self@, selector@, self.count()),
    {
        proof {
            lemma_assoc_contains(self.names@, selector@);
        }
        let mut indices: Vec<IndexRef> = Vec::new();
        match self.find_index(selector) {
            Some(i) => {
                proof {
                    lemma_assoc_index(self.names@, i as int);
                }
                let fuel = self.names.len();
                let name = &self.names[i].1;
                self.resolve_name(name, fuel, &mut indices);
                proof {
                    assert(indices@ =~= find_spec(self@, selector@, self.count()));
                }
            },
            None => {
                proof {
                    assert(indices@ =~= find_spec(self@, selector@, self.count()));
                }
            },
        }
        indices
    }

    /// The first handle a name stands for, if any.
    pub fn find_one(&self, selector: &String) -> (r: Option<IndexRef>)
        requires
            self.wf(),
        ensures
            find_spec(self@, selector@, self.count()).len() == 0 <==> r is None,
            find_spec(self@, selector@, self.count()).len() > 0 ==> r == Some(
                find_spec(self@, selector@, self.count())[0],
            ),
    {
        let index_refs = self.find(selector);
        if index_refs.len() == 0 {
            None
        } else {
            Some(index_refs[0])
        }
    }
}

/// The process-wide set of open indices: dense handles to indices, plus
/// the name registry that binds names and aliases to them.
pub struct IndexRegistry {
    pub ref_counter: u32,
    pub indices: Vec<(IndexRef, Index)>,
    pub names: NameRegistry,
}

impl IndexRegistry {
    /// How many indices are held.
    pub closed spec fn index_count(&self) -> nat {
        self.indices@.len()
    }

    /// The next handle to issue.
    pub closed spec fn next_handle(&self) -> u32 {
        self.ref_counter
    }

    /// An empty registry; handles are issued from one.
    pub fn new() -> (r: IndexRegistry)
        ensures
            r.names.wf(),
            r.names@ == Map::<Seq<char>, Name>::empty(),
            r.next_handle() == 1,
            r.index_count() == 0,
    {
        IndexRegistry { ref_counter: 1, indices: Vec::new(), names: NameRegistry::new() }
    }

    /// Takes an index in, issuing it the next handle: the index is appended
    /// under that handle.
    pub fn insert(&mut self, index: Index) -> (r: IndexRef)
        requires
            old(self).next_handle() < 0xffff_ffff,
        ensures
            r == IndexRef(old(self).next_handle()),
            final(self).next_handle() == old(self).next_handle() + 1,
            final(self).indices@ == old(self).indices@.push((r, index)),
            final(self).index_count() == old(self).index_count() + 1,
            final(self).names == old(self).names,
    {
        let index_ref = IndexRef(self.ref_counter);
        self.ref_counter = self.ref_counter + 1;
        self.indices.push((index_ref, index));
        index_ref
    }

    /// Reads the index stored first under a handle, if any is.
    pub fn get(&self, index_ref: IndexRef) -> (r: Option<&Index>)
        ensures
            match r {
                Some(ix) => exists|i: int|
                    0 <= i < self.indices@.len() && #[trigger] self.indices@[i] == (index_ref, *ix)
                        && (forall|j: int| 0 <= j < i ==> self.indices@[j].0 != index_ref),
                None => forall|j: int|
                    0 <= j < self.indices@.len() ==> #[trigger] self.indices@[j].0 != index_ref,
            },
    {
        let mut i: usize = 0;
        while i < self.indices.len()
            invariant
                0 <= i <= self.indices@.len(),
                forall|j: int| 0 <= j < i ==> #[trigger] self.indices@[j].0 != index_ref,
            decreases self.indices@.len() - i,
        {
            if self.indices[i].0.0 == index_ref.0 {
                proof {
                    assert(self.indices@[i as int].0 == index_ref);
                }
                return Some(&self.indices[i].1);
            }
            i = i + 1;
        }
        None
    }

    /// Takes the index stored first under a handle out of the registry, to
    /// work on it or to drop it; `insert_back` returns it.
    pub fn take(&mut self, index_ref: IndexRef) -> (r: Option<Index>)
        ensures
            final(self).names == old(self).names,
            final(self).next_handle() == old(self).next_handle(),
            match r {
                Some(ix) => exists|i: int|
                    0 <= i < old(self).indices@.len() && #[trigger] old(self).indices@[i] == (
                        index_ref,
                        ix,
                    ) && final(self).indices@ == old(self).indices@.remove(i) && (forall|j: int|
                        0 <= j < i ==> old(self).indices@[j].0 != index_ref),
                None => final(self).indices@ == old(self).indices@ && (forall|j: int|
                    0 <= j < old(self).indices@.len() ==> #[trigger] old(self).indices@[j].0
                        != index_ref),
            },
    {
        let mut i: usize = 0;
        while i < self.indices.len()
            invariant
                0 <= i <= self.indices@.len(),
                self.indices@ == old(self).indices@,
                self.names == old(self).names,
                self.ref_counter == old(self).ref_counter,
                forall|j: int| 0 <= j < i ==> #[trigger] self.indices@[j].0 != index_ref,
            decreases self.indices@.len() - i,
        {
            if self.indices[i].0.0 == index_ref.0 {
                proof {
                    assert(self.indices@[i as int].0 == index_ref);
                }
                let (_, index) = self.indices.remove(i);
                return Some(index);
            }
            i = i + 1;
        }
        None
    }

    /// Puts a taken index back under its handle.
    pub fn insert_back(&mut self, index_ref: IndexRef, index: Index)
        ensures
            final(self).names == old(self).names,
            final(self).indices@ == old(self).indices@.push((index_ref, index)),
            final(self).next_handle() == old(self).next_handle(),
    {
        self.indices.push((index_ref, index));
    }
}

} // verus!
