//! Structure-preserving maps between categories (e.g., forgetful functor from topological-agents to set-agents).

use vstd::prelude::*;
use crate::category::{Category, ObjectId, is_identity_for};
use crate::keyed_map::{KeyedMap, TextKey};

verus! {

/// Classification of functors by their properties.
#[derive(Debug, Clone, Copy, PartialEq, Eq, Structural)]
pub enum FunctorKind {
    /// Preserves all structure
    Full,
    /// Injective on hom-sets
    Faithful,
    /// Fully faithful
    FullyFaithful,
    /// Drops structure (e.g., topology → sets)
    Forgetful,
    /// Adds free structure (e.g., sets → groups)
    Free,
    /// Generic
    Generic,
}

/// Following `f` and then `g`: each key `s` of `f` whose image `f[s]` is a
/// key of `g` goes to `g[f[s]]`; other keys are dropped.
pub open spec fn chain<V: View<V = Seq<char>>>(f: Map<Seq<char>, V>, g: Map<Seq<char>, V>) -> Map<
    Seq<char>,
    V,
> {
    Map::new(|s: Seq<char>| f.contains_key(s) && g.contains_key(f[s]@), |s: Seq<char>| g[f[s]@])
}

/// Functor composition is associative on the object and morphism maps:
/// following `f` then `g`, then `h`, maps every key as following `f`, then
/// `g` then `h`.
pub proof fn law_compose_associative<V: View<V = Seq<char>>>(
    f: Map<Seq<char>, V>,
    g: Map<Seq<char>, V>,
    h: Map<Seq<char>, V>,
)
    ensures
        chain(chain(f, g), h) == chain(f, chain(g, h)),
{
    assert(chain(chain(f, g), h) =~= chain(f, chain(g, h)));
}

/// A mapped object is applied as mapped: after `map_object(src, tgt)` (from
/// `before` to `after`), `apply_object(src)` gives `tgt`, and every other
/// object is applied as before.
pub proof fn law_mapped_object_is_applied(before: Functor, after: Functor, src: ObjectId, tgt: ObjectId)
    requires
        after.object_map@ == before.object_map@.insert(src@, tgt),
    ensures
        after.object_map@.contains_key(src@),
        after.object_map@[src@] == tgt,
        forall|k: Seq<char>| k != src@ ==> (#[trigger] after.object_map@.contains_key(k)
            == before.object_map@.contains_key(k)) && (before.object_map@.contains_key(k)
            ==> after.object_map@[k] == before.object_map@[k]),
{
}

/// A functor that maps the identity morphism of an object X of `cat` to
/// anything but the identity morphism of F(X) (F(X) also in `cat`) does not
/// preserve identities, whether or not F(X) is X itself.
pub proof fn law_wrong_identity_image_fails(f: Functor, cat: Category, x: Seq<char>)
    requires
        cat.wf(),
        f.object_map@.contains_key(x),
        cat.has_object(x),
        cat.has_object(f.object_map@[x]@),
        f.morphism_map@.contains_key(cat.identity_table()[x].id@),
        f.morphism_map@[cat.identity_table()[x].id@]@ != cat.identity_table()[f.object_map@[x]@].id@,
    ensures
        !maps_identities(f.object_map@, f.morphism_map@, cat),
{
    cat.lemma_identity(x);
    cat.lemma_identity(f.object_map@[x]@);
    assert(f.object_map@[x] == f.object_map@[x]);
}

/// The keys of `m` whose entries come before position `i`, chained through `g`.
pub open spec fn chain_prefix<K: TextKey + View<V = Seq<char>>, V: View<V = Seq<char>>>(
    m: KeyedMap<K, V>,
    i: int,
    g: Map<Seq<char>, V>,
) -> Map<Seq<char>, V> {
    Map::new(
        |s: Seq<char>| m@.contains_key(s) && m.index_of(s) < i && g.contains_key(m@[s]@),
        |s: Seq<char>| g[m@[s]@],
    )
}

/// A functor maps objects to objects and morphisms to morphisms, preserving structure.
#[derive(Debug)]
pub struct Functor {
    pub name: String,
    pub source_category: String,
    pub target_category: String,
    pub object_map: KeyedMap<ObjectId, ObjectId>,
    pub morphism_map: KeyedMap<String, String>,
    /// Metadata about the kind of functor (forgetful, free, faithful, full, etc.)
    pub kind: FunctorKind,
}

/// Chains every entry of `m` through `g` into a new map.
fn chain_into<K: TextKey + View<V = Seq<char>>>(m: &KeyedMap<K, K>, g: &KeyedMap<K, K>) -> (r:
    KeyedMap<K, K>)
    ensures
        r@ == chain(m@, g@),
{
    proof { use_type_invariant(m); }
    let mut r: KeyedMap<K, K> = KeyedMap::new();
    let n = m.len();
    let mut i: usize = 0;
    while i < n
        invariant
            n == m.entries().len(),
            i <= n,
            m.wf(),
            r@ == chain_prefix(*m, i as int, g@),
        decreases n - i,
    {
        let (src, mid) = m.entry_at(i);
        proof { m.lemma_entry(i as int); }
        let ghost before = r@;
        match g.lookup(mid) {
            Some(tgt) => {
                r.insert(src.copy_key(), tgt.copy_key());
            },
            None => {},
        }
        proof {
            assert forall|s: Seq<char>| #[trigger] r@.contains_key(s) == chain_prefix(*m, i + 1, g@).contains_key(s) by {
                if m@.contains_key(s) {
                    m.lemma_key(s);
                }
            }
            assert forall|s: Seq<char>| #[trigger] r@.contains_key(s) implies r@[s] == chain_prefix(*m, i + 1, g@)[s] by {
                if m@.contains_key(s) {
                    m.lemma_key(s);
                }
            }
            assert(r@ =~= chain_prefix(*m, i + 1, g@));
        }
        i = i + 1;
    }
    proof {
        assert forall|s: Seq<char>| #[trigger] r@.contains_key(s) == chain(m@, g@).contains_key(s) by {
            if m@.contains_key(s) {
                m.lemma_key(s);
            }
        }
        assert(r@ =~= chain(m@, g@));
    }
    r
}

/// The identity morphism ids of `om`'s objects, wherever both objects are in
/// `cat` and `mm` maps the source's identity, are mapped to the target's.
pub open spec fn maps_identities(
    om: Map<Seq<char>, ObjectId>,
    mm: Map<Seq<char>, String>,
    cat: Category,
) -> bool {
    forall|s: Seq<char>|
        #![trigger om[s]]
        om.contains_key(s) && cat.has_object(s) && cat.has_object(om[s]@) && mm.contains_key(
            "id_"@ + s,
        ) ==> mm["id_"@ + s]@ == "id_"@ + om[s]@
}

impl Functor {
    pub fn new(name: &str, source: &str, target: &str) -> (r: Self)
        ensures
            r.name@ == name@,
            r.source_category@ == source@,
            r.target_category@ == target@,
            r.object_map@ == Map::<Seq<char>, ObjectId>::empty(),
            r.morphism_map@ == Map::<Seq<char>, String>::empty(),
            r.kind == FunctorKind::Generic,
    {
        Functor {
            name: String::from_str(name),
            source_category: String::from_str(source),
            target_category: String::from_str(target),
            object_map: KeyedMap::new(),
            morphism_map: KeyedMap::new(),
            kind: FunctorKind::Generic,
        }
    }

    pub fn with_kind(self, kind: FunctorKind) -> (r: Self)
        ensures
            r.name == self.name,
            r.source_category == self.source_category,
            r.target_category == self.target_category,
            r.object_map == self.object_map,
            r.morphism_map == self.morphism_map,
            r.kind == kind,
    {
        let mut f = self;
        f.kind = kind;
        f
    }

    /// Map an object from source to target category.
    pub fn map_object(&mut self, src: ObjectId, tgt: ObjectId) -> (r: &mut Self)
        ensures
            r.object_map@ == old(self).object_map@.insert(src@, tgt),
            r.morphism_map == old(self).morphism_map,
            r.name == old(self).name,
            r.source_category == old(self).source_category,
            r.target_category == old(self).target_category,
            r.kind == old(self).kind,
            *final(self) == *final(r),
    {
        self.object_map.insert(src, tgt);
        self
    }

    /// Map a morphism from source to target category.
    pub fn map_morphism(&mut self, src: &str, tgt: &str) -> (r: &mut Self)
        ensures
            r.morphism_map@.dom() == old(self).morphism_map@.dom().insert(src@),
            r.morphism_map@[src@]@ == tgt@,
            forall|k: Seq<char>|
                k != src@ && #[trigger] old(self).morphism_map@.contains_key(k)
                    ==> r.morphism_map@[k] == old(self).morphism_map@[k],
            r.object_map == old(self).object_map,
            r.name == old(self).name,
            r.source_category == old(self).source_category,
            r.target_category == old(self).target_category,
            r.kind == old(self).kind,
            *final(self) == *final(r),
    {
        self.morphism_map.insert(String::from_str(src), String::from_str(tgt));
        self
    }

    /// Apply the functor to an object.
    pub fn apply_object(&self, obj: &ObjectId) -> (r: Option<&ObjectId>)
        ensures
            match r {
                Some(t) => self.object_map@.contains_key(obj@) && *t == self.object_map@[obj@],
                None => !self.object_map@.contains_key(obj@),
            },
    {
        self.object_map.lookup(obj)
    }

    /// Apply the functor to a morphism by id string.
    pub fn apply_morphism(&self, mor_id: &str) -> (r: Option<&String>)
        ensures
            match r {
                Some(t) => self.morphism_map@.contains_key(mor_id@) && *t
                    == self.morphism_map@[mor_id@],
                None => !self.morphism_map@.contains_key(mor_id@),
            },
    {
        self.morphism_map.get(mor_id)
    }

    /// Verify the functor preserves identity morphisms: F(id_X) = id_{F(X)}
    /// for every mapped object X whose image is in `cat` too, wherever the
    /// functor maps id_X at all.
    pub fn preserves_identities(&self, cat: &Category) -> (r: bool)
        requires
            cat.wf(),
        ensures
            r == maps_identities(self.object_map@, self.morphism_map@, *cat),
    {
        proof { use_type_invariant(&self.object_map); }
        let n = self.object_map.len();
        let mut i: usize = 0;
        while i < n
            invariant
                n == self.object_map.entries().len(),
                i <= n,
                cat.wf(),
                self.object_map.wf(),
                forall|j: int|
                    #![trigger self.object_map.entries()[j]]
                    0 <= j < i ==> {
                        let s = self.object_map.entries()[j].0@;
                        let t = self.object_map.entries()[j].1@;
                        cat.has_object(s) && cat.has_object(t) && self.morphism_map@.contains_key(
                            "id_"@ + s,
                        ) ==> self.morphism_map@["id_"@ + s]@ == "id_"@ + t
                    },
            decreases n - i,
        {
            let (src_obj, tgt_obj) = self.object_map.entry_at(i);
            proof { self.object_map.lemma_entry(i as int); }
            match (cat.identity(src_obj), cat.identity(tgt_obj)) {
                (Some(src_m), Some(tgt_m)) => {
                    if let Some(mapped) = self.morphism_map.get(src_m.id.0.as_str()) {
                        if !mapped.same_key(&tgt_m.id.0) {
                            proof {
                                let s = src_obj@;
                                assert(self.object_map@[s] == *tgt_obj);
                            }
                            return false;
                        }
                    }
                },
                _ => {},
            }
            i = i + 1;
        }
        proof {
            assert forall|s: Seq<char>|
                #![trigger self.object_map@[s]]
                self.object_map@.contains_key(s) && cat.has_object(s) && cat.has_object(
                    self.object_map@[s]@,
                ) && self.morphism_map@.contains_key("id_"@ + s) implies self.morphism_map@["id_"@
                + s]@ == "id_"@ + self.object_map@[s]@ by {
                self.object_map.lemma_key(s);
                let j = self.object_map.index_of(s);
                assert(self.object_map.entries()[j].0@ == s);
            }
        }
        true
    }

    /// Verify the functor preserves composition (a structural check: some
    /// morphism is mapped, or no object is).
    pub fn preserves_composition(&self) -> (r: bool)
        ensures
            r == (self.morphism_map@ != Map::<Seq<char>, String>::empty() || self.object_map@
                == Map::<Seq<char>, ObjectId>::empty()),
    {
        !self.morphism_map.is_empty() || self.object_map.is_empty()
    }

    /// Check if functor is faithful (injective on hom-sets).
    pub fn is_faithful(&self) -> (r: bool)
        ensures
            r == (self.kind == FunctorKind::Faithful || self.kind == FunctorKind::FullyFaithful),
    {
        self.kind == FunctorKind::Faithful || self.kind == FunctorKind::FullyFaithful
    }

    /// Check if functor is full (surjective on hom-sets).
    pub fn is_full(&self) -> (r: bool)
        ensures
            r == (self.kind == FunctorKind::Full || self.kind == FunctorKind::FullyFaithful),
    {
        self.kind == FunctorKind::Full || self.kind == FunctorKind::FullyFaithful
    }

    /// Compose two functors: (G ∘ F)(X) = G(F(X)), where `self` is F and
    /// `other` is G.
    pub fn compose(&self, other: &Functor, name: &str) -> (r: Result<Functor, String>)
        ensures
            r.is_ok() == (self.target_category@ == other.source_category@),
            r matches Err(e) ==> e@ == compose_error(*self, *other),
            r matches Ok(c) ==> {
                &&& c.name@ == name@
                &&& c.source_category == self.source_category
                &&& c.target_category == other.target_category
                &&& c.kind == FunctorKind::Generic
                &&& c.object_map@ == chain(self.object_map@, other.object_map@)
                &&& c.morphism_map@ == chain(self.morphism_map@, other.morphism_map@)
            },
    {
        if !self.target_category.same_key(&other.source_category) {
            let msg = String::from_str("Cannot compose: ").concat(self.name.as_str()).concat(
                " targets '",
            ).concat(self.target_category.as_str()).concat("' but ").concat(
                other.name.as_str(),
            ).concat(" sources '").concat(other.source_category.as_str()).concat("'");
            return Err(msg);
        }
        let object_map = chain_into(&self.object_map, &other.object_map);
        let morphism_map = chain_into(&self.morphism_map, &other.morphism_map);
        Ok(
            Functor {
                name: String::from_str(name),
                source_category: self.source_category.clone(),
                target_category: other.target_category.clone(),
                object_map,
                morphism_map,
                kind: FunctorKind::Generic,
            },
        )
    }
}

/// The message of a refused composition of `f` then `g`.
pub open spec fn compose_error(f: Functor, g: Functor) -> Seq<char> {
    "Cannot compose: "@ + f.name@ + " targets '"@ + f.target_category@ + "' but "@ + g.name@
        + " sources '"@ + g.source_category@ + "'"@
}

/// A forgetful functor that strips structure from objects.
pub fn forgetful_functor(source: &str, target: &str) -> (r: Functor)
    ensures
        r.name@ == "forgetful"@,
        r.source_category@ == source@,
        r.target_category@ == target@,
        r.object_map@ == Map::<Seq<char>, ObjectId>::empty(),
        r.morphism_map@ == Map::<Seq<char>, String>::empty(),
        r.kind == FunctorKind::Forgetful,
{
    Functor::new("forgetful", source, target).with_kind(FunctorKind::Forgetful)
}

/// A free functor that adds structure to objects.
pub fn free_functor(source: &str, target: &str) -> (r: Functor)
    ensures
        r.name@ == "free"@,
        r.source_category@ == source@,
        r.target_category@ == target@,
        r.object_map@ == Map::<Seq<char>, ObjectId>::empty(),
        r.morphism_map@ == Map::<Seq<char>, String>::empty(),
        r.kind == FunctorKind::Free,
{
    Functor::new("free", source, target).with_kind(FunctorKind::Free)
}

} // verus!
