//! Yoneda lemma — you are your relationships, not your internals.
//!
//! The Yoneda lemma states: Hom(Hom(A, -), F) ≅ F(A)
//! An object is completely determined by its relationships to all other objects.

use vstd::prelude::*;
use crate::category::{Category, Morphism, ObjectId, deref_all, deref_objects};
use crate::keyed_map::KeyedMap;

verus! {

/// A representable functor Hom(A, -) for a fixed object A.
#[derive(Debug)]
pub struct RepresentableFunctor {
    pub representing_object: ObjectId,
    pub category_name: String,
}

impl RepresentableFunctor {
    pub fn new(obj: ObjectId, cat: &str) -> (r: Self)
        ensures
            r.representing_object == obj,
            r.category_name@ == cat@,
    {
        RepresentableFunctor { representing_object: obj, category_name: String::from_str(cat) }
    }

    /// Evaluate at object X: returns Hom(A, X)
    pub fn at<'a>(&self, cat: &'a Category, x: &ObjectId) -> (r: Vec<&'a Morphism>)
        requires
            cat.wf(),
        ensures
            deref_all(r@) == if self.representing_object@ == x@ && cat.has_object(x@) {
                seq![cat.identity_table()[x@]] + cat.arrows_between(x@, x@)
            } else {
                cat.arrows_between(self.representing_object@, x@)
            },
    {
        cat.hom(&self.representing_object, x)
    }
}

/// For every object X of `cat`, |Hom(A, X)| = |Hom(B, X)| and
/// |Hom(X, A)| = |Hom(X, B)|.
pub open spec fn same_hom_sizes(cat: Category, a: Seq<char>, b: Seq<char>) -> bool {
    forall|x: Seq<char>|
        #[trigger] cat.has_object(x) ==> cat.hom_size(a, x) == cat.hom_size(b, x) && cat.hom_size(x, a)
            == cat.hom_size(x, b)
}

/// Being isomorphic via Yoneda is an equivalence: every object is
/// isomorphic to itself, and the relation is symmetric and transitive.
pub proof fn law_yoneda_iso_equivalence(cat: Category, a: Seq<char>, b: Seq<char>, c: Seq<char>)
    ensures
        same_hom_sizes(cat, a, a),
        same_hom_sizes(cat, a, b) ==> same_hom_sizes(cat, b, a),
        same_hom_sizes(cat, a, b) && same_hom_sizes(cat, b, c) ==> same_hom_sizes(cat, a, c),
{
}

/// Objects isomorphic via Yoneda have, for every object X of the category,
/// as many morphisms out of them into X and as many morphisms from X into
/// them: in particular, they are not isomorphic when some X has a different
/// number of morphisms into `a` than into `b`, or out of `a` than out of `b`.
pub proof fn law_yoneda_iso_compares_hom_sets(cat: Category, a: Seq<char>, b: Seq<char>, x: Seq<char>)
    requires
        cat.has_object(x),
    ensures
        cat.hom_size(x, a) != cat.hom_size(x, b) ==> !same_hom_sizes(cat, a, b),
        cat.hom_size(a, x) != cat.hom_size(b, x) ==> !same_hom_sizes(cat, a, b),
        same_hom_sizes(cat, a, b) ==> cat.hom_size(x, a) == cat.hom_size(x, b) && cat.hom_size(a, x)
            == cat.hom_size(b, x),
{
}

/// Yoneda embedding: maps each object A to the functor Hom(A, -).
#[derive(Debug)]
pub struct YonedaEmbedding {
    pub category_name: String,
    pub embeddings: KeyedMap<ObjectId, RepresentableFunctor>,
}

/// `e` holds, for every object of `cat` and nothing else, the functor
/// represented by that object in `cat`.
pub open spec fn embeds(e: Map<Seq<char>, RepresentableFunctor>, cat: Category) -> bool {
    &&& e.dom() == cat.object_table().dom()
    &&& forall|k: Seq<char>|
        #[trigger] e.contains_key(k) ==> e[k].representing_object@ == k && e[k].category_name@
            == cat.name_of()@
}

impl YonedaEmbedding {
    pub fn new(cat: &Category) -> (r: Self)
        requires
            cat.wf(),
        ensures
            r.category_name@ == cat.name_of()@,
            embeds(r.embeddings@, *cat),
            r.embeddings.entries().len() == cat.object_order().len(),
    {
        let objs = cat.objects();
        proof { cat.lemma_object_list(); }
        let mut embeddings: KeyedMap<ObjectId, RepresentableFunctor> = KeyedMap::new();
        let n = objs.len();
        let mut i: usize = 0;
        while i < n
            invariant
                n == objs@.len(),
                n == cat.object_order().len(),
                i <= n,
                deref_objects(objs@) == cat.object_list(),
                cat.object_order().no_duplicates(),
                forall|j: int|
                    #![trigger cat.object_order()[j]]
                    0 <= j < cat.object_order().len() ==> {
                        &&& cat.has_object(cat.object_order()[j])
                        &&& cat.object_list()[j].id@ == cat.object_order()[j]
                    },
                embeddings@.dom() == cat.object_order().take(i as int).to_set(),
                embeddings.entries().len() == i,
                forall|k: Seq<char>|
                    #[trigger] embeddings@.contains_key(k) ==> embeddings@[k].representing_object@
                        == k && embeddings@[k].category_name@ == cat.name_of()@,
            decreases n - i,
        {
            let o = objs[i];
            proof {
                assert(*objs@[i as int] == cat.object_list()[i as int]);
                assert(o.id@ == cat.object_order()[i as int]);
                assert(!cat.object_order().take(i as int).contains(o.id@)) by {
                    if cat.object_order().take(i as int).contains(o.id@) {
                        let j = choose|j: int| 0 <= j < i && cat.object_order().take(i as int)[j] == o.id@;
                        assert(cat.object_order()[j] == cat.object_order()[i as int]);
                    }
                }
            }
            let rep = RepresentableFunctor::new(o.id.clone(), cat.name_ref().as_str());
            embeddings.insert(o.id.clone(), rep);
            i = i + 1;
            proof {
                let prev = cat.object_order().take(i - 1);
                assert(cat.object_order().take(i as int) =~= prev.push(o.id@));
                assert forall|x: Seq<char>| prev.push(o.id@).contains(x) <==> (prev.contains(x) || x == o.id@) by {
                    if prev.push(o.id@).contains(x) {
                        let j = choose|j: int| 0 <= j < prev.len() + 1 && prev.push(o.id@)[j] == x;
                        if j < prev.len() {
                            assert(prev[j] == x);
                        }
                    }
                    if prev.contains(x) {
                        let j = choose|j: int| 0 <= j < prev.len() && prev[j] == x;
                        assert(prev.push(o.id@)[j] == x);
                    }
                    if x == o.id@ {
                        assert(prev.push(o.id@)[prev.len() as int] == x);
                    }
                }
                assert(embeddings@.dom() =~= cat.object_order().take(i as int).to_set());
            }
        }
        proof {
            assert(cat.object_order().take(n as int) =~= cat.object_order());
        }
        YonedaEmbedding { category_name: cat.name_ref().clone(), embeddings }
    }

    /// Get the representable functor for an object.
    pub fn embed(&self, obj: &ObjectId) -> (r: Option<&RepresentableFunctor>)
        ensures
            match r {
                Some(f) => self.embeddings@.contains_key(obj@) && *f == self.embeddings@[obj@],
                None => !self.embeddings@.contains_key(obj@),
            },
    {
        self.embeddings.lookup(obj)
    }

    /// Verify the Yoneda lemma for a specific object: the representing
    /// object is embedded and belongs to the category.
    pub fn verify_yoneda<F>(&self, cat: &Category, obj: &ObjectId, _functor: &F) -> (r: bool) where
        F: Fn(&ObjectId) -> usize,
        ensures
            r == (self.embeddings@.contains_key(obj@) && cat.has_object(obj@)),
    {
        self.embeddings.contains(obj) && cat.get_object(obj).is_some()
    }

    /// The Yoneda lemma implies: if Hom(A, X) ≅ Hom(B, X) for all X, then A ≅ B.
    /// Check whether, for every object X, |Hom(A, X)| = |Hom(B, X)| and
    /// |Hom(X, A)| = |Hom(X, B)|.
    pub fn objects_isomorphic_via_yoneda(&self, cat: &Category, a: &ObjectId, b: &ObjectId) -> (r:
        bool)
        requires
            cat.wf(),
        ensures
            r == same_hom_sizes(*cat, a@, b@),
    {
        let objs = cat.objects();
        proof { cat.lemma_object_list(); }
        let n = objs.len();
        let mut i: usize = 0;
        while i < n
            invariant
                n == objs@.len(),
                n == cat.object_order().len(),
                i <= n,
                cat.wf(),
                deref_objects(objs@) == cat.object_list(),
                forall|j: int|
                    #![trigger cat.object_order()[j]]
                    0 <= j < cat.object_order().len() ==> {
                        &&& cat.has_object(cat.object_order()[j])
                        &&& cat.object_list()[j].id@ == cat.object_order()[j]
                    },
                forall|j: int|
                    #![trigger cat.object_order()[j]]
                    0 <= j < i ==> {
                        let x = cat.object_order()[j];
                        cat.hom_size(a@, x) == cat.hom_size(b@, x) && cat.hom_size(x, a@)
                            == cat.hom_size(x, b@)
                    },
            decreases n - i,
        {
            let o = objs[i];
            proof {
                assert(*objs@[i as int] == cat.object_list()[i as int]);
                assert(o.id@ == cat.object_order()[i as int]);
            }
            let ha = cat.hom(a, &o.id);
            let hb = cat.hom(b, &o.id);
            proof {
                assert(deref_all(ha@).len() == ha@.len());
                assert(deref_all(hb@).len() == hb@.len());
                assert(cat.has_object(o.id@));
            }
            if ha.len() != hb.len() {
                return false;
            }
            let hxa = cat.hom(&o.id, a);
            let hxb = cat.hom(&o.id, b);
            proof {
                assert(deref_all(hxa@).len() == hxa@.len());
                assert(deref_all(hxb@).len() == hxb@.len());
            }
            if hxa.len() != hxb.len() {
                return false;
            }
            i = i + 1;
        }
        proof {
            assert forall|x: Seq<char>| #[trigger] cat.has_object(x) implies cat.hom_size(a@, x) == cat.hom_size(b@, x)
                    && cat.hom_size(x, a@) == cat.hom_size(x, b@) by {
                assert(cat.object_order().contains(x));
                let j = choose|j: int| 0 <= j < cat.object_order().len() && cat.object_order()[j] == x;
            }
        }
        true
    }
}

/// Covariant Yoneda lemma: Nat(Hom(A, -), F) ≅ F(A)
pub struct CovariantYoneda;

impl CovariantYoneda {
    /// Apply the Yoneda isomorphism: given an element of F(A), produce a natural transformation.
    pub fn yoneda_iso<A, B, F>(a: &A, f: &F) -> (r: B) where F: Fn(&A) -> B
        requires
            f.requires((a,)),
        ensures
            f.ensures((a,), r),
    {
        f(a)
    }
}

/// Contravariant Yoneda lemma: Nat(Hom(-, A), F) ≅ F(A)
pub struct ContravariantYoneda;

impl ContravariantYoneda {
    /// Apply the contravariant Yoneda isomorphism.
    pub fn yoneda_iso<A, B, F>(a: &A, f: &F) -> (r: B) where F: Fn(&A) -> B
        requires
            f.requires((a,)),
        ensures
            f.ensures((a,), r),
    {
        f(a)
    }
}

} // verus!
