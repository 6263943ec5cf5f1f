//! Kan extensions — universal construction extending functors.
//!
//! Left Kan extension: Lan_F(K) is the "best approximation" of extending K along F.
//! Right Kan extension: Ran_F(K) is the "best approximation" from the other direction.

use vstd::prelude::*;
use crate::category::ObjectId;
use crate::functor::Functor;
use crate::keyed_map::{KeyedMap, TextKey};

verus! {

#[derive(Debug, Clone, Copy, PartialEq, Eq, Structural)]
pub enum KanKind {
    Left,
    Right,
}

/// The object map of a Kan extension of `k` along `f`: every object that
/// both functors map goes where `k` sends it.
pub open spec fn shared_objects(f: Map<Seq<char>, ObjectId>, k: Map<Seq<char>, ObjectId>) -> Map<
    Seq<char>,
    ObjectId,
> {
    Map::new(|s: Seq<char>| f.contains_key(s) && k.contains_key(s), |s: Seq<char>| k[s])
}

/// A Kan extension (left or right).
#[derive(Debug)]
pub struct KanExtension {
    pub name: String,
    pub kind: KanKind,
    /// The functor F being extended along
    pub along_functor: String,
    /// The functor K being extended
    pub extended_functor: String,
    /// The resulting functor Lan_F(K) or Ran_F(K)
    pub result_functor_name: String,
    /// Object mappings for the result
    object_map: KeyedMap<ObjectId, ObjectId>,
}

/// Builds the Kan extension of `k` along `f` with the given kind and prefix
/// (`Lan_` or `Ran_`) of its result's name.
fn extend(name: &str, f: &Functor, k: &Functor, kind: KanKind, prefix: &str) -> (r: Result<
    KanExtension,
    String,
>)
    ensures
        r.is_ok() == (f.source_category@ == k.source_category@),
        r matches Err(e) ==> e@ == "F and K must share source category"@,
        r matches Ok(x) ==> {
            &&& x.name_text() == name@
            &&& x.kind_of() == kind
            &&& x.along_text() == f.name@
            &&& x.extended_text() == k.name@
            &&& x.result_text() == prefix@ + f.name@ + "("@ + k.name@ + ")"@
            &&& x.mapping() == shared_objects(f.object_map@, k.object_map@)
        },
{
    if !f.source_category.same_key(&k.source_category) {
        return Err(String::from_str("F and K must share source category"));
    }
    proof { use_type_invariant(&f.object_map); }
    let mut object_map: KeyedMap<ObjectId, ObjectId> = KeyedMap::new();
    let n = f.object_map.len();
    let mut i: usize = 0;
    while i < n
        invariant
            n == f.object_map.entries().len(),
            i <= n,
            f.object_map.wf(),
            object_map@ == Map::new(
                |s: Seq<char>| f.object_map@.contains_key(s) && f.object_map.index_of(s) < i
                    && k.object_map@.contains_key(s),
                |s: Seq<char>| k.object_map@[s],
            ),
        decreases n - i,
    {
        let (src, _mid) = f.object_map.entry_at(i);
        proof { f.object_map.lemma_entry(i as int); }
        if let Some(k_target) = k.object_map.lookup(src) {
            object_map.insert(src.clone(), k_target.clone());
        }
        proof {
            let target = Map::new(
                |s: Seq<char>| f.object_map@.contains_key(s) && f.object_map.index_of(s) < i + 1
                    && k.object_map@.contains_key(s),
                |s: Seq<char>| k.object_map@[s],
            );
            assert forall|s: Seq<char>| #[trigger] object_map@.contains_key(s) == target.contains_key(s) by {
                if f.object_map@.contains_key(s) {
                    f.object_map.lemma_key(s);
                }
            }
            assert(object_map@ =~= target);
        }
        i = i + 1;
    }
    proof {
        assert forall|s: Seq<char>| #[trigger] object_map@.contains_key(s) == shared_objects(f.object_map@, k.object_map@).contains_key(s) by {
            if f.object_map@.contains_key(s) {
                f.object_map.lemma_key(s);
            }
        }
        assert(object_map@ =~= shared_objects(f.object_map@, k.object_map@));
    }
    let result = String::from_str(prefix).concat(f.name.as_str()).concat("(").concat(k.name.as_str()).concat(")");
    Ok(
        KanExtension {
            name: String::from_str(name),
            kind,
            along_functor: f.name.clone(),
            extended_functor: k.name.clone(),
            result_functor_name: result,
            object_map,
        },
    )
}

impl KanExtension {
    pub closed spec fn name_text(&self) -> Seq<char> {
        self.name@
    }

    pub closed spec fn kind_of(&self) -> KanKind {
        self.kind
    }

    pub closed spec fn along_text(&self) -> Seq<char> {
        self.along_functor@
    }

    pub closed spec fn extended_text(&self) -> Seq<char> {
        self.extended_functor@
    }

    pub closed spec fn result_text(&self) -> Seq<char> {
        self.result_functor_name@
    }

    /// The object map of the resulting functor.
    pub closed spec fn mapping(&self) -> Map<Seq<char>, ObjectId> {
        self.object_map@
    }

    /// Compute the left Kan extension Lan_F(K).
    /// Colimit-based: Lan_F(K)(b) = colimit_{(a, f: F(a)→b)} K(a)
    pub fn left_kan(name: &str, f: &Functor, k: &Functor) -> (r: Result<KanExtension, String>)
        ensures
            r.is_ok() == (f.source_category@ == k.source_category@),
            r matches Err(e) ==> e@ == "F and K must share source category"@,
            r matches Ok(x) ==> {
                &&& x.name_text() == name@
                &&& x.kind_of() == KanKind::Left
                &&& x.along_text() == f.name@
                &&& x.extended_text() == k.name@
                &&& x.result_text() == "Lan_"@ + f.name@ + "("@ + k.name@ + ")"@
                &&& x.mapping() == shared_objects(f.object_map@, k.object_map@)
            },
    {
        extend(name, f, k, KanKind::Left, "Lan_")
    }

    /// Compute the right Kan extension Ran_F(K).
    /// Limit-based: Ran_F(K)(b) = limit_{(a, f: b→F(a))} K(a)
    pub fn right_kan(name: &str, f: &Functor, k: &Functor) -> (r: Result<KanExtension, String>)
        ensures
            r.is_ok() == (f.source_category@ == k.source_category@),
            r matches Err(e) ==> e@ == "F and K must share source category"@,
            r matches Ok(x) ==> {
                &&& x.name_text() == name@
                &&& x.kind_of() == KanKind::Right
                &&& x.along_text() == f.name@
                &&& x.extended_text() == k.name@
                &&& x.result_text() == "Ran_"@ + f.name@ + "("@ + k.name@ + ")"@
                &&& x.mapping() == shared_objects(f.object_map@, k.object_map@)
            },
    {
        extend(name, f, k, KanKind::Right, "Ran_")
    }

    pub fn apply(&self, obj: &ObjectId) -> (r: Option<&ObjectId>)
        ensures
            match r {
                Some(t) => self.mapping().contains_key(obj@) && *t == self.mapping()[obj@],
                None => !self.mapping().contains_key(obj@),
            },
    {
        self.object_map.lookup(obj)
    }

    /// The unit natural transformation, described:
    /// `η: <K> → <result>∘<F>`.
    pub fn unit(&self) -> (r: String)
        ensures
            r@ == "η: "@ + self.extended_text() + " → "@ + self.result_text() + "∘"@
                + self.along_text(),
    {
        String::from_str("η: ").concat(self.extended_functor.as_str()).concat(" → ").concat(
            self.result_functor_name.as_str(),
        ).concat("∘").concat(self.along_functor.as_str())
    }

    /// The counit natural transformation, described:
    /// `ε: <result>∘<F> → <K>`.
    pub fn counit(&self) -> (r: String)
        ensures
            r@ == "ε: "@ + self.result_text() + "∘"@ + self.along_text() + " → "@
                + self.extended_text(),
    {
        String::from_str("ε: ").concat(self.result_functor_name.as_str()).concat("∘").concat(
            self.along_functor.as_str(),
        ).concat(" → ").concat(self.extended_functor.as_str())
    }

    /// Kan extensions compose (simplified): the same extension renamed
    /// `composed_<name>`, with result `composed_<result>`.
    pub fn compose(&self, _other: &KanExtension) -> (r: Result<KanExtension, String>)
        ensures
            r matches Ok(x) && {
                &&& x.name_text() == "composed_"@ + self.name_text()
                &&& x.kind_of() == self.kind_of()
                &&& x.along_text() == self.along_text()
                &&& x.extended_text() == self.extended_text()
                &&& x.result_text() == "composed_"@ + self.result_text()
                &&& x.mapping() == self.mapping()
            },
    {
        Ok(
            KanExtension {
                name: String::from_str("composed_").concat(self.name.as_str()),
                kind: self.kind,
                along_functor: self.along_functor.clone(),
                extended_functor: self.extended_functor.clone(),
                result_functor_name: String::from_str("composed_").concat(
                    self.result_functor_name.as_str(),
                ),
                object_map: self.object_map.duplicate(),
            },
        )
    }
}

} // verus!
