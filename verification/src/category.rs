//! Objects (crates), morphisms (dependencies), identity, composition, associativity.

use vstd::prelude::*;
use crate::keyed_map::{KeyedMap, TextKey, distinct_keys};

verus! {

/// Unique identifier for an object (crate) in the category.
#[derive(Debug, PartialEq, Eq, Hash, PartialOrd, Ord)]
pub struct ObjectId(pub String);

impl View for ObjectId {
    type V = Seq<char>;

    open spec fn view(&self) -> Seq<char> {
        self.0@
    }
}

impl Clone for ObjectId {
    fn clone(&self) -> (r: Self)
        ensures
            r == *self,
    {
        ObjectId(self.0.clone())
    }
}

impl<'a> From<&'a str> for ObjectId {
    fn from(s: &'a str) -> (r: Self)
        ensures
            r@ == s@,
    {
        ObjectId(String::from_str(s))
    }
}

impl<'a> vstd::std_specs::convert::FromSpecImpl<&'a str> for ObjectId {
    /// Only the text of the result is known (`r@ == s@`), not which `String`
    /// holds it, so no single value is promised.
    open spec fn obeys_from_spec() -> bool {
        false
    }

    open spec fn from_spec(v: &'a str) -> Self {
        choose|o: ObjectId| o@ == v@
    }
}

impl TextKey for ObjectId {
    fn same_key(&self, other: &Self) -> (r: bool) {
        self.0 == other.0
    }

    fn copy_key(&self) -> (r: Self) {
        self.clone()
    }
}

impl TextKey for (ObjectId, ObjectId) {
    fn same_key(&self, other: &Self) -> (r: bool) {
        self.0.same_key(&other.0) && self.1.same_key(&other.1)
    }

    fn copy_key(&self) -> (r: Self) {
        (self.0.clone(), self.1.clone())
    }
}

impl ObjectId {
    /// The text shown for this identifier: `Obj(<id>)`.
    pub fn display(&self) -> (r: String)
        ensures
            r@ == "Obj("@ + self@ + ")"@,
    {
        String::from_str("Obj(").concat(self.0.as_str()).concat(")")
    }
}

/// Unique identifier for a morphism between objects.
#[derive(Debug, PartialEq, Eq, Hash)]
pub struct MorphismId(pub String);

impl View for MorphismId {
    type V = Seq<char>;

    open spec fn view(&self) -> Seq<char> {
        self.0@
    }
}

impl Clone for MorphismId {
    fn clone(&self) -> (r: Self)
        ensures
            r == *self,
    {
        MorphismId(self.0.clone())
    }
}

impl MorphismId {
    /// The text shown for this identifier: `Mor(<id>)`.
    pub fn display(&self) -> (r: String)
        ensures
            r@ == "Mor("@ + self@ + ")"@,
    {
        String::from_str("Mor(").concat(self.0.as_str()).concat(")")
    }
}

/// An object in the category — represents a crate in the ecosystem.
#[derive(Debug)]
pub struct Object {
    pub id: ObjectId,
    pub name: String,
    pub version: String,
    pub metadata: KeyedMap<String, String>,
}

impl Object {
    /// A fresh object with version `0.1.0` and no metadata.
    pub fn new(id: &str, name: &str) -> (r: Self)
        ensures
            r.id@ == id@,
            r.name@ == name@,
            r.version@ == "0.1.0"@,
            r.metadata@ == Map::<Seq<char>, String>::empty(),
    {
        Object {
            id: ObjectId(String::from_str(id)),
            name: String::from_str(name),
            version: String::from_str("0.1.0"),
            metadata: KeyedMap::new(),
        }
    }

    pub fn with_version(self, v: &str) -> (r: Self)
        ensures
            r.id == self.id,
            r.name == self.name,
            r.version@ == v@,
            r.metadata == self.metadata,
    {
        let mut o = self;
        o.version = String::from_str(v);
        o
    }

    pub fn with_metadata(self, k: &str, v: &str) -> (r: Self)
        ensures
            r.id == self.id,
            r.name == self.name,
            r.version == self.version,
            r.metadata@.dom() == self.metadata@.dom().insert(k@),
            r.metadata@[k@]@ == v@,
            forall|j: Seq<char>|
                j != k@ && #[trigger] self.metadata@.contains_key(j) ==> r.metadata@[j]
                    == self.metadata@[j],
    {
        let mut o = self;
        o.metadata.insert(String::from_str(k), String::from_str(v));
        o
    }
}

/// A morphism between objects — represents a dependency or mathematical connection.
#[derive(Debug)]
pub struct Morphism {
    pub id: MorphismId,
    pub source: ObjectId,
    pub target: ObjectId,
    pub label: String,
}

impl Clone for Morphism {
    fn clone(&self) -> (r: Self)
        ensures
            r == *self,
    {
        Morphism {
            id: self.id.clone(),
            source: self.source.clone(),
            target: self.target.clone(),
            label: self.label.clone(),
        }
    }
}

/// The endpoints and label that composing `f` then `g` yields, when `f`'s
/// target is `g`'s source.
pub open spec fn composable(f: Morphism, g: Morphism) -> bool {
    f.target@ == g.source@
}

/// The label of the composite of `f` then `g`: `<f.label>;<g.label>`.
pub open spec fn composite_label(f: Seq<char>, g: Seq<char>) -> Seq<char> {
    f + ";"@ + g
}

/// `c` has the endpoints and label of `f` then `g`: `f`'s source, `g`'s
/// target and the composite label.
pub open spec fn is_composite(f: Morphism, g: Morphism, c: Morphism) -> bool {
    &&& c.source == f.source
    &&& c.target == g.target
    &&& c.label@ == composite_label(f.label@, g.label@)
}

/// Composition is associative: when `f` then `g` and `g` then `h` are
/// defined, so are `(f;g);h` and `f;(g;h)`, and the two have the same
/// source, target and label.
pub proof fn law_compose_associative(
    f: Morphism,
    g: Morphism,
    h: Morphism,
    fg: Morphism,
    gh: Morphism,
    fg_h: Morphism,
    f_gh: Morphism,
)
    requires
        composable(f, g),
        composable(g, h),
        is_composite(f, g, fg),
        is_composite(g, h, gh),
        is_composite(fg, h, fg_h),
        is_composite(f, gh, f_gh),
    ensures
        composable(fg, h),
        composable(f, gh),
        fg_h.source == f_gh.source,
        fg_h.target == f_gh.target,
        fg_h.label@ == f_gh.label@,
{
    assert(composite_label(composite_label(f.label@, g.label@), h.label@) =~= composite_label(
        f.label@,
        composite_label(g.label@, h.label@),
    ));
}

impl Morphism {
    /// A morphism with an empty label.
    pub fn new(id: &str, source: ObjectId, target: ObjectId) -> (r: Self)
        ensures
            r.id@ == id@,
            r.source == source,
            r.target == target,
            r.label@ == Seq::<char>::empty(),
    {
        Morphism { id: MorphismId(String::from_str(id)), source, target, label: String::new() }
    }

    pub fn with_label(self, label: &str) -> (r: Self)
        ensures
            r.id == self.id,
            r.source == self.source,
            r.target == self.target,
            r.label@ == label@,
    {
        let mut m = self;
        m.label = String::from_str(label);
        m
    }

    /// `self` then `other`: defined exactly when `self`'s target is
    /// `other`'s source.
    pub fn compose(&self, other: &Morphism, composed_id: &str) -> (r: Option<Morphism>)
        ensures
            r.is_some() == composable(*self, *other),
            r matches Some(c) ==> c.id@ == composed_id@ && is_composite(*self, *other, c),
    {
        if self.target.same_key(&other.source) {
            let label = self.label.clone().concat(";").concat(other.label.as_str());
            Some(
                Morphism {
                    id: MorphismId(String::from_str(composed_id)),
                    source: self.source.clone(),
                    target: other.target.clone(),
                    label,
                },
            )
        } else {
            None
        }
    }
}

/// `m` is the identity morphism that the category creates for the object
/// whose id is `k`: id `id_<k>`, from `k` to `k`, labelled `identity`.
pub open spec fn is_identity_for(m: Morphism, k: Seq<char>) -> bool {
    &&& m.id@ == "id_"@ + k
    &&& m.source@ == k
    &&& m.target@ == k
    &&& m.label@ == "identity"@
}

/// The morphisms reached through a sequence of references.
pub open spec fn deref_all(s: Seq<&Morphism>) -> Seq<Morphism> {
    s.map_values(|m: &Morphism| *m)
}

/// The objects reached through a sequence of references.
pub open spec fn deref_objects(s: Seq<&Object>) -> Seq<Object> {
    s.map_values(|o: &Object| *o)
}

/// One hom-set of the table: its (source, target) key and its morphisms.
pub type HomGroup = ((ObjectId, ObjectId), Vec<Morphism>);

/// The morphisms of the groups whose source is `src`, group by group.
pub open spec fn arrows_leaving(groups: Seq<HomGroup>, src: Seq<char>) -> Seq<Morphism>
    decreases groups.len(),
{
    if groups.len() == 0 {
        Seq::empty()
    } else {
        let rest = arrows_leaving(groups.drop_last(), src);
        if groups.last().0.0@ == src {
            rest + groups.last().1@
        } else {
            rest
        }
    }
}

/// The morphisms of the groups whose target is `tgt`, group by group.
pub open spec fn arrows_entering(groups: Seq<HomGroup>, tgt: Seq<char>) -> Seq<Morphism>
    decreases groups.len(),
{
    if groups.len() == 0 {
        Seq::empty()
    } else {
        let rest = arrows_entering(groups.drop_last(), tgt);
        if groups.last().0.1@ == tgt {
            rest + groups.last().1@
        } else {
            rest
        }
    }
}

/// All morphisms of the groups, group by group.
pub open spec fn all_arrows(groups: Seq<HomGroup>) -> Seq<Morphism>
    decreases groups.len(),
{
    if groups.len() == 0 {
        Seq::empty()
    } else {
        all_arrows(groups.drop_last()) + groups.last().1@
    }
}

/// `after` has the morphisms of `before` between every pair of objects,
/// followed by `m` between `m`'s own source and target.
pub open spec fn one_more_arrow(before: Category, after: Category, m: Morphism) -> bool {
    forall|s: Seq<char>, t: Seq<char>|
        #[trigger] after.arrows_between(s, t) == before.arrows_between(s, t) + if (
            m.source@,
            m.target@,
        ) == (s, t) {
            seq![m]
        } else {
            Seq::<Morphism>::empty()
        }
}

/// A category: a collection of objects and morphisms with identity and composition.
#[derive(Debug)]
pub struct Category {
    pub name: String,
    objects: KeyedMap<ObjectId, Object>,
    morphisms: KeyedMap<(ObjectId, ObjectId), Vec<Morphism>>,
    identities: KeyedMap<ObjectId, Morphism>,
}

impl Category {
    /// The objects, by id.
    pub closed spec fn object_table(&self) -> Map<Seq<char>, Object> {
        self.objects@
    }

    /// The ids of the objects, in the order they were first added.
    pub closed spec fn object_order(&self) -> Seq<Seq<char>> {
        self.objects.keys()
    }

    /// The objects, in the order their ids were first added.
    pub closed spec fn object_list(&self) -> Seq<Object> {
        self.objects.entries().map_values(|e: (ObjectId, Object)| e.1)
    }

    /// The identity morphisms, by object id.
    pub closed spec fn identity_table(&self) -> Map<Seq<char>, Morphism> {
        self.identities@
    }

    /// The non-identity morphisms, grouped by (source, target) in the order
    /// the groups were first created.
    pub closed spec fn hom_groups(&self) -> Seq<HomGroup> {
        self.morphisms.entries()
    }

    /// The non-identity morphisms, by (source, target).
    pub closed spec fn hom_table(&self) -> Map<(Seq<char>, Seq<char>), Vec<Morphism>> {
        self.morphisms@
    }

    /// The category's name.
    pub closed spec fn name_of(&self) -> String {
        self.name
    }

    /// Position of the (s, t) group among the groups.
    pub closed spec fn hom_index(&self, p: (Seq<char>, Seq<char>)) -> int {
        self.morphisms.index_of(p)
    }

    pub open spec fn has_object(&self, k: Seq<char>) -> bool {
        self.object_table().contains_key(k)
    }

    /// The non-identity morphisms from `s` to `t`, in the order they were added.
    pub open spec fn arrows_between(&self, s: Seq<char>, t: Seq<char>) -> Seq<Morphism> {
        if self.hom_table().contains_key((s, t)) {
            self.hom_table()[(s, t)]@
        } else {
            Seq::empty()
        }
    }

    /// All non-identity morphisms.
    pub open spec fn arrows(&self) -> Seq<Morphism> {
        all_arrows(self.hom_groups())
    }

    /// Well-formedness: each object is stored under its own id and has its
    /// identity; each group is keyed by objects of the category, holds at
    /// least one morphism, and only morphisms between its key's objects.
    pub closed spec fn wf(&self) -> bool {
        &&& self.objects.wf()
        &&& self.morphisms.wf()
        &&& self.identities.wf()
        &&& self.identities@.dom() == self.objects@.dom()
        &&& forall|k: Seq<char>| #[trigger]
            self.objects@.contains_key(k) ==> self.objects@[k].id@ == k && is_identity_for(
                self.identities@[k],
                k,
            )
        &&& forall|p: (Seq<char>, Seq<char>)| #[trigger]
            self.morphisms@.contains_key(p) ==> {
                &&& self.objects@.contains_key(p.0)
                &&& self.objects@.contains_key(p.1)
                &&& self.morphisms@[p]@.len() > 0
                &&& forall|i: int|
                    0 <= i < self.morphisms@[p]@.len() ==> (#[trigger] self.morphisms@[p]@[i]).source@
                        == p.0 && self.morphisms@[p]@[i].target@ == p.1
            }
    }

    /// Every object has its identity morphism and is stored under its id.
    pub proof fn lemma_identity(&self, k: Seq<char>)
        requires
            self.wf(),
            self.has_object(k),
        ensures
            self.identity_table().contains_key(k),
            is_identity_for(self.identity_table()[k], k),
            self.object_table()[k].id@ == k,
    {
    }

    /// The object list, the id order and the object table agree: ids are
    /// distinct, the ids are exactly the table's keys, and each listed
    /// object is the one stored under its id.
    pub proof fn lemma_object_list(&self)
        requires
            self.wf(),
        ensures
            self.object_list().len() == self.object_order().len(),
            self.object_order().no_duplicates(),
            self.object_order().to_set() == self.object_table().dom(),
            self.object_table().dom().finite(),
            self.object_table().len() == self.object_order().len(),
            forall|i: int|
                #![trigger self.object_order()[i]]
                0 <= i < self.object_order().len() ==> {
                    &&& self.has_object(self.object_order()[i])
                    &&& self.object_list()[i] == self.object_table()[self.object_order()[i]]
                    &&& self.object_list()[i].id@ == self.object_order()[i]
                },
            forall|k: Seq<char>| #[trigger]
                self.has_object(k) ==> self.object_order().contains(k),
    {
        self.objects.lemma_keys();
        assert forall|i: int|
            #![trigger self.object_order()[i]]
            0 <= i < self.object_order().len() implies {
                &&& self.has_object(self.object_order()[i])
                &&& self.object_list()[i] == self.object_table()[self.object_order()[i]]
                &&& self.object_list()[i].id@ == self.object_order()[i]
            } by {
            self.objects.lemma_entry(i);
        }
        assert forall|k: Seq<char>| #[trigger] self.has_object(k) implies self.object_order().contains(k) by {
            assert(self.object_order().to_set().contains(k));
        }
    }

    /// Some non-identity morphism goes from `s` to `t`.
    pub open spec fn has_arrow(&self, s: Seq<char>, t: Seq<char>) -> bool {
        self.arrows_between(s, t).len() > 0
    }

    /// Morphisms only join objects of the category.
    pub proof fn lemma_arrow_endpoints(&self, s: Seq<char>, t: Seq<char>)
        requires
            self.wf(),
            self.has_arrow(s, t),
        ensures
            self.has_object(s),
            self.has_object(t),
    {
    }

    /// The morphisms leaving `s`, group by group, each go from `s` to an
    /// object that `s` has an arrow to; and every object that `s` has an
    /// arrow to is the target of one of them.
    pub proof fn lemma_arrows_leaving(&self, s: Seq<char>)
        requires
            self.wf(),
        ensures
            forall|k: int|
                0 <= k < arrows_leaving(self.hom_groups(), s).len() ==> (#[trigger] arrows_leaving(
                    self.hom_groups(),
                    s,
                )[k]).source@ == s && self.has_arrow(s, arrows_leaving(self.hom_groups(), s)[k].target@),
            forall|t: Seq<char>| #[trigger]
                self.has_arrow(s, t) ==> exists|k: int|
                    0 <= k < arrows_leaving(self.hom_groups(), s).len() && (#[trigger] arrows_leaving(
                        self.hom_groups(),
                        s,
                    )[k]).target@ == t,
    {
        let g = self.hom_groups();
        self.lemma_leaving_prefix(s, g.len() as int);
        assert(g.take(g.len() as int) =~= g);
        assert forall|t: Seq<char>| #[trigger] self.has_arrow(s, t) implies exists|k: int|
            0 <= k < arrows_leaving(g, s).len() && (#[trigger] arrows_leaving(g, s)[k]).target@ == t by {
            let i = self.morphisms.index_of((s, t));
            self.morphisms.lemma_key((s, t));
            assert(g[i].0@ == (s, t));
        }
    }

    proof fn lemma_leaving_prefix(&self, s: Seq<char>, n: int)
        requires
            self.wf(),
            0 <= n <= self.hom_groups().len(),
        ensures
            forall|k: int|
                0 <= k < arrows_leaving(self.hom_groups().take(n), s).len() ==> (#[trigger] arrows_leaving(
                    self.hom_groups().take(n),
                    s,
                )[k]).source@ == s && self.has_arrow(
                    s,
                    arrows_leaving(self.hom_groups().take(n), s)[k].target@,
                ),
            forall|i: int|
                0 <= i < n && (#[trigger] self.hom_groups()[i]).0.0@ == s ==> exists|k: int|
                    0 <= k < arrows_leaving(self.hom_groups().take(n), s).len() && (#[trigger] arrows_leaving(
                        self.hom_groups().take(n),
                        s,
                    )[k]).target@ == self.hom_groups()[i].0.1@,
        decreases n,
    {
        let g = self.hom_groups();
        if n > 0 {
            self.lemma_leaving_prefix(s, n - 1);
            let gn = g.take(n);
            assert(gn.drop_last() =~= g.take(n - 1));
            let rest = arrows_leaving(g.take(n - 1), s);
            let last = g[n - 1];
            self.morphisms.lemma_entry(n - 1);
            let key = last.0@;
            assert(self.morphisms@.contains_key(key));
            assert(self.morphisms@[key] == last.1);
            if key.0 == s {
                let all = rest + last.1@;
                assert(arrows_leaving(gn, s) == all);
                assert forall|k: int| 0 <= k < all.len() implies (#[trigger] all[k]).source@ == s && self.has_arrow(s, all[k].target@) by {
                    if k >= rest.len() {
                        let j = k - rest.len();
                        assert(all[k] == last.1@[j]);
                        assert(last.1@[j].source@ == key.0);
                        assert(last.1@[j].target@ == key.1);
                    }
                }
                assert forall|i: int| 0 <= i < n && (#[trigger] g[i]).0.0@ == s implies exists|k: int|
                    0 <= k < all.len() && (#[trigger] all[k]).target@ == g[i].0.1@ by {
                    if i == n - 1 {
                        assert(all[rest.len() as int] == last.1@[0]);
                    } else {
                        let k = choose|k: int| 0 <= k < rest.len() && (#[trigger] rest[k]).target@ == g[i].0.1@;
                        assert(all[k] == rest[k]);
                    }
                }
            } else {
                assert(arrows_leaving(gn, s) == rest);
            }
        } else {
            assert(g.take(0) =~= Seq::<HomGroup>::empty());
        }
    }

    /// The morphisms entering `t`, group by group, each come into `t` from
    /// an object that has an arrow to `t`; and every object that has an arrow
    /// to `t` is the source of one of them.
    pub proof fn lemma_arrows_entering(&self, t: Seq<char>)
        requires
            self.wf(),
        ensures
            forall|k: int|
                0 <= k < arrows_entering(self.hom_groups(), t).len() ==> (#[trigger] arrows_entering(
                    self.hom_groups(),
                    t,
                )[k]).target@ == t && self.has_arrow(arrows_entering(self.hom_groups(), t)[k].source@, t),
            forall|s: Seq<char>| #[trigger]
                self.has_arrow(s, t) ==> exists|k: int|
                    0 <= k < arrows_entering(self.hom_groups(), t).len() && (#[trigger] arrows_entering(
                        self.hom_groups(),
                        t,
                    )[k]).source@ == s,
    {
        let g = self.hom_groups();
        self.lemma_entering_prefix(t, g.len() as int);
        assert(g.take(g.len() as int) =~= g);
        assert forall|s: Seq<char>| #[trigger] self.has_arrow(s, t) implies exists|k: int|
            0 <= k < arrows_entering(g, t).len() && (#[trigger] arrows_entering(g, t)[k]).source@ == s by {
            let i = self.morphisms.index_of((s, t));
            self.morphisms.lemma_key((s, t));
            assert(g[i].0@ == (s, t));
        }
    }

    proof fn lemma_entering_prefix(&self, t: Seq<char>, n: int)
        requires
            self.wf(),
            0 <= n <= self.hom_groups().len(),
        ensures
            forall|k: int|
                0 <= k < arrows_entering(self.hom_groups().take(n), t).len() ==> (#[trigger] arrows_entering(
                    self.hom_groups().take(n),
                    t,
                )[k]).target@ == t && self.has_arrow(
                    arrows_entering(self.hom_groups().take(n), t)[k].source@,
                    t,
                ),
            forall|i: int|
                0 <= i < n && (#[trigger] self.hom_groups()[i]).0.1@ == t ==> exists|k: int|
                    0 <= k < arrows_entering(self.hom_groups().take(n), t).len() && (#[trigger] arrows_entering(
                        self.hom_groups().take(n),
                        t,
                    )[k]).source@ == self.hom_groups()[i].0.0@,
        decreases n,
    {
        let g = self.hom_groups();
        if n > 0 {
            self.lemma_entering_prefix(t, n - 1);
            let gn = g.take(n);
            assert(gn.drop_last() =~= g.take(n - 1));
            let rest = arrows_entering(g.take(n - 1), t);
            let last = g[n - 1];
            self.morphisms.lemma_entry(n - 1);
            let key = last.0@;
            assert(self.morphisms@.contains_key(key));
            assert(self.morphisms@[key] == last.1);
            if key.1 == t {
                let all = rest + last.1@;
                assert(arrows_entering(gn, t) == all);
                assert forall|k: int| 0 <= k < all.len() implies (#[trigger] all[k]).target@ == t && self.has_arrow(all[k].source@, t) by {
                    if k >= rest.len() {
                        let j = k - rest.len();
                        assert(all[k] == last.1@[j]);
                        assert(last.1@[j].source@ == key.0);
                        assert(last.1@[j].target@ == key.1);
                    }
                }
                assert forall|i: int| 0 <= i < n && (#[trigger] g[i]).0.1@ == t implies exists|k: int|
                    0 <= k < all.len() && (#[trigger] all[k]).source@ == g[i].0.0@ by {
                    if i == n - 1 {
                        assert(all[rest.len() as int] == last.1@[0]);
                    } else {
                        let k = choose|k: int| 0 <= k < rest.len() && (#[trigger] rest[k]).source@ == g[i].0.0@;
                        assert(all[k] == rest[k]);
                    }
                }
            } else {
                assert(arrows_entering(gn, t) == rest);
            }
        } else {
            assert(g.take(0) =~= Seq::<HomGroup>::empty());
        }
    }

    /// Number of morphisms from `s` to `t`, identity included.
    pub open spec fn hom_size(&self, s: Seq<char>, t: Seq<char>) -> int {
        (if s == t && self.has_object(s) {
            1int
        } else {
            0int
        }) + self.arrows_between(s, t).len()
    }

    pub fn new(name: &str) -> (r: Self)
        ensures
            r.wf(),
            r.name_of()@ == name@,
            r.object_table() == Map::<Seq<char>, Object>::empty(),
            r.object_order() == Seq::<Seq<char>>::empty(),
            r.hom_groups() == Seq::<HomGroup>::empty(),
            r.hom_table() == Map::<(Seq<char>, Seq<char>), Vec<Morphism>>::empty(),
    {
        let r = Category {
            name: String::from_str(name),
            objects: KeyedMap::new(),
            morphisms: KeyedMap::new(),
            identities: KeyedMap::new(),
        };
        proof {
            use_type_invariant(&r.objects);
            use_type_invariant(&r.morphisms);
            use_type_invariant(&r.identities);
        }
        assert(r.object_order() =~= Seq::<Seq<char>>::empty());
        r
    }

    /// Add an object to the category, creating its identity morphism; an
    /// object with the same id is replaced.
    pub fn add_object(&mut self, obj: Object) -> (r: &mut Self)
        requires
            old(self).wf(),
        ensures
            r.wf(),
            r.name_of() == old(self).name_of(),
            r.object_table() == old(self).object_table().insert(obj.id@, obj),
            r.object_order() == if old(self).has_object(obj.id@) {
                old(self).object_order()
            } else {
                old(self).object_order().push(obj.id@)
            },
            r.hom_groups() == old(self).hom_groups(),
            r.hom_table() == old(self).hom_table(),
            *final(self) == *final(r),
    {
        proof {
            use_type_invariant(&self.objects);
            use_type_invariant(&self.identities);
        }
        let id = obj.id.clone();
        let identity = Morphism {
            id: MorphismId(String::from_str("id_").concat(id.0.as_str())),
            source: id.clone(),
            target: id.clone(),
            label: String::from_str("identity"),
        };
        let ghost idv = id@;
        let ghost old_objects = self.objects;
        self.identities.insert(id.clone(), identity);
        self.objects.insert(id, obj);
        proof {
            use_type_invariant(&self.objects);
            use_type_invariant(&self.identities);
            if old_objects@.contains_key(idv) {
                assert(self.objects.keys() =~= old_objects.keys());
            } else {
                assert(self.objects.keys() =~= old_objects.keys().push(idv));
            }
            assert(self.identities@.dom() =~= self.objects@.dom());
        }
        self
    }

    /// Add a morphism to the category.
    pub fn add_morphism(&mut self, m: Morphism) -> (r: Result<(), String>)
        requires
            old(self).wf(),
        ensures
            final(self).wf(),
            r.is_ok() == (old(self).has_object(m.source@) && old(self).has_object(m.target@)),
            r matches Err(e) ==> e@ == "Source or target object not in category"@ && *final(self)
                == *old(self),
            r.is_ok() ==> {
                &&& one_more_arrow(*old(self), *final(self), m)
                &&& final(self).name_of() == old(self).name_of()
                &&& final(self).object_table() == old(self).object_table()
                &&& final(self).object_order() == old(self).object_order()
                &&& final(self).hom_table().dom() == old(self).hom_table().dom().insert(
                    (m.source@, m.target@),
                )
                &&& final(self).arrows_between(m.source@, m.target@) == old(self).arrows_between(
                    m.source@,
                    m.target@,
                ).push(m)
                &&& forall|p: (Seq<char>, Seq<char>)|
                    p != (m.source@, m.target@) && #[trigger] old(self).hom_table().contains_key(p)
                        ==> final(self).hom_table()[p] == old(self).hom_table()[p]
                &&& old(self).hom_table().contains_key((m.source@, m.target@)) ==> {
                    let i = old(self).hom_index((m.source@, m.target@));
                    final(self).hom_groups() == old(self).hom_groups().update(
                        i,
                        (
                            old(self).hom_groups()[i].0,
                            final(self).hom_table()[(m.source@, m.target@)],
                        ),
                    )
                }
                &&& !old(self).hom_table().contains_key((m.source@, m.target@))
                    ==> final(self).hom_groups().len() == old(self).hom_groups().len() + 1
                    && final(self).hom_groups().take(old(self).hom_groups().len() as int)
                    == old(self).hom_groups() && final(self).hom_groups().last().0@ == (
                    m.source@,
                    m.target@,
                )
            },
    {
        if !self.objects.contains(&m.source) || !self.objects.contains(&m.target) {
            return Err(String::from_str("Source or target object not in category"));
        }
        let key = (m.source.clone(), m.target.clone());
        let ghost old_self = *self;
        let ghost mv = m;
        self.morphisms.append_value(key, m);
        proof {
            use_type_invariant(&self.morphisms);
            let kv = (mv.source@, mv.target@);
            assert forall|p: (Seq<char>, Seq<char>)| #[trigger]
                self.morphisms@.contains_key(p) implies {
                    &&& self.objects@.contains_key(p.0)
                    &&& self.objects@.contains_key(p.1)
                    &&& self.morphisms@[p]@.len() > 0
                    &&& forall|i: int|
                        0 <= i < self.morphisms@[p]@.len() ==> (#[trigger] self.morphisms@[p]@[i]).source@
                            == p.0 && self.morphisms@[p]@[i].target@ == p.1
                } by {
                if p != kv {
                    assert(old_self.morphisms@.contains_key(p));
                }
            }
            if !old_self.morphisms@.contains_key(kv) {
                assert(self.hom_groups().take(old_self.hom_groups().len() as int) =~= old_self.hom_groups());
            }
            assert forall|s: Seq<char>, t: Seq<char>| #[trigger] self.arrows_between(s, t) == old_self.arrows_between(s, t) + if kv == (s, t) {
                    seq![mv]
                } else {
                    Seq::<Morphism>::empty()
                } by {
                if kv == (s, t) {
                    if old_self.morphisms@.contains_key(kv) {
                    } else {
                        assert(old_self.arrows_between(s, t) + seq![mv] =~= seq![mv]);
                    }
                } else {
                    assert(old_self.arrows_between(s, t) + Seq::<Morphism>::empty() =~= old_self.arrows_between(s, t));
                }
            }
        }
        Ok(())
    }

    /// The category's name.
    pub fn name_ref(&self) -> (r: &String)
        ensures
            *r == self.name_of(),
    {
        &self.name
    }

    pub fn get_object(&self, id: &ObjectId) -> (r: Option<&Object>)
        ensures
            match r {
                Some(o) => self.has_object(id@) && *o == self.object_table()[id@],
                None => !self.has_object(id@),
            },
    {
        self.objects.lookup(id)
    }

    /// The objects, in the order their ids were first added.
    pub fn objects(&self) -> (r: Vec<&Object>)
        ensures
            deref_objects(r@) == self.object_list(),
    {
        let mut r: Vec<&Object> = Vec::new();
        let n = self.objects.len();
        let mut i: usize = 0;
        while i < n
            invariant
                n == self.objects.entries().len(),
                i <= n,
                deref_objects(r@) == self.object_list().take(i as int),
            decreases n - i,
        {
            let (_, o) = self.objects.entry_at(i);
            let ghost before = r@;
            r.push(o);
            proof {
                assert(r@ == before.push(o));
                assert(self.object_list().len() == n);
                assert(self.object_list().take(i as int).len() == i);
                assert(deref_objects(before).len() == i);
                assert(before.len() == i);
                assert(deref_objects(r@).len() == i + 1);
                assert forall|k: int| 0 <= k < i + 1 implies deref_objects(r@)[k]
                    == self.object_list().take(i + 1)[k] by {
                    if k < i {
                        assert(deref_objects(r@)[k] == *before[k]);
                        assert(deref_objects(before)[k] == *before[k]);
                    }
                }
            }
            i = i + 1;
            assert(deref_objects(r@) =~= self.object_list().take(i as int));
        }
        assert(self.object_list().take(n as int) =~= self.object_list());
        r
    }

    pub fn object_count(&self) -> (r: usize)
        ensures
            r == self.object_table().len(),
    {
        self.objects.len()
    }

    /// Number of morphisms, identities included.
    pub fn morphism_count(&self) -> (r: usize)
        requires
            self.wf(),
            self.arrows().len() + self.object_table().len() <= usize::MAX,
        ensures
            r == self.arrows().len() + self.object_table().len(),
    {
        proof {
            use_type_invariant(&self.identities);
            use_type_invariant(&self.objects);
            self.identities.lemma_keys();
            self.objects.lemma_keys();
        }
        let n = self.morphisms.len();
        let mut total: usize = 0;
        let mut i: usize = 0;
        while i < n
            invariant
                n == self.hom_groups().len(),
                i <= n,
                total == all_arrows(self.hom_groups().take(i as int)).len(),
                self.arrows().len() + self.object_table().len() <= usize::MAX,
            decreases n - i,
        {
            let (_, ms) = self.morphisms.entry_at(i);
            proof {
                assert(self.hom_groups().take(i + 1).drop_last() =~= self.hom_groups().take(i as int));
                lemma_all_arrows_prefix(self.hom_groups(), i + 1);
            }
            total = total + ms.len();
            i = i + 1;
        }
        assert(self.hom_groups().take(n as int) =~= self.hom_groups());
        total + self.identities.len()
    }

    /// The non-identity morphisms whose source is `src`, group by group.
    pub fn morphisms_from(&self, src: &ObjectId) -> (r: Vec<&Morphism>)
        ensures
            deref_all(r@) == arrows_leaving(self.hom_groups(), src@),
    {
        let mut r: Vec<&Morphism> = Vec::new();
        let n = self.morphisms.len();
        let mut i: usize = 0;
        while i < n
            invariant
                n == self.hom_groups().len(),
                i <= n,
                deref_all(r@) == arrows_leaving(self.hom_groups().take(i as int), src@),
            decreases n - i,
        {
            let (k, ms) = self.morphisms.entry_at(i);
            proof {
                assert(self.hom_groups().take(i + 1).drop_last() =~= self.hom_groups().take(i as int));
            }
            if k.0.same_key(src) {
                extend_refs(&mut r, ms);
            }
            i = i + 1;
        }
        assert(self.hom_groups().take(n as int) =~= self.hom_groups());
        r
    }

    /// The non-identity morphisms whose target is `tgt`, group by group.
    pub fn morphisms_to(&self, tgt: &ObjectId) -> (r: Vec<&Morphism>)
        ensures
            deref_all(r@) == arrows_entering(self.hom_groups(), tgt@),
    {
        let mut r: Vec<&Morphism> = Vec::new();
        let n = self.morphisms.len();
        let mut i: usize = 0;
        while i < n
            invariant
                n == self.hom_groups().len(),
                i <= n,
                deref_all(r@) == arrows_entering(self.hom_groups().take(i as int), tgt@),
            decreases n - i,
        {
            let (k, ms) = self.morphisms.entry_at(i);
            proof {
                assert(self.hom_groups().take(i + 1).drop_last() =~= self.hom_groups().take(i as int));
            }
            if k.1.same_key(tgt) {
                extend_refs(&mut r, ms);
            }
            i = i + 1;
        }
        assert(self.hom_groups().take(n as int) =~= self.hom_groups());
        r
    }

    /// Get identity morphism for an object.
    pub fn identity(&self, id: &ObjectId) -> (r: Option<&Morphism>)
        requires
            self.wf(),
        ensures
            match r {
                Some(m) => self.has_object(id@) && *m == self.identity_table()[id@]
                    && is_identity_for(*m, id@),
                None => !self.has_object(id@),
            },
    {
        self.identities.lookup(id)
    }

    /// Identities are neutral for composition, up to the label: for a
    /// morphism `m` between objects of the category, the identity of its
    /// source composes before it and the identity of its target after it,
    /// and either composite keeps `m`'s source and target.
    pub proof fn law_identity_neutral(&self, m: Morphism, l: Morphism, r: Morphism)
        requires
            self.wf(),
            self.has_object(m.source@),
            self.has_object(m.target@),
            is_composite(self.identity_table()[m.source@], m, l),
            is_composite(m, self.identity_table()[m.target@], r),
        ensures
            composable(self.identity_table()[m.source@], m),
            composable(m, self.identity_table()[m.target@]),
            l.source@ == m.source@,
            l.target == m.target,
            r.source == m.source,
            r.target@ == m.target@,
    {
        self.lemma_identity(m.source@);
        self.lemma_identity(m.target@);
    }

    /// An added object is found again: after `add_object(obj)` (from `before`
    /// to `self`), `get_object` returns `obj` under its id, and `identity`
    /// returns the identity morphism created for it.
    pub proof fn law_added_object_is_found(&self, before: Category, obj: Object)
        requires
            self.wf(),
            self.object_table() == before.object_table().insert(obj.id@, obj),
        ensures
            self.has_object(obj.id@),
            self.object_table()[obj.id@] == obj,
            self.identity_table().contains_key(obj.id@),
            is_identity_for(self.identity_table()[obj.id@], obj.id@),
    {
        self.lemma_identity(obj.id@);
    }

    /// Verify left identity law: id ∘ f = f
    pub fn check_left_identity(&self, m: &Morphism) -> (r: bool)
        requires
            self.wf(),
        ensures
            r == self.has_object(m.source@),
    {
        if let Some(id_mor) = self.identity(&m.source) {
            if let Some(composed) = id_mor.compose(m, "check") {
                composed.source.same_key(&m.source) && composed.target.same_key(&m.target)
            } else {
                false
            }
        } else {
            false
        }
    }

    /// Verify right identity law: f ∘ id = f
    pub fn check_right_identity(&self, m: &Morphism) -> (r: bool)
        requires
            self.wf(),
        ensures
            r == self.has_object(m.target@),
    {
        if let Some(id_mor) = self.identity(&m.target) {
            if let Some(composed) = m.compose(id_mor, "check") {
                composed.source.same_key(&m.source) && composed.target.same_key(&m.target)
            } else {
                false
            }
        } else {
            false
        }
    }

    /// Verify associativity: (f ∘ g) ∘ h = f ∘ (g ∘ h), for f: A→B, g: B→C, h: C→D.
    pub fn check_associativity(f: &Morphism, g: &Morphism, h: &Morphism) -> (r: bool)
        ensures
            r == (composable(*f, *g) && composable(*g, *h)),
    {
        let fg = f.compose(g, "fg");
        let gh = g.compose(h, "gh");
        match (fg, gh) {
            (Some(fg), Some(gh)) => {
                let left = fg.compose(h, "left");
                let right = f.compose(&gh, "right");
                match (left, right) {
                    (Some(l), Some(r)) => l.source.same_key(&r.source) && l.target.same_key(
                        &r.target,
                    ),
                    _ => false,
                }
            },
            _ => false,
        }
    }

    /// Get all morphisms between two objects: the identity first when
    /// source and target are the same object, then the others in the
    /// order they were added.
    pub fn hom(&self, src: &ObjectId, tgt: &ObjectId) -> (r: Vec<&Morphism>)
        requires
            self.wf(),
        ensures
            deref_all(r@) == if src@ == tgt@ && self.has_object(src@) {
                seq![self.identity_table()[src@]] + self.arrows_between(src@, tgt@)
            } else {
                self.arrows_between(src@, tgt@)
            },
    {
        let mut r: Vec<&Morphism> = Vec::new();
        if src.same_key(tgt) {
            if let Some(id) = self.identities.lookup(src) {
                r.push(id);
            }
        }
        let key = (src.clone(), tgt.clone());
        if let Some(ms) = self.morphisms.lookup(&key) {
            extend_refs(&mut r, ms);
        }
        proof {
            if src@ == tgt@ && self.has_object(src@) {
                assert(deref_all(r@) =~= seq![self.identity_table()[src@]] + self.arrows_between(
                    src@,
                    tgt@,
                ));
            } else {
                assert(deref_all(r@) =~= self.arrows_between(src@, tgt@));
            }
        }
        r
    }

    /// Check if this is a subcategory of another: every object id of `self`
    /// is an object id of `other`.
    pub fn is_subcategory_of(&self, other: &Category) -> (r: bool)
        ensures
            r == self.object_table().dom().subset_of(other.object_table().dom()),
    {
        proof { use_type_invariant(&self.objects); }
        let n = self.objects.len();
        let mut i: usize = 0;
        while i < n
            invariant
                n == self.objects.entries().len(),
                i <= n,
                self.objects.wf(),
                forall|j: int| 0 <= j < i ==> other.has_object(#[trigger] self.objects.entries()[j].0@),
            decreases n - i,
        {
            let (k, _) = self.objects.entry_at(i);
            if !other.objects.contains(k) {
                proof { self.objects.lemma_entry(i as int); }
                return false;
            }
            i = i + 1;
        }
        assert forall|k: Seq<char>| #[trigger] self.object_table().dom().contains(k) implies other.object_table().dom().contains(k) by {
            self.objects.lemma_key(k);
        }
        true
    }
}

/// Appends references to each element of `ms` to `r`.
fn extend_refs<'a>(r: &mut Vec<&'a Morphism>, ms: &'a Vec<Morphism>)
    ensures
        deref_all(final(r)@) == deref_all(old(r)@) + ms@,
{
    let ghost start = deref_all(r@);
    let mut j: usize = 0;
    while j < ms.len()
        invariant
            j <= ms@.len(),
            deref_all(r@) == start + ms@.take(j as int),
        decreases ms@.len() - j,
    {
        let ghost before = r@;
        let x = &ms[j];
        r.push(x);
        proof {
            assert(r@ == before.push(x));
            assert(deref_all(r@).len() == deref_all(before).len() + 1);
            assert forall|k: int| 0 <= k < deref_all(r@).len() implies deref_all(r@)[k] == (start
                + ms@.take(j + 1))[k] by {
                if k < before.len() {
                    assert(deref_all(r@)[k] == *before[k]);
                    assert(deref_all(before)[k] == *before[k]);
                }
            }
        }
        j = j + 1;
        assert(deref_all(r@) =~= start + ms@.take(j as int));
    }
    assert(ms@.take(ms@.len() as int) =~= ms@);
}

/// Taking a prefix of the groups never adds morphisms.
pub proof fn lemma_all_arrows_prefix(groups: Seq<HomGroup>, i: int)
    requires
        0 <= i <= groups.len(),
    ensures
        all_arrows(groups.take(i)).len() <= all_arrows(groups).len(),
    decreases groups.len(),
{
    if i < groups.len() {
        assert(groups.drop_last().take(i) =~= groups.take(i));
        lemma_all_arrows_prefix(groups.drop_last(), i);
    } else {
        assert(groups.take(i) =~= groups);
    }
}

} // verus!
