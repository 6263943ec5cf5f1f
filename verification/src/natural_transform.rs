//! Natural transformations — maps between functors connecting different views of the same math.

use vstd::prelude::*;
use crate::category::ObjectId;
use crate::functor::Functor;
use crate::keyed_map::TextKey;

verus! {

/// A component of a natural transformation at a specific object.
#[derive(Debug)]
pub struct NaturalTransformationComponent {
    pub object_id: ObjectId,
    pub morphism_label: String,
}

/// A component seen as its object id and its label.
pub open spec fn component_view(c: NaturalTransformationComponent) -> (Seq<char>, Seq<char>) {
    (c.object_id@, c.morphism_label@)
}

/// The components seen as (object id, label) pairs.
pub open spec fn component_views(cs: Seq<NaturalTransformationComponent>) -> Seq<(Seq<char>, Seq<char>)> {
    cs.map_values(|c: NaturalTransformationComponent| component_view(c))
}

/// Position of the first component at object `k`, or -1 when there is none.
pub open spec fn first_position(cs: Seq<NaturalTransformationComponent>, k: Seq<char>) -> int
    decreases cs.len(),
{
    if cs.len() == 0 {
        -1
    } else {
        let p = first_position(cs.drop_last(), k);
        if p >= 0 {
            p
        } else if cs.last().object_id@ == k {
            cs.len() - 1
        } else {
            -1
        }
    }
}

/// `first_position` is the least position of a component at `k`.
pub proof fn lemma_first_position(cs: Seq<NaturalTransformationComponent>, k: Seq<char>)
    ensures
        -1 <= first_position(cs, k) < cs.len(),
        first_position(cs, k) >= 0 ==> cs[first_position(cs, k)].object_id@ == k,
        forall|j: int| 0 <= j < cs.len() && (first_position(cs, k) == -1 || j < first_position(cs, k)) ==> #[trigger] cs[j].object_id@ != k,
    decreases cs.len(),
{
    if cs.len() > 0 {
        lemma_first_position(cs.drop_last(), k);
        assert forall|j: int| 0 <= j < cs.len() - 1 implies #[trigger] cs[j] == cs.drop_last()[j] by {}
    }
}

/// Vertical composition, component by component: each component of `cs`
/// at an object where `others` has a component `o` becomes
/// `(object, o.label ∘ label)`; the others are dropped.
pub open spec fn vertical_components(
    cs: Seq<NaturalTransformationComponent>,
    others: Seq<NaturalTransformationComponent>,
) -> Seq<(Seq<char>, Seq<char>)>
    decreases cs.len(),
{
    if cs.len() == 0 {
        Seq::empty()
    } else {
        let rest = vertical_components(cs.drop_last(), others);
        let c = cs.last();
        let p = first_position(others, c.object_id@);
        if p >= 0 {
            rest.push((c.object_id@, others[p].morphism_label@ + "∘"@ + c.morphism_label@))
        } else {
            rest
        }
    }
}

/// Position of the first (object, label) pair at object `k`, or -1.
pub open spec fn first_view_position(vs: Seq<(Seq<char>, Seq<char>)>, k: Seq<char>) -> int
    decreases vs.len(),
{
    if vs.len() == 0 {
        -1
    } else {
        let p = first_view_position(vs.drop_last(), k);
        if p >= 0 {
            p
        } else if vs.last().0 == k {
            vs.len() - 1
        } else {
            -1
        }
    }
}

/// Vertical composition on (object, label) pairs: each pair of `cs` at an
/// object where `os` has a first pair `o` becomes `(object, o.label ∘ label)`.
pub open spec fn vertical_views(
    cs: Seq<(Seq<char>, Seq<char>)>,
    os: Seq<(Seq<char>, Seq<char>)>,
) -> Seq<(Seq<char>, Seq<char>)>
    decreases cs.len(),
{
    if cs.len() == 0 {
        Seq::empty()
    } else {
        let rest = vertical_views(cs.drop_last(), os);
        let c = cs.last();
        let p = first_view_position(os, c.0);
        if p >= 0 {
            rest.push((c.0, os[p].1 + "∘"@ + c.1))
        } else {
            rest
        }
    }
}

/// Looking components up by object sees only their views.
proof fn lemma_first_position_views(cs: Seq<NaturalTransformationComponent>, k: Seq<char>)
    ensures
        first_position(cs, k) == first_view_position(component_views(cs), k),
    decreases cs.len(),
{
    if cs.len() > 0 {
        lemma_first_position_views(cs.drop_last(), k);
        assert(component_views(cs.drop_last()) =~= component_views(cs).drop_last());
    }
}

/// Vertical composition of components depends on their views alone.
proof fn lemma_vertical_views(
    cs: Seq<NaturalTransformationComponent>,
    os: Seq<NaturalTransformationComponent>,
)
    ensures
        vertical_components(cs, os) == vertical_views(component_views(cs), component_views(os)),
    decreases cs.len(),
{
    if cs.len() > 0 {
        lemma_vertical_views(cs.drop_last(), os);
        assert(component_views(cs.drop_last()) =~= component_views(cs).drop_last());
        lemma_first_position_views(os, cs.last().object_id@);
        lemma_first_position(os, cs.last().object_id@);
    }
}

/// Where the first pair at `x` lands after composing `bs` with `cs`: there
/// is one exactly when both have a pair at `x`, and its label is the
/// composite of their first labels there.
proof fn lemma_first_in_composite(
    bs: Seq<(Seq<char>, Seq<char>)>,
    cs: Seq<(Seq<char>, Seq<char>)>,
    x: Seq<char>,
)
    ensures
        -1 <= first_view_position(bs, x) < bs.len(),
        -1 <= first_view_position(cs, x) < cs.len(),
        -1 <= first_view_position(vertical_views(bs, cs), x) < vertical_views(bs, cs).len(),
        (first_view_position(vertical_views(bs, cs), x) >= 0) == (first_view_position(bs, x) >= 0
            && first_view_position(cs, x) >= 0),
        first_view_position(vertical_views(bs, cs), x) >= 0 ==> vertical_views(bs, cs)[first_view_position(
            vertical_views(bs, cs),
            x,
        )] == (x, cs[first_view_position(cs, x)].1 + "∘"@ + bs[first_view_position(bs, x)].1),
    decreases bs.len(),
{
    lemma_first_view_bounds(cs, x);
    lemma_first_view_bounds(bs, x);
    let v = vertical_views(bs, cs);
    lemma_first_view_bounds(v, x);
    if bs.len() > 0 {
        let b0 = bs.drop_last();
        let b = bs.last();
        lemma_first_in_composite(b0, cs, x);
        let v0 = vertical_views(b0, cs);
        lemma_first_view_bounds(b0, x);
        lemma_first_view_bounds(v0, x);
        let q = first_view_position(cs, b.0);
        if q >= 0 {
            assert(v.drop_last() =~= v0);
            assert(v.last() == (b.0, cs[q].1 + "∘"@ + b.1));
        } else {
            assert(v == v0);
        }
    }
}

/// `first_view_position` is -1 or a position of the sequence holding `k`.
proof fn lemma_first_view_bounds(vs: Seq<(Seq<char>, Seq<char>)>, k: Seq<char>)
    ensures
        -1 <= first_view_position(vs, k) < vs.len(),
        first_view_position(vs, k) >= 0 ==> vs[first_view_position(vs, k)].0 == k,
        first_view_position(vs, k) >= 0 ==> first_view_position(vs, k) == first_view_position(
            vs.drop_last(),
            k,
        ) || first_view_position(vs, k) == vs.len() - 1,
    decreases vs.len(),
{
    if vs.len() > 0 {
        lemma_first_view_bounds(vs.drop_last(), k);
    }
}

/// Vertical composition is associative on (object, label) pairs.
proof fn lemma_vertical_views_associative(
    a: Seq<(Seq<char>, Seq<char>)>,
    b: Seq<(Seq<char>, Seq<char>)>,
    c: Seq<(Seq<char>, Seq<char>)>,
)
    ensures
        vertical_views(vertical_views(a, b), c) == vertical_views(a, vertical_views(b, c)),
    decreases a.len(),
{
    if a.len() > 0 {
        let a0 = a.drop_last();
        let x = a.last();
        lemma_vertical_views_associative(a0, b, c);
        lemma_first_in_composite(b, c, x.0);
        lemma_first_view_bounds(b, x.0);
        lemma_first_view_bounds(c, x.0);
        let ab = vertical_views(a, b);
        let ab0 = vertical_views(a0, b);
        let p = first_view_position(b, x.0);
        let q = first_view_position(c, x.0);
        if p >= 0 {
            assert(ab.drop_last() =~= ab0);
            assert(ab.last() == (x.0, b[p].1 + "∘"@ + x.1));
            assert(c[q].1 + "∘"@ + (b[p].1 + "∘"@ + x.1) =~= c[q].1 + "∘"@ + b[p].1 + "∘"@ + x.1);
        } else {
            assert(ab == ab0);
        }
    }
}

/// Vertical composition is associative: composing α with β and the result
/// with γ gives the same components, in the same order and with the same
/// labels, as composing α with the composite of β and γ.
pub proof fn law_vertical_compose_associative(
    alpha: NaturalTransformation,
    beta: NaturalTransformation,
    gamma: NaturalTransformation,
    beta_alpha: NaturalTransformation,
    gamma_beta: NaturalTransformation,
    left: NaturalTransformation,
    right: NaturalTransformation,
)
    requires
        component_views(beta_alpha.component_seq()) == vertical_components(alpha.component_seq(), beta.component_seq()),
        component_views(gamma_beta.component_seq()) == vertical_components(beta.component_seq(), gamma.component_seq()),
        component_views(left.component_seq()) == vertical_components(beta_alpha.component_seq(), gamma.component_seq()),
        component_views(right.component_seq()) == vertical_components(alpha.component_seq(), gamma_beta.component_seq()),
    ensures
        component_views(left.component_seq()) == component_views(right.component_seq()),
{
    let a = component_views(alpha.component_seq());
    let b = component_views(beta.component_seq());
    let c = component_views(gamma.component_seq());
    lemma_vertical_views(alpha.component_seq(), beta.component_seq());
    lemma_vertical_views(beta.component_seq(), gamma.component_seq());
    lemma_vertical_views(beta_alpha.component_seq(), gamma.component_seq());
    lemma_vertical_views(alpha.component_seq(), gamma_beta.component_seq());
    lemma_vertical_views_associative(a, b, c);
}

/// A natural transformation α: F ⇒ G between functors F, G: C → D.
/// For each object X in C, there is a morphism α_X: F(X) → G(X) in D,
/// such that α_Y ∘ F(f) = G(f) ∘ α_X for every f: X → Y.
#[derive(Debug)]
pub struct NaturalTransformation {
    pub name: String,
    pub source_functor: String,
    pub target_functor: String,
    components: Vec<NaturalTransformationComponent>,
}

impl NaturalTransformation {
    pub closed spec fn name_text(&self) -> Seq<char> {
        self.name@
    }

    pub closed spec fn source_text(&self) -> Seq<char> {
        self.source_functor@
    }

    pub closed spec fn target_text(&self) -> Seq<char> {
        self.target_functor@
    }

    /// The components, in the order they were added.
    pub closed spec fn component_seq(&self) -> Seq<NaturalTransformationComponent> {
        self.components@
    }

    pub fn new(name: &str, source: &str, target: &str) -> (r: Self)
        ensures
            r.name_text() == name@,
            r.source_text() == source@,
            r.target_text() == target@,
            r.component_seq() == Seq::<NaturalTransformationComponent>::empty(),
    {
        NaturalTransformation {
            name: String::from_str(name),
            source_functor: String::from_str(source),
            target_functor: String::from_str(target),
            components: Vec::new(),
        }
    }

    /// Add a component at object X: α_X: F(X) → G(X)
    pub fn add_component(&mut self, obj_id: ObjectId, label: &str) -> (r: &mut Self)
        ensures
            r.name_text() == old(self).name_text(),
            r.source_text() == old(self).source_text(),
            r.target_text() == old(self).target_text(),
            r.component_seq().len() == old(self).component_seq().len() + 1,
            r.component_seq().drop_last() == old(self).component_seq(),
            r.component_seq().last().object_id == obj_id,
            r.component_seq().last().morphism_label@ == label@,
            *final(self) == *final(r),
    {
        self.components.push(
            NaturalTransformationComponent { object_id: obj_id, morphism_label: String::from_str(label) },
        );
        proof {
            assert(self.components@.drop_last() =~= old(self).components@);
        }
        self
    }

    pub fn components(&self) -> (r: &[NaturalTransformationComponent])
        ensures
            r@ == self.component_seq(),
    {
        self.components.as_slice()
    }

    /// The first component at `obj_id`, if any.
    pub fn component_at(&self, obj_id: &ObjectId) -> (r: Option<&NaturalTransformationComponent>)
        ensures
            r.is_some() == (first_position(self.component_seq(), obj_id@) >= 0),
            r matches Some(c) ==> *c == self.component_seq()[first_position(self.component_seq(), obj_id@)],
    {
        proof { lemma_first_position(self.components@, obj_id@); }
        let mut i: usize = 0;
        while i < self.components.len()
            invariant
                i <= self.components@.len(),
                -1 <= first_position(self.components@, obj_id@) < self.components@.len(),
                first_position(self.components@, obj_id@) >= 0 ==> self.components@[first_position(self.components@, obj_id@)].object_id@ == obj_id@,
                forall|j: int| 0 <= j < self.components@.len() && (first_position(self.components@, obj_id@) == -1 || j < first_position(self.components@, obj_id@)) ==> #[trigger] self.components@[j].object_id@ != obj_id@,
                forall|j: int| 0 <= j < i ==> #[trigger] self.components@[j].object_id@ != obj_id@,
            decreases self.components@.len() - i,
        {
            if self.components[i].object_id.same_key(obj_id) {
                return Some(&self.components[i]);
            }
            i = i + 1;
        }
        None
    }

    /// Vertical composition: given α: F ⇒ G (`self`) and β: G ⇒ H
    /// (`other`), produce β ∘ α: F ⇒ H.
    pub fn vertical_compose(&self, other: &NaturalTransformation, name: &str) -> (r: Result<
        NaturalTransformation,
        String,
    >)
        ensures
            r.is_ok() == (self.target_text() == other.source_text()),
            r matches Err(e) ==> e@ == "Cannot vertically compose: "@ + self.name_text()
                + " targets '"@ + self.target_text() + "', "@ + other.name_text() + " sources '"@
                + other.source_text() + "'"@,
            r matches Ok(c) ==> {
                &&& c.name_text() == name@
                &&& c.source_text() == self.source_text()
                &&& c.target_text() == other.target_text()
                &&& component_views(c.component_seq()) == vertical_components(
                    self.component_seq(),
                    other.component_seq(),
                )
            },
    {
        if !self.target_functor.same_key(&other.source_functor) {
            let msg = String::from_str("Cannot vertically compose: ").concat(self.name.as_str()).concat(
                " targets '",
            ).concat(self.target_functor.as_str()).concat("', ").concat(other.name.as_str()).concat(
                " sources '",
            ).concat(other.source_functor.as_str()).concat("'");
            return Err(msg);
        }
        let mut composed = NaturalTransformation::new(
            name,
            self.source_functor.as_str(),
            other.target_functor.as_str(),
        );
        let n = self.components.len();
        let mut i: usize = 0;
        while i < n
            invariant
                n == self.components@.len(),
                i <= n,
                composed.name@ == name@,
                composed.source_functor@ == self.source_functor@,
                composed.target_functor@ == other.target_functor@,
                component_views(composed.components@) == vertical_components(
                    self.components@.take(i as int),
                    other.components@,
                ),
            decreases n - i,
        {
            let c = &self.components[i];
            let ghost before = composed.components@;
            proof {
                assert(self.components@.take(i + 1).drop_last() =~= self.components@.take(i as int));
            }
            if let Some(other_c) = other.component_at(&c.object_id) {
                let label = other_c.morphism_label.clone().concat("∘").concat(c.morphism_label.as_str());
                composed.components.push(
                    NaturalTransformationComponent { object_id: c.object_id.clone(), morphism_label: label },
                );
                assert(component_views(composed.components@) =~= component_views(before).push(
                    component_view(composed.components@.last()),
                ));
            }
            i = i + 1;
        }
        assert(self.components@.take(n as int) =~= self.components@);
        Ok(composed)
    }

    /// Check naturality (structurally): both functors map the object of
    /// every component.
    pub fn check_naturality(&self, functor_f: &Functor, functor_g: &Functor) -> (r: bool)
        ensures
            r == forall|i: int|
                0 <= i < self.component_seq().len() ==> functor_f.object_map@.contains_key(
                    #[trigger] self.component_seq()[i].object_id@,
                ) && functor_g.object_map@.contains_key(self.component_seq()[i].object_id@),
    {
        let mut i: usize = 0;
        while i < self.components.len()
            invariant
                i <= self.components@.len(),
                forall|j: int|
                    0 <= j < i ==> functor_f.object_map@.contains_key(
                        #[trigger] self.components@[j].object_id@,
                    ) && functor_g.object_map@.contains_key(self.components@[j].object_id@),
            decreases self.components@.len() - i,
        {
            let c = &self.components[i];
            if functor_f.apply_object(&c.object_id).is_none() || functor_g.apply_object(
                &c.object_id,
            ).is_none() {
                proof {
                    assert(self.component_seq()[i as int] == *c);
                }
                return false;
            }
            i = i + 1;
        }
        true
    }
}

/// Identity natural transformation 1_F: F ⇒ F.
pub fn identity_natural_transformation(functor_name: &str) -> (r: NaturalTransformation)
    ensures
        r.name_text() == "id_"@ + functor_name@,
        r.source_text() == functor_name@,
        r.target_text() == functor_name@,
        r.component_seq() == Seq::<NaturalTransformationComponent>::empty(),
{
    let name = String::from_str("id_").concat(functor_name);
    NaturalTransformation::new(name.as_str(), functor_name, functor_name)
}

} // verus!
