//! Adjunctions — pairs of functors (F ⊣ G) connecting obs/control, free/forgetful, discrete/continuous.

use vstd::prelude::*;
use crate::functor::{Functor, FunctorKind, chain, compose_error};
use crate::keyed_map::TextKey;
use crate::natural_transform::{NaturalTransformation, NaturalTransformationComponent};
use crate::category::ObjectId;

verus! {

/// An adjunction F ⊣ G between categories C and D.
/// F: C → D is left adjoint, G: D → C is right adjoint.
/// There is a natural bijection: Hom_D(F(X), Y) ≅ Hom_C(X, G(Y))
#[derive(Debug)]
pub struct Adjunction {
    pub name: String,
    pub left_adjoint: Functor,
    pub right_adjoint: Functor,
}

/// `left` goes from C to D and `right` from D back to C.
pub open spec fn adjoint_pair(left: Functor, right: Functor) -> bool {
    left.target_category@ == right.source_category@ && right.target_category@
        == left.source_category@
}

/// Why `Adjunction::new` refuses `left` and `right`, if it does.
pub open spec fn pair_error(left: Functor, right: Functor) -> Seq<char> {
    if left.target_category@ != right.source_category@ {
        "Left adjoint targets '"@ + left.target_category@ + "', but right adjoint sources '"@
            + right.source_category@ + "'"@
    } else {
        "Right adjoint targets '"@ + right.target_category@ + "', but left adjoint sources '"@
            + left.source_category@ + "'"@
    }
}

/// The conditions under which `a.compose(b, ..)` succeeds: the left
/// adjoints chain (F then F'), the right adjoints chain (G' then G), and the
/// composites form an adjoint pair.
pub open spec fn composable_adjunctions(a: Adjunction, b: Adjunction) -> bool {
    &&& a.left_adjoint.target_category@ == b.left_adjoint.source_category@
    &&& b.right_adjoint.target_category@ == a.right_adjoint.source_category@
    &&& b.left_adjoint.target_category@ == b.right_adjoint.source_category@
    &&& a.right_adjoint.target_category@ == a.left_adjoint.source_category@
}

impl Adjunction {
    /// Create a new adjunction from two functors.
    /// Verifies that F.target == G.source and G.target == F.source.
    pub fn new(name: &str, left: Functor, right: Functor) -> (r: Result<Self, String>)
        ensures
            r.is_ok() == adjoint_pair(left, right),
            r matches Err(e) ==> e@ == pair_error(left, right),
            r matches Ok(a) ==> a.name@ == name@ && a.left_adjoint == left && a.right_adjoint
                == right,
    {
        if !left.target_category.same_key(&right.source_category) {
            let msg = String::from_str("Left adjoint targets '").concat(
                left.target_category.as_str(),
            ).concat("', but right adjoint sources '").concat(right.source_category.as_str()).concat(
                "'",
            );
            return Err(msg);
        }
        if !right.target_category.same_key(&left.source_category) {
            let msg = String::from_str("Right adjoint targets '").concat(
                right.target_category.as_str(),
            ).concat("', but left adjoint sources '").concat(left.source_category.as_str()).concat(
                "'",
            );
            return Err(msg);
        }
        Ok(Adjunction { name: String::from_str(name), left_adjoint: left, right_adjoint: right })
    }

    /// The unit η: Id_C → G∘F (for each X in C, η_X: X → G(F(X)))
    pub fn unit(&self) -> (r: NaturalTransformation)
        ensures
            r.name_text() == "unit_"@ + self.name@,
            r.source_text() == "Id_C"@,
            r.target_text() == "G∘F_"@ + self.name@,
            r.component_seq() == Seq::<NaturalTransformationComponent>::empty(),
    {
        let name = String::from_str("unit_").concat(self.name.as_str());
        let target = String::from_str("G∘F_").concat(self.name.as_str());
        NaturalTransformation::new(name.as_str(), "Id_C", target.as_str())
    }

    /// The counit ε: F∘G → Id_D (for each Y in D, ε_Y: F(G(Y)) → Y)
    pub fn counit(&self) -> (r: NaturalTransformation)
        ensures
            r.name_text() == "counit_"@ + self.name@,
            r.source_text() == "F∘G_"@ + self.name@,
            r.target_text() == "Id_D"@,
            r.component_seq() == Seq::<NaturalTransformationComponent>::empty(),
    {
        let name = String::from_str("counit_").concat(self.name.as_str());
        let source = String::from_str("F∘G_").concat(self.name.as_str());
        NaturalTransformation::new(name.as_str(), source.as_str(), "Id_D")
    }

    /// Check triangle identities (simplified to the functors' categories
    /// lining up).
    pub fn check_triangle_identities(&self) -> (r: bool)
        ensures
            r == adjoint_pair(self.left_adjoint, self.right_adjoint),
    {
        self.left_adjoint.target_category.same_key(&self.right_adjoint.source_category)
            && self.right_adjoint.target_category.same_key(&self.left_adjoint.source_category)
    }

    /// Compose adjunctions: if F ⊣ G and F' ⊣ G', then F'∘F ⊣ G∘G'.
    pub fn compose(&self, other: &Adjunction, name: &str) -> (r: Result<Adjunction, String>)
        ensures
            r.is_ok() == composable_adjunctions(*self, *other),
            r matches Ok(a) ==> {
                &&& a.name@ == name@
                &&& a.left_adjoint.name@ == name@ + "_left"@
                &&& a.left_adjoint.source_category == self.left_adjoint.source_category
                &&& a.left_adjoint.target_category == other.left_adjoint.target_category
                &&& a.left_adjoint.object_map@ == chain(
                    self.left_adjoint.object_map@,
                    other.left_adjoint.object_map@,
                )
                &&& a.left_adjoint.morphism_map@ == chain(
                    self.left_adjoint.morphism_map@,
                    other.left_adjoint.morphism_map@,
                )
                &&& a.left_adjoint.kind == FunctorKind::Generic
                &&& a.right_adjoint.name@ == name@ + "_right"@
                &&& a.right_adjoint.source_category == other.right_adjoint.source_category
                &&& a.right_adjoint.target_category == self.right_adjoint.target_category
                &&& a.right_adjoint.object_map@ == chain(
                    other.right_adjoint.object_map@,
                    self.right_adjoint.object_map@,
                )
                &&& a.right_adjoint.morphism_map@ == chain(
                    other.right_adjoint.morphism_map@,
                    self.right_adjoint.morphism_map@,
                )
                &&& a.right_adjoint.kind == FunctorKind::Generic
            },
            r matches Err(e) ==> e@ == if self.left_adjoint.target_category@
                != other.left_adjoint.source_category@ {
                compose_error(self.left_adjoint, other.left_adjoint)
            } else if other.right_adjoint.target_category@ != self.right_adjoint.source_category@ {
                compose_error(other.right_adjoint, self.right_adjoint)
            } else if other.left_adjoint.target_category@ != other.right_adjoint.source_category@ {
                "Left adjoint targets '"@ + other.left_adjoint.target_category@
                    + "', but right adjoint sources '"@ + other.right_adjoint.source_category@
                    + "'"@
            } else {
                "Right adjoint targets '"@ + self.right_adjoint.target_category@
                    + "', but left adjoint sources '"@ + self.left_adjoint.source_category@
                    + "'"@
            },
    {
        let left_name = String::from_str(name).concat("_left");
        let right_name = String::from_str(name).concat("_right");
        let left = match self.left_adjoint.compose(&other.left_adjoint, left_name.as_str()) {
            Ok(f) => f,
            Err(e) => {
                return Err(e);
            },
        };
        let right = match other.right_adjoint.compose(&self.right_adjoint, right_name.as_str()) {
            Ok(g) => g,
            Err(e) => {
                return Err(e);
            },
        };
        Adjunction::new(name, left, right)
    }
}

/// Create the free-forgetful adjunction between sets and algebraic structures.
pub fn free_forgetful_adjunction(base_category: &str, algebraic_category: &str) -> (r: Result<
    Adjunction,
    String,
>)
    ensures
        r matches Ok(a) && a.name@ == "Free⊣Forget"@ && a.left_adjoint.name@ == "Free"@
            && a.left_adjoint.source_category@ == base_category@
            && a.left_adjoint.target_category@ == algebraic_category@
            && a.left_adjoint.kind == FunctorKind::Free && a.left_adjoint.object_map@ == Map::<
            Seq<char>,
            ObjectId,
        >::empty() && a.left_adjoint.morphism_map@ == Map::<Seq<char>, String>::empty()
            && a.right_adjoint.name@ == "Forget"@ && a.right_adjoint.source_category@
            == algebraic_category@ && a.right_adjoint.target_category@ == base_category@
            && a.right_adjoint.kind == FunctorKind::Forgetful && a.right_adjoint.object_map@
            == Map::<Seq<char>, ObjectId>::empty() && a.right_adjoint.morphism_map@ == Map::<
            Seq<char>,
            String,
        >::empty(),
{
    let free = Functor::new("Free", base_category, algebraic_category).with_kind(FunctorKind::Free);
    let forget = Functor::new("Forget", algebraic_category, base_category).with_kind(
        FunctorKind::Forgetful,
    );
    Adjunction::new("Free⊣Forget", free, forget)
}

/// Create the discrete-continuous adjunction.
pub fn discrete_continuous_adjunction(discrete_cat: &str, continuous_cat: &str) -> (r: Result<
    Adjunction,
    String,
>)
    ensures
        r matches Ok(a) && a.name@ == "Disc⊣Cont"@ && a.left_adjoint.name@ == "Discretize"@
            && a.left_adjoint.source_category@ == continuous_cat@
            && a.left_adjoint.target_category@ == discrete_cat@ && a.left_adjoint.kind
            == FunctorKind::Generic && a.left_adjoint.object_map@ == Map::<
            Seq<char>,
            ObjectId,
        >::empty() && a.left_adjoint.morphism_map@ == Map::<Seq<char>, String>::empty()
            && a.right_adjoint.name@ == "Continuify"@ && a.right_adjoint.source_category@
            == discrete_cat@ && a.right_adjoint.target_category@ == continuous_cat@
            && a.right_adjoint.kind == FunctorKind::Generic && a.right_adjoint.object_map@
            == Map::<Seq<char>, ObjectId>::empty() && a.right_adjoint.morphism_map@ == Map::<
            Seq<char>,
            String,
        >::empty(),
{
    let disc = Functor::new("Discretize", continuous_cat, discrete_cat);
    let cont = Functor::new("Continuify", discrete_cat, continuous_cat);
    Adjunction::new("Disc⊣Cont", disc, cont)
}

/// Composing two adjunctions succeeds whenever each is an adjoint pair and
/// the first one's left adjoint lands where the second one's starts.
pub proof fn law_adjunctions_compose(a: Adjunction, b: Adjunction)
    requires
        adjoint_pair(a.left_adjoint, a.right_adjoint),
        adjoint_pair(b.left_adjoint, b.right_adjoint),
        a.left_adjoint.target_category@ == b.left_adjoint.source_category@,
    ensures
        composable_adjunctions(a, b),
{
}

} // verus!
