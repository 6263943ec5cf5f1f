use lau_functor_network::category::{Category, Morphism, MorphismId, Object, ObjectId};
use lau_functor_network::yoneda::{ContravariantYoneda, CovariantYoneda, RepresentableFunctor, YonedaEmbedding};

fn yoneda_setup() -> Category {
    let mut cat = Category::new("TestCat");
    cat.add_object(Object::new("a", "A"));
    cat.add_object(Object::new("b", "B"));
    cat.add_object(Object::new("c", "C"));
    cat.add_morphism(Morphism::new("f", ObjectId("a".into()), ObjectId("b".into()))).unwrap();
    cat.add_morphism(Morphism::new("g", ObjectId("b".into()), ObjectId("c".into()))).unwrap();
    cat
}

#[test]
fn test_representable_functor() {
    let cat = yoneda_setup();
    let rep = RepresentableFunctor::new(ObjectId("a".into()), "TestCat");
    let hom = rep.at(&cat, &ObjectId("b".into()));
    assert_eq!(hom.len(), 1);
}

#[test]
fn test_representable_functor_hom_to_self() {
    let cat = yoneda_setup();
    let rep = RepresentableFunctor::new(ObjectId("a".into()), "TestCat");
    let hom = rep.at(&cat, &ObjectId("a".into()));
    assert!(hom.len() >= 1); // at least identity
}

#[test]
fn test_yoneda_embedding() {
    let cat = yoneda_setup();
    let embedding = YonedaEmbedding::new(&cat);
    assert!(embedding.embed(&ObjectId("a".into())).is_some());
    assert!(embedding.embed(&ObjectId("b".into())).is_some());
}

#[test]
fn test_yoneda_embedding_all_objects() {
    let cat = yoneda_setup();
    let embedding = YonedaEmbedding::new(&cat);
    assert_eq!(embedding.embeddings.len(), 3);
}

#[test]
fn test_verify_yoneda() {
    let cat = yoneda_setup();
    let embedding = YonedaEmbedding::new(&cat);
    let f = |_: &ObjectId| 1usize;
    assert!(embedding.verify_yoneda(&cat, &ObjectId("a".into()), &f));
}

#[test]
fn test_objects_isomorphic_via_yoneda_same_object() {
    let cat = yoneda_setup();
    let embedding = YonedaEmbedding::new(&cat);
    assert!(embedding.objects_isomorphic_via_yoneda(&cat, &ObjectId("a".into()), &ObjectId("a".into())));
}

#[test]
fn test_objects_isomorphic_via_yoneda_different_objects() {
    let cat = yoneda_setup();
    let embedding = YonedaEmbedding::new(&cat);
    // a and b have different hom-sets so they shouldn't be isomorphic
    let result = embedding.objects_isomorphic_via_yoneda(&cat, &ObjectId("a".into()), &ObjectId("c".into()));
    // They're not isomorphic (a has morphism to b, c doesn't)
    assert!(!result);
}

#[test]
fn test_covariant_yoneda_iso() {
    let result = CovariantYoneda::yoneda_iso(&42, &|x: &i32| x.to_string());
    assert_eq!(result, "42");
}

#[test]
fn test_contravariant_yoneda_iso() {
    let result = ContravariantYoneda::yoneda_iso(&"hello", &|s: &&str| s.len());
    assert_eq!(result, 5);
}

// ---- further cases ----

#[test]
fn representable_at_self_lists_identity_first() {
    let mut cat = yoneda_setup();
    cat.add_morphism(Morphism::new("loop", ObjectId("a".into()), ObjectId("a".into()))).unwrap();
    let rep = RepresentableFunctor::new(ObjectId("a".into()), "TestCat");
    let hom = rep.at(&cat, &ObjectId("a".into()));
    let ids: Vec<MorphismId> = hom.iter().map(|m| m.id.clone()).collect();
    assert_eq!(ids, vec![MorphismId("id_a".into()), MorphismId("loop".into())]);
    assert!(rep.at(&cat, &ObjectId("c".into())).is_empty());
    assert_eq!(rep.category_name, "TestCat");
}

#[test]
fn embedding_details() {
    let cat = yoneda_setup();
    let embedding = YonedaEmbedding::new(&cat);
    assert_eq!(embedding.category_name, "TestCat");
    let rep = embedding.embed(&ObjectId("c".into())).unwrap();
    assert_eq!(rep.representing_object, ObjectId("c".into()));
    assert_eq!(rep.category_name, "TestCat");
    assert!(embedding.embed(&ObjectId("zz".into())).is_none());
    let f = |_: &ObjectId| 0usize;
    assert!(!embedding.verify_yoneda(&cat, &ObjectId("zz".into()), &f));
}

#[test]
fn yoneda_iso_is_symmetric_on_values() {
    let mut cat = Category::new("Sym");
    cat.add_object(Object::new("a", "A"));
    cat.add_object(Object::new("b", "B"));
    cat.add_object(Object::new("t", "T"));
    cat.add_morphism(Morphism::new("f", ObjectId("a".into()), ObjectId("b".into()))).unwrap();
    cat.add_morphism(Morphism::new("g", ObjectId("b".into()), ObjectId("a".into()))).unwrap();
    let embedding = YonedaEmbedding::new(&cat);
    let a = ObjectId("a".into());
    let b = ObjectId("b".into());
    assert!(embedding.objects_isomorphic_via_yoneda(&cat, &a, &b));
    assert!(embedding.objects_isomorphic_via_yoneda(&cat, &b, &a));
    assert!(!embedding.objects_isomorphic_via_yoneda(&cat, &a, &ObjectId("t".into())));
}
