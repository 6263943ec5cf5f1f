use lau_functor_network::category::{Category, Object, ObjectId};
use lau_functor_network::functor::{forgetful_functor, free_functor, Functor, FunctorKind};

#[test]
fn test_functor_creation() {
    let f = Functor::new("F", "CatA", "CatB");
    assert_eq!(f.name, "F");
    assert_eq!(f.source_category, "CatA");
}

#[test]
fn test_functor_map_object() {
    let mut f = Functor::new("F", "CatA", "CatB");
    f.map_object(ObjectId("a".into()), ObjectId("a'".into()));
    assert_eq!(f.apply_object(&ObjectId("a".into())), Some(&ObjectId("a'".into())));
}

#[test]
fn test_functor_map_morphism() {
    let mut f = Functor::new("F", "CatA", "CatB");
    f.map_morphism("f", "F(f)");
    assert_eq!(f.apply_morphism("f"), Some(&"F(f)".to_string()));
}

#[test]
fn test_functor_composition() {
    let mut f = Functor::new("F", "CatA", "CatB");
    f.map_object(ObjectId("a".into()), ObjectId("b".into()));
    let mut g = Functor::new("G", "CatB", "CatC");
    g.map_object(ObjectId("b".into()), ObjectId("c".into()));
    let gf = f.compose(&g, "G∘F").unwrap();
    assert_eq!(gf.apply_object(&ObjectId("a".into())), Some(&ObjectId("c".into())));
}

#[test]
fn test_functor_composition_fails_wrong_categories() {
    let f = Functor::new("F", "CatA", "CatB");
    let g = Functor::new("G", "CatC", "CatD");
    assert!(f.compose(&g, "fail").is_err());
}

#[test]
fn test_forgetful_functor() {
    let f = forgetful_functor("TopologicalAgents", "SetAgents");
    assert_eq!(f.kind, FunctorKind::Forgetful);
}

#[test]
fn test_free_functor() {
    let f = free_functor("SetAgents", "GroupAgents");
    assert_eq!(f.kind, FunctorKind::Free);
}

#[test]
fn test_functor_preserves_identities() {
    let mut cat = Category::new("CatA");
    cat.add_object(Object::new("x", "X"));
    let mut f = Functor::new("F", "CatA", "CatB");
    f.map_object(ObjectId("x".into()), ObjectId("x".into()));
    assert!(f.preserves_identities(&cat));
}

#[test]
fn test_functor_kind_checks() {
    let f = Functor::new("F", "A", "B").with_kind(FunctorKind::FullyFaithful);
    assert!(f.is_faithful());
    assert!(f.is_full());
}

// ---- further cases ----

#[test]
fn functor_defaults() {
    let f = Functor::new("F", "A", "B");
    assert_eq!(f.kind, FunctorKind::Generic);
    assert_eq!(f.target_category, "B");
    assert!(f.apply_object(&ObjectId("a".into())).is_none());
    assert!(f.apply_morphism("m").is_none());
    assert!(!f.is_faithful());
    assert!(!f.is_full());
    assert!(f.preserves_composition());
}

#[test]
fn kind_checks_each_kind() {
    assert!(Functor::new("F", "A", "B").with_kind(FunctorKind::Faithful).is_faithful());
    assert!(!Functor::new("F", "A", "B").with_kind(FunctorKind::Faithful).is_full());
    assert!(Functor::new("F", "A", "B").with_kind(FunctorKind::Full).is_full());
    assert!(!Functor::new("F", "A", "B").with_kind(FunctorKind::Full).is_faithful());
}

#[test]
fn preserves_composition_cases() {
    let mut f = Functor::new("F", "A", "B");
    f.map_object(ObjectId("a".into()), ObjectId("b".into()));
    assert!(!f.preserves_composition());
    f.map_morphism("m", "Fm");
    assert!(f.preserves_composition());
}

#[test]
fn preserves_identities_detects_wrong_identity_image() {
    let mut cat = Category::new("CatA");
    cat.add_object(Object::new("x", "X"));
    cat.add_object(Object::new("y", "Y"));
    let mut f = Functor::new("F", "CatA", "CatA");
    f.map_object(ObjectId("x".into()), ObjectId("y".into()));
    f.map_morphism("id_x", "id_x");
    assert!(!f.preserves_identities(&cat));
    f.map_morphism("id_x", "id_y");
    assert!(f.preserves_identities(&cat));
}

#[test]
fn compose_error_message_and_metadata() {
    let f = Functor::new("F", "CatA", "CatB");
    let g = Functor::new("G", "CatC", "CatD");
    assert_eq!(
        f.compose(&g, "x").unwrap_err(),
        "Cannot compose: F targets 'CatB' but G sources 'CatC'"
    );
    let h = Functor::new("H", "CatB", "CatE").with_kind(FunctorKind::Free);
    let hf = f.compose(&h, "H∘F").unwrap();
    assert_eq!(hf.name, "H∘F");
    assert_eq!(hf.source_category, "CatA");
    assert_eq!(hf.target_category, "CatE");
    assert_eq!(hf.kind, FunctorKind::Generic);
}

#[test]
fn composition_drops_unmapped_and_maps_morphisms() {
    let mut f = Functor::new("F", "A", "B");
    f.map_object(ObjectId("a".into()), ObjectId("b".into()));
    f.map_object(ObjectId("x".into()), ObjectId("nowhere".into()));
    f.map_morphism("m", "Fm");
    let mut g = Functor::new("G", "B", "C");
    g.map_object(ObjectId("b".into()), ObjectId("c".into()));
    g.map_morphism("Fm", "GFm");
    let gf = f.compose(&g, "GF").unwrap();
    assert_eq!(gf.apply_object(&ObjectId("a".into())), Some(&ObjectId("c".into())));
    assert!(gf.apply_object(&ObjectId("x".into())).is_none());
    assert_eq!(gf.apply_morphism("m"), Some(&"GFm".to_string()));
}

#[test]
fn functor_composition_associative_on_values() {
    let mut f = Functor::new("F", "A", "B");
    f.map_object(ObjectId("a".into()), ObjectId("b".into()));
    f.map_object(ObjectId("a2".into()), ObjectId("b2".into()));
    let mut g = Functor::new("G", "B", "C");
    g.map_object(ObjectId("b".into()), ObjectId("c".into()));
    g.map_object(ObjectId("b2".into()), ObjectId("c2".into()));
    let mut h = Functor::new("H", "C", "D");
    h.map_object(ObjectId("c".into()), ObjectId("d".into()));
    let left = f.compose(&g, "GF").unwrap().compose(&h, "H(GF)").unwrap();
    let right = f.compose(&g.compose(&h, "HG").unwrap(), "(HG)F").unwrap();
    for k in ["a", "a2", "b", "zz"] {
        let key = ObjectId(k.to_string());
        assert_eq!(left.apply_object(&key), right.apply_object(&key));
    }
    assert_eq!(left.apply_object(&ObjectId("a".into())), Some(&ObjectId("d".into())));
    assert!(left.apply_object(&ObjectId("a2".into())).is_none());
}

#[test]
fn remapping_an_object_replaces_it() {
    let mut f = Functor::new("F", "A", "B");
    f.map_object(ObjectId("a".into()), ObjectId("b".into()))
        .map_object(ObjectId("a".into()), ObjectId("c".into()));
    assert_eq!(f.apply_object(&ObjectId("a".into())), Some(&ObjectId("c".into())));
    assert_eq!(f.object_map.len(), 1);
}

#[test]
fn forgetful_and_free_names() {
    let f = forgetful_functor("Top", "Set");
    assert_eq!(f.name, "forgetful");
    assert_eq!(f.source_category, "Top");
    assert!(f.object_map.is_empty());
    let g = free_functor("Set", "Grp");
    assert_eq!(g.name, "free");
    assert_eq!(g.target_category, "Grp");
}
