use lau_functor_network::category::ObjectId;
use lau_functor_network::functor::Functor;
use lau_functor_network::natural_transform::{identity_natural_transformation, NaturalTransformation};

#[test]
fn test_natural_transformation_creation() {
    let nt = NaturalTransformation::new("alpha", "F", "G");
    assert_eq!(nt.name, "alpha");
    assert_eq!(nt.source_functor, "F");
}

#[test]
fn test_add_components() {
    let mut nt = NaturalTransformation::new("alpha", "F", "G");
    nt.add_component(ObjectId("x".into()), "alpha_x");
    nt.add_component(ObjectId("y".into()), "alpha_y");
    assert_eq!(nt.components().len(), 2);
}

#[test]
fn test_component_at() {
    let mut nt = NaturalTransformation::new("alpha", "F", "G");
    nt.add_component(ObjectId("x".into()), "alpha_x");
    let c = nt.component_at(&ObjectId("x".into())).unwrap();
    assert_eq!(c.morphism_label, "alpha_x");
}

#[test]
fn test_vertical_composition() {
    let mut alpha = NaturalTransformation::new("alpha", "F", "G");
    alpha.add_component(ObjectId("x".into()), "a_x");
    let mut beta = NaturalTransformation::new("beta", "G", "H");
    beta.add_component(ObjectId("x".into()), "b_x");
    let composed = alpha.vertical_compose(&beta, "beta_alpha").unwrap();
    assert_eq!(composed.source_functor, "F");
    assert_eq!(composed.target_functor, "H");
    assert_eq!(composed.components().len(), 1);
}

#[test]
fn test_vertical_composition_fails() {
    let alpha = NaturalTransformation::new("alpha", "F", "G");
    let beta = NaturalTransformation::new("beta", "H", "K");
    assert!(alpha.vertical_compose(&beta, "fail").is_err());
}

#[test]
fn test_identity_natural_transformation() {
    let id = identity_natural_transformation("F");
    assert_eq!(id.source_functor, "F");
    assert_eq!(id.target_functor, "F");
}

#[test]
fn test_naturality_check() {
    let mut nt = NaturalTransformation::new("alpha", "F", "G");
    nt.add_component(ObjectId("x".into()), "alpha_x");

    let mut f = Functor::new("F", "C", "D");
    f.map_object(ObjectId("x".into()), ObjectId("fx".into()));
    let mut g = Functor::new("G", "C", "D");
    g.map_object(ObjectId("x".into()), ObjectId("gx".into()));

    assert!(nt.check_naturality(&f, &g));
}

// ---- further cases ----

#[test]
fn vertical_composition_labels_and_filtering() {
    let mut alpha = NaturalTransformation::new("alpha", "F", "G");
    alpha.add_component(ObjectId("x".into()), "a_x");
    alpha.add_component(ObjectId("y".into()), "a_y");
    alpha.add_component(ObjectId("z".into()), "a_z");
    let mut beta = NaturalTransformation::new("beta", "G", "H");
    beta.add_component(ObjectId("z".into()), "b_z");
    beta.add_component(ObjectId("x".into()), "b_x");
    beta.add_component(ObjectId("x".into()), "b_x_second");
    let c = alpha.vertical_compose(&beta, "ba").unwrap();
    assert_eq!(c.name, "ba");
    let got: Vec<(String, String)> = c
        .components()
        .iter()
        .map(|k| (k.object_id.0.clone(), k.morphism_label.clone()))
        .collect();
    assert_eq!(
        got,
        vec![("x".to_string(), "b_x∘a_x".to_string()), ("z".to_string(), "b_z∘a_z".to_string())]
    );
}

#[test]
fn vertical_composition_error_text() {
    let alpha = NaturalTransformation::new("alpha", "F", "G");
    let beta = NaturalTransformation::new("beta", "H", "K");
    assert_eq!(
        alpha.vertical_compose(&beta, "fail").unwrap_err(),
        "Cannot vertically compose: alpha targets 'G', beta sources 'H'"
    );
}

#[test]
fn vertical_composition_associative_on_values() {
    let mut a = NaturalTransformation::new("a", "F", "G");
    a.add_component(ObjectId("x".into()), "ax").add_component(ObjectId("y".into()), "ay");
    let mut b = NaturalTransformation::new("b", "G", "H");
    b.add_component(ObjectId("y".into()), "by").add_component(ObjectId("x".into()), "bx");
    let mut c = NaturalTransformation::new("c", "H", "K");
    c.add_component(ObjectId("x".into()), "cx");
    let left = a.vertical_compose(&b, "ba").unwrap().vertical_compose(&c, "c(ba)").unwrap();
    let right = a.vertical_compose(&b.vertical_compose(&c, "cb").unwrap(), "(cb)a").unwrap();
    let l: Vec<(String, String)> = left.components().iter().map(|k| (k.object_id.0.clone(), k.morphism_label.clone())).collect();
    let r: Vec<(String, String)> = right.components().iter().map(|k| (k.object_id.0.clone(), k.morphism_label.clone())).collect();
    assert_eq!(l, r);
    assert_eq!(l, vec![("x".to_string(), "cx∘bx∘ax".to_string())]);
    assert_eq!(left.source_functor, right.source_functor);
    assert_eq!(left.target_functor, "K");
}

#[test]
fn component_at_first_match_and_missing() {
    let mut nt = NaturalTransformation::new("alpha", "F", "G");
    nt.add_component(ObjectId("x".into()), "first");
    nt.add_component(ObjectId("x".into()), "second");
    assert_eq!(nt.component_at(&ObjectId("x".into())).unwrap().morphism_label, "first");
    assert!(nt.component_at(&ObjectId("w".into())).is_none());
}

#[test]
fn naturality_fails_when_a_functor_misses_the_object() {
    let mut nt = NaturalTransformation::new("alpha", "F", "G");
    nt.add_component(ObjectId("x".into()), "alpha_x");
    let mut f = Functor::new("F", "C", "D");
    f.map_object(ObjectId("x".into()), ObjectId("fx".into()));
    let g = Functor::new("G", "C", "D");
    assert!(!nt.check_naturality(&f, &g));
    let empty = NaturalTransformation::new("e", "F", "G");
    assert!(empty.check_naturality(&f, &g));
}

#[test]
fn identity_transformation_name() {
    let id = identity_natural_transformation("F");
    assert_eq!(id.name, "id_F");
    assert!(id.components().is_empty());
}
