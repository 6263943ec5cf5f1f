use lau_functor_network::category::ObjectId;
use lau_functor_network::functor::Functor;
use lau_functor_network::kan_extension::{KanExtension, KanKind};

fn kan_setup_functors() -> (Functor, Functor) {
    let mut f = Functor::new("F", "C", "D");
    f.map_object(ObjectId("a".into()), ObjectId("fa".into()));
    f.map_object(ObjectId("b".into()), ObjectId("fb".into()));
    let mut k = Functor::new("K", "C", "E");
    k.map_object(ObjectId("a".into()), ObjectId("ka".into()));
    k.map_object(ObjectId("b".into()), ObjectId("kb".into()));
    (f, k)
}

#[test]
fn test_left_kan_extension() {
    let (f, k) = kan_setup_functors();
    let lan = KanExtension::left_kan("LanF_K", &f, &k).unwrap();
    assert_eq!(lan.kind, KanKind::Left);
    assert_eq!(lan.apply(&ObjectId("a".into())), Some(&ObjectId("ka".into())));
}

#[test]
fn test_right_kan_extension() {
    let (f, k) = kan_setup_functors();
    let ran = KanExtension::right_kan("RanF_K", &f, &k).unwrap();
    assert_eq!(ran.kind, KanKind::Right);
    assert_eq!(ran.apply(&ObjectId("b".into())), Some(&ObjectId("kb".into())));
}

#[test]
fn test_kan_fails_wrong_source() {
    let f = Functor::new("F", "C", "D");
    let k = Functor::new("K", "X", "E");
    assert!(KanExtension::left_kan("fail", &f, &k).is_err());
}

#[test]
fn test_kan_unit() {
    let (f, k) = kan_setup_functors();
    let lan = KanExtension::left_kan("LanF_K", &f, &k).unwrap();
    let unit = lan.unit();
    assert!(unit.contains("η"));
}

#[test]
fn test_kan_counit() {
    let (f, k) = kan_setup_functors();
    let ran = KanExtension::right_kan("RanF_K", &f, &k).unwrap();
    let counit = ran.counit();
    assert!(counit.contains("ε"));
}

#[test]
fn test_kan_compose() {
    let (f, k) = kan_setup_functors();
    let lan = KanExtension::left_kan("Lan", &f, &k).unwrap();
    let composed = lan.compose(&lan).unwrap();
    assert!(composed.name.contains("composed"));
}

// ---- further cases ----

#[test]
fn kan_names_and_descriptions() {
    let (f, k) = kan_setup_functors();
    let lan = KanExtension::left_kan("L", &f, &k).unwrap();
    assert_eq!(lan.result_functor_name, "Lan_F(K)");
    assert_eq!(lan.along_functor, "F");
    assert_eq!(lan.extended_functor, "K");
    assert_eq!(lan.unit(), "η: K → Lan_F(K)∘F");
    let ran = KanExtension::right_kan("R", &f, &k).unwrap();
    assert_eq!(ran.result_functor_name, "Ran_F(K)");
    assert_eq!(ran.counit(), "ε: Ran_F(K)∘F → K");
    let c = ran.compose(&lan).unwrap();
    assert_eq!(c.name, "composed_R");
    assert_eq!(c.result_functor_name, "composed_Ran_F(K)");
    assert_eq!(c.kind, KanKind::Right);
    assert_eq!(c.apply(&ObjectId("a".into())), Some(&ObjectId("ka".into())));
}

#[test]
fn kan_maps_only_objects_both_functors_map() {
    let mut f = Functor::new("F", "C", "D");
    f.map_object(ObjectId("a".into()), ObjectId("fa".into()));
    f.map_object(ObjectId("only_f".into()), ObjectId("x".into()));
    let mut k = Functor::new("K", "C", "E");
    k.map_object(ObjectId("a".into()), ObjectId("ka".into()));
    k.map_object(ObjectId("only_k".into()), ObjectId("y".into()));
    let lan = KanExtension::left_kan("L", &f, &k).unwrap();
    assert_eq!(lan.apply(&ObjectId("a".into())), Some(&ObjectId("ka".into())));
    assert!(lan.apply(&ObjectId("only_f".into())).is_none());
    assert!(lan.apply(&ObjectId("only_k".into())).is_none());
}

#[test]
fn kan_error_message() {
    let f = Functor::new("F", "C", "D");
    let k = Functor::new("K", "X", "E");
    assert_eq!(KanExtension::right_kan("r", &f, &k).unwrap_err(), "F and K must share source category");
}
