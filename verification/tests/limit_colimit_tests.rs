use lau_functor_network::category::{Category, Morphism, Object, ObjectId};
use lau_functor_network::limit_colimit::{coproduct, equalizer, product, pullback, pushout};

fn limit_setup_category() -> Category {
    let mut cat = Category::new("TestCat");
    cat.add_object(Object::new("a", "A"));
    cat.add_object(Object::new("b", "B"));
    cat.add_object(Object::new("c", "C"));
    cat
}

#[test]
fn test_product() {
    let mut cat = limit_setup_category();
    let result = product(&mut cat, &ObjectId("a".into()), &ObjectId("b".into())).unwrap();
    assert_eq!(result.limit_object.id, ObjectId("a×b".into()));
    assert_eq!(result.cone.projections.len(), 2);
}

#[test]
fn test_product_adds_to_category() {
    let mut cat = limit_setup_category();
    product(&mut cat, &ObjectId("a".into()), &ObjectId("b".into())).unwrap();
    assert_eq!(cat.object_count(), 4); // a, b, c + a×b
}

#[test]
fn test_coproduct() {
    let mut cat = limit_setup_category();
    let result = coproduct(&mut cat, &ObjectId("a".into()), &ObjectId("b".into())).unwrap();
    assert_eq!(result.colimit_object.id, ObjectId("a+b".into()));
    assert_eq!(result.cocone.injections.len(), 2);
}

#[test]
fn test_equalizer() {
    let mut cat = limit_setup_category();
    let f = Morphism::new("f", ObjectId("a".into()), ObjectId("b".into()));
    let g = Morphism::new("g", ObjectId("a".into()), ObjectId("b".into()));
    let result = equalizer(&mut cat, &f, &g).unwrap();
    assert_eq!(result.limit_object.id.0, "Eq(f,g)");
}

#[test]
fn test_equalizer_fails_non_parallel() {
    let mut cat = limit_setup_category();
    let f = Morphism::new("f", ObjectId("a".into()), ObjectId("b".into()));
    let g = Morphism::new("g", ObjectId("a".into()), ObjectId("c".into()));
    assert!(equalizer(&mut cat, &f, &g).is_err());
}

#[test]
fn test_pullback() {
    let mut cat = limit_setup_category();
    let f = Morphism::new("f", ObjectId("a".into()), ObjectId("c".into()));
    let g = Morphism::new("g", ObjectId("b".into()), ObjectId("c".into()));
    let result = pullback(&mut cat, &f, &g).unwrap();
    assert_eq!(result.cone.projections.len(), 2);
}

#[test]
fn test_pullback_fails_different_targets() {
    let mut cat = limit_setup_category();
    let f = Morphism::new("f", ObjectId("a".into()), ObjectId("b".into()));
    let g = Morphism::new("g", ObjectId("b".into()), ObjectId("c".into()));
    assert!(pullback(&mut cat, &f, &g).is_err());
}

#[test]
fn test_pushout() {
    let mut cat = limit_setup_category();
    let f = Morphism::new("f", ObjectId("a".into()), ObjectId("b".into()));
    let g = Morphism::new("g", ObjectId("a".into()), ObjectId("c".into()));
    let result = pushout(&mut cat, &f, &g).unwrap();
    assert_eq!(result.cocone.injections.len(), 2);
}

#[test]
fn test_pushout_fails_different_sources() {
    let mut cat = limit_setup_category();
    let f = Morphism::new("f", ObjectId("a".into()), ObjectId("b".into()));
    let g = Morphism::new("g", ObjectId("b".into()), ObjectId("c".into()));
    assert!(pushout(&mut cat, &f, &g).is_err());
}

// ---- further cases ----

#[test]
fn product_details() {
    let mut cat = limit_setup_category();
    let r = product(&mut cat, &ObjectId("a".into()), &ObjectId("b".into())).unwrap();
    assert_eq!(r.limit_object.name, "Product(A,B)");
    assert!(r.is_universal);
    assert_eq!(r.cone.apex, ObjectId("a×b".into()));
    let (t0, p0) = &r.cone.projections[0];
    assert_eq!(*t0, ObjectId("a".into()));
    assert_eq!(p0.id.0, "π₁_a×b");
    assert_eq!(p0.label, "proj1");
    assert_eq!(p0.source, ObjectId("a×b".into()));
    assert_eq!(r.cone.projections[1].1.target, ObjectId("b".into()));
    assert_eq!(cat.hom(&ObjectId("a×b".into()), &ObjectId("a".into())).len(), 1);
    assert_eq!(cat.morphism_count(), 4 + 2);
}

#[test]
fn product_missing_objects_errors() {
    let mut cat = limit_setup_category();
    let e = product(&mut cat, &ObjectId("zz".into()), &ObjectId("b".into())).unwrap_err();
    assert_eq!(e, "Object A not found");
    let e = product(&mut cat, &ObjectId("a".into()), &ObjectId("zz".into())).unwrap_err();
    assert_eq!(e, "Object B not found");
    assert_eq!(cat.object_count(), 3);
}

#[test]
fn coproduct_details_and_errors() {
    let mut cat = limit_setup_category();
    let r = coproduct(&mut cat, &ObjectId("a".into()), &ObjectId("c".into())).unwrap();
    assert_eq!(r.colimit_object.name, "Coproduct(A,C)");
    assert_eq!(r.cocone.nadir, ObjectId("a+c".into()));
    assert_eq!(r.cocone.injections[0].1.id.0, "ι₁_a+c");
    assert_eq!(r.cocone.injections[1].1.label, "inj2");
    assert_eq!(r.cocone.injections[1].1.source, ObjectId("c".into()));
    let e = coproduct(&mut cat, &ObjectId("q".into()), &ObjectId("c".into())).unwrap_err();
    assert_eq!(e, "Object A not found");
}

#[test]
fn equalizer_details_and_errors() {
    let mut cat = limit_setup_category();
    let f = Morphism::new("f", ObjectId("a".into()), ObjectId("b".into()));
    let g = Morphism::new("g", ObjectId("a".into()), ObjectId("b".into()));
    let r = equalizer(&mut cat, &f, &g).unwrap();
    assert_eq!(r.limit_object.name, "Equalizer(f,g)");
    assert_eq!(r.cone.projections.len(), 1);
    assert_eq!(r.cone.projections[0].1.id.0, "eq_mor_Eq(f,g)");
    assert_eq!(r.cone.projections[0].1.label, "equalizer_morphism");
    assert_eq!(r.cone.projections[0].0, ObjectId("a".into()));
    let h = Morphism::new("h", ObjectId("a".into()), ObjectId("c".into()));
    assert_eq!(
        equalizer(&mut cat, &f, &h).unwrap_err(),
        "Morphisms must be parallel (same source and target)"
    );
    let x = Morphism::new("x", ObjectId("nowhere".into()), ObjectId("b".into()));
    let y = Morphism::new("y", ObjectId("nowhere".into()), ObjectId("b".into()));
    assert_eq!(equalizer(&mut cat, &x, &y).unwrap_err(), "Source or target object not in category");
}

#[test]
fn pullback_and_pushout_details() {
    let mut cat = limit_setup_category();
    let f = Morphism::new("f", ObjectId("a".into()), ObjectId("c".into()));
    let g = Morphism::new("g", ObjectId("b".into()), ObjectId("c".into()));
    let pb = pullback(&mut cat, &f, &g).unwrap();
    assert_eq!(pb.limit_object.id.0, "PB(f,g)");
    assert_eq!(pb.limit_object.name, "Pullback(f,g)");
    assert_eq!(pb.cone.projections[0].1.id.0, "pb_π1_PB(f,g)");
    assert_eq!(pb.cone.projections[1].1.target, ObjectId("b".into()));
    assert_eq!(
        pullback(&mut cat, &f, &Morphism::new("k", ObjectId("a".into()), ObjectId("b".into()))).unwrap_err(),
        "Morphisms must share a common target"
    );
    let p = Morphism::new("p", ObjectId("a".into()), ObjectId("b".into()));
    let q = Morphism::new("q", ObjectId("a".into()), ObjectId("c".into()));
    let po = pushout(&mut cat, &p, &q).unwrap();
    assert_eq!(po.colimit_object.id.0, "PO(p,q)");
    assert_eq!(po.colimit_object.name, "Pushout(p,q)");
    assert_eq!(po.cocone.injections[0].1.id.0, "po_ι1_PO(p,q)");
    assert_eq!(po.cocone.injections[0].0, ObjectId("b".into()));
    assert_eq!(po.cocone.injections[1].1.target, ObjectId("PO(p,q)".into()));
    assert_eq!(
        pushout(&mut cat, &p, &Morphism::new("r", ObjectId("b".into()), ObjectId("c".into()))).unwrap_err(),
        "Morphisms must share a common source"
    );
}
