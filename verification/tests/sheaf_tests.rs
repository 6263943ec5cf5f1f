use lau_functor_network::category::ObjectId;
use lau_functor_network::sheaf_on_category::{global_sections, sheafify, Presheaf, Sheaf};

#[test]
fn test_presheaf_creation() {
    let ps = Presheaf::new("test_presheaf");
    assert_eq!(ps.name, "test_presheaf");
}

#[test]
fn test_presheaf_assign_sections() {
    let mut ps = Presheaf::new("test");
    ps.assign_sections(ObjectId("a".into()), vec!["s1".into(), "s2".into()]);
    assert_eq!(ps.sections_at(&ObjectId("a".into())).len(), 2);
}

#[test]
fn test_presheaf_restrictions() {
    let mut ps = Presheaf::new("test");
    ps.assign_sections(ObjectId("a".into()), vec!["s1".into()]);
    ps.assign_sections(ObjectId("b".into()), vec!["s2".into()]);
    ps.add_restriction(ObjectId("a".into()), ObjectId("b".into()), "restrict_ab");
    assert!(ps.restrict(&ObjectId("a".into()), &ObjectId("b".into())).is_some());
}

#[test]
fn test_presheaf_composition() {
    let mut ps = Presheaf::new("test");
    ps.add_restriction(ObjectId("a".into()), ObjectId("b".into()), "r_ab");
    ps.add_restriction(ObjectId("b".into()), ObjectId("c".into()), "r_bc");
    ps.add_restriction(ObjectId("a".into()), ObjectId("c".into()), "r_ac");
    assert!(ps.check_composition());
}

#[test]
fn test_sheaf_from_presheaf() {
    let ps = Presheaf::new("test");
    let sheaf = Sheaf::from_presheaf(ps);
    assert!(sheaf.is_sheaf());
}

#[test]
fn test_sheaf_covering() {
    let mut ps = Presheaf::new("test");
    ps.assign_sections(ObjectId("a".into()), vec!["global".into()]);
    ps.assign_sections(ObjectId("b".into()), vec!["local_b".into()]);
    ps.assign_sections(ObjectId("c".into()), vec!["local_c".into()]);

    let mut sheaf = Sheaf::from_presheaf(ps);
    sheaf.add_covering(ObjectId("a".into()), vec![ObjectId("b".into()), ObjectId("c".into())]);
    assert!(sheaf.is_sheaf());
}

#[test]
fn test_sheaf_stalk() {
    let mut ps = Presheaf::new("test");
    ps.assign_sections(ObjectId("a".into()), vec!["s1".into()]);
    ps.assign_sections(ObjectId("b".into()), vec!["s2".into()]);

    let mut sheaf = Sheaf::from_presheaf(ps);
    sheaf.add_covering(ObjectId("a".into()), vec![ObjectId("b".into())]);

    let stalk = sheaf.stalk(&ObjectId("a".into()));
    assert!(stalk.contains(&"s1".to_string()));
    assert!(stalk.contains(&"s2".to_string()));
}

#[test]
fn test_global_sections() {
    let mut ps = Presheaf::new("test");
    ps.assign_sections(ObjectId("a".into()), vec!["s1".into()]);
    ps.assign_sections(ObjectId("b".into()), vec!["s2".into()]);
    let sheaf = Sheaf::from_presheaf(ps);
    let globals = global_sections(&sheaf);
    assert_eq!(globals.len(), 2);
}

#[test]
fn test_sheafify() {
    let ps = Presheaf::new("test");
    let sheaf = sheafify(ps);
    assert!(sheaf.is_sheaf());
}

// ---- further cases ----

#[test]
fn sections_at_missing_object_is_empty() {
    let ps = Presheaf::new("p");
    assert!(ps.sections_at(&ObjectId("nope".into())).is_empty());
    assert!(ps.restrict(&ObjectId("a".into()), &ObjectId("b".into())).is_none());
}

#[test]
fn restriction_is_replaced() {
    let mut ps = Presheaf::new("p");
    ps.add_restriction(ObjectId("a".into()), ObjectId("b".into()), "old")
        .add_restriction(ObjectId("a".into()), ObjectId("b".into()), "new");
    assert_eq!(ps.restrict(&ObjectId("a".into()), &ObjectId("b".into())).unwrap(), "new");
}

#[test]
fn composition_check_fails_without_composite() {
    let mut ps = Presheaf::new("p");
    ps.add_restriction(ObjectId("a".into()), ObjectId("b".into()), "r_ab");
    ps.add_restriction(ObjectId("b".into()), ObjectId("c".into()), "r_bc");
    assert!(!ps.check_composition());
    assert!(Presheaf::new("empty").check_composition());
}

#[test]
fn stalk_is_sorted_and_deduplicated() {
    let mut ps = Presheaf::new("p");
    ps.assign_sections(ObjectId("a".into()), vec!["z".into(), "m".into(), "m".into()]);
    ps.assign_sections(ObjectId("b".into()), vec!["a".into(), "z".into()]);
    ps.assign_sections(ObjectId("c".into()), vec!["q".into()]);
    let mut sheaf = Sheaf::from_presheaf(ps);
    sheaf.add_covering(ObjectId("a".into()), vec![ObjectId("b".into()), ObjectId("missing".into())]);
    assert_eq!(sheaf.stalk(&ObjectId("a".into())), vec!["a".to_string(), "m".to_string(), "z".to_string()]);
    assert_eq!(sheaf.stalk(&ObjectId("c".into())), vec!["q".to_string()]);
    assert!(sheaf.stalk(&ObjectId("none".into())).is_empty());
}

#[test]
fn stalk_within_global_sections_on_values() {
    let mut ps = Presheaf::new("p");
    ps.assign_sections(ObjectId("a".into()), vec!["s1".into()]);
    ps.assign_sections(ObjectId("b".into()), vec!["s2".into(), "s1".into()]);
    let mut sheaf = Sheaf::from_presheaf(ps);
    sheaf.add_covering(ObjectId("a".into()), vec![ObjectId("b".into())]);
    let globals = global_sections(&sheaf);
    assert_eq!(globals, vec!["s1".to_string(), "s2".to_string()]);
    for g in sheaf.stalk(&ObjectId("a".into())) {
        assert!(globals.contains(&g));
    }
}

#[test]
fn locality_and_gluing_hold() {
    let mut ps = Presheaf::new("p");
    ps.assign_sections(ObjectId("a".into()), vec!["x".into(), "y".into()]);
    let mut sheaf = sheafify(ps);
    sheaf.add_covering(ObjectId("a".into()), vec![ObjectId("b".into())]);
    assert!(sheaf.check_locality(&ObjectId("a".into())));
    assert!(sheaf.check_gluing(&ObjectId("a".into())));
    assert!(sheaf.is_sheaf());
    assert_eq!(sheaf.presheaf.name, "p");
}
