use lau_functor_network::category::{Category, Morphism, Object, ObjectId};
use lau_functor_network::composition_engine::{CompositionEngine, CompositionPlan, CompositionStep};
use lau_functor_network::functor::Functor;

fn setup_engine() -> CompositionEngine {
    let mut cat = Category::new("SuperInstance");
    cat.add_object(Object::new("lau-core", "Core"));
    cat.add_object(Object::new("lau-agents", "Agents"));
    cat.add_object(Object::new("lau-security", "Security"));
    cat.add_object(Object::new("lau-network", "Network"));
    cat.add_object(Object::new("lau-math", "Math"));

    cat.add_morphism(Morphism::new("d1", ObjectId("lau-agents".into()), ObjectId("lau-core".into()))).unwrap();
    cat.add_morphism(Morphism::new("d2", ObjectId("lau-security".into()), ObjectId("lau-core".into()))).unwrap();
    cat.add_morphism(Morphism::new("d3", ObjectId("lau-network".into()), ObjectId("lau-security".into()))).unwrap();
    cat.add_morphism(Morphism::new("d4", ObjectId("lau-agents".into()), ObjectId("lau-math".into()))).unwrap();

    CompositionEngine::new(cat)
}

#[test]
fn test_engine_creation() {
    let engine = setup_engine();
    assert_eq!(engine.category.object_count(), 5);
}

#[test]
fn test_find_path_direct() {
    let engine = setup_engine();
    let path = engine.find_path(&ObjectId("lau-agents".into()), &ObjectId("lau-core".into()));
    assert!(path.is_some());
    assert!(path.unwrap().len() >= 2);
}

#[test]
fn test_find_path_indirect() {
    let engine = setup_engine();
    let path = engine.find_path(&ObjectId("lau-network".into()), &ObjectId("lau-core".into()));
    assert!(path.is_some());
}

#[test]
fn test_find_path_none() {
    let engine = setup_engine();
    let path = engine.find_path(&ObjectId("lau-core".into()), &ObjectId("lau-network".into()));
    assert!(path.is_none());
}

#[test]
fn test_dependents() {
    let engine = setup_engine();
    let deps = engine.dependents(&ObjectId("lau-core".into()));
    assert!(deps.contains(&ObjectId("lau-agents".into())));
    assert!(deps.contains(&ObjectId("lau-security".into())));
}

#[test]
fn test_dependencies() {
    let engine = setup_engine();
    let deps = engine.dependencies(&ObjectId("lau-network".into()));
    assert!(deps.contains(&ObjectId("lau-security".into())));
    assert!(deps.contains(&ObjectId("lau-core".into())));
}

#[test]
fn test_compose_parallel() {
    let mut engine = setup_engine();
    let result = engine.compose_parallel(&ObjectId("lau-agents".into()), &ObjectId("lau-security".into()));
    assert!(result.is_ok());
    assert!(result.unwrap().0.contains("×"));
}

#[test]
fn test_compose_alternative() {
    let mut engine = setup_engine();
    let result = engine.compose_alternative(&ObjectId("lau-agents".into()), &ObjectId("lau-security".into()));
    assert!(result.is_ok());
    assert!(result.unwrap().0.contains("+"));
}

#[test]
fn test_create_plan() {
    let mut engine = setup_engine();
    let plan = engine.create_plan("test_plan", vec![
        CompositionStep {
            crate_name: "lau-agents".into(),
            operation: "process".into(),
            inputs: vec!["data".into()],
            output: "processed".into(),
        },
    ]);
    assert!(plan.is_ok());
}

#[test]
fn test_validate_plan() {
    let mut engine = setup_engine();
    engine.create_plan("test_plan", vec![
        CompositionStep {
            crate_name: "lau-agents".into(),
            operation: "process".into(),
            inputs: vec!["data".into()],
            output: "processed".into(),
        },
    ]).unwrap();
    let plan = engine.get_plan("test_plan").unwrap();
    assert!(engine.validate_plan(plan).is_ok());
}

#[test]
fn test_validate_plan_missing_crate() {
    let engine = setup_engine();
    let plan = CompositionPlan {
        name: "bad".into(),
        steps: vec![CompositionStep {
            crate_name: "nonexistent".into(),
            operation: "op".into(),
            inputs: vec![],
            output: "out".into(),
        }],
        input_types: vec![],
        output_types: vec![],
    };
    assert!(engine.validate_plan(&plan).is_err());
}

#[test]
fn test_shared_dependencies() {
    let engine = setup_engine();
    let shared = engine.shared_dependencies(&ObjectId("lau-agents".into()), &ObjectId("lau-network".into()));
    assert!(shared.contains(&ObjectId("lau-core".into())));
}

// ---- further cases ----

fn names(v: &[ObjectId]) -> Vec<String> {
    let mut out: Vec<String> = v.iter().map(|o| o.0.clone()).collect();
    out.sort();
    out
}

#[test]
fn find_path_exact_steps() {
    let engine = setup_engine();
    let path = engine.find_path(&ObjectId("lau-network".into()), &ObjectId("lau-core".into())).unwrap();
    assert_eq!(
        path,
        vec![
            ObjectId("lau-network".into()),
            ObjectId("lau-security".into()),
            ObjectId("lau-core".into())
        ]
    );
    let itself = engine.find_path(&ObjectId("lau-math".into()), &ObjectId("lau-math".into())).unwrap();
    assert_eq!(itself, vec![ObjectId("lau-math".into())]);
    let unknown = engine.find_path(&ObjectId("ghost".into()), &ObjectId("ghost".into())).unwrap();
    assert_eq!(unknown, vec![ObjectId("ghost".into())]);
    assert!(engine.find_path(&ObjectId("ghost".into()), &ObjectId("lau-core".into())).is_none());
}

#[test]
fn dependencies_exact_sets() {
    let engine = setup_engine();
    assert_eq!(
        names(&engine.dependencies(&ObjectId("lau-agents".into()))),
        vec!["lau-core".to_string(), "lau-math".to_string()]
    );
    assert!(engine.dependencies(&ObjectId("lau-core".into())).is_empty());
    assert_eq!(
        names(&engine.dependents(&ObjectId("lau-core".into()))),
        vec!["lau-agents".to_string(), "lau-network".to_string(), "lau-security".to_string()]
    );
    assert!(engine.dependents(&ObjectId("lau-network".into())).is_empty());
}

#[test]
fn dependency_duality_on_values() {
    let engine = setup_engine();
    let all = ["lau-core", "lau-agents", "lau-security", "lau-network", "lau-math"];
    for a in all {
        for v in all {
            let a_id = ObjectId(a.to_string());
            let v_id = ObjectId(v.to_string());
            let forward = engine.dependencies(&a_id).contains(&v_id);
            let backward = engine.dependents(&v_id).contains(&a_id);
            assert_eq!(forward, backward);
            if a != v {
                assert_eq!(engine.find_path(&a_id, &v_id).is_some(), forward);
            }
        }
    }
}

#[test]
fn cycles_are_followed_once() {
    let mut cat = Category::new("Cyclic");
    cat.add_object(Object::new("x", "X"));
    cat.add_object(Object::new("y", "Y"));
    cat.add_morphism(Morphism::new("xy", ObjectId("x".into()), ObjectId("y".into()))).unwrap();
    cat.add_morphism(Morphism::new("yx", ObjectId("y".into()), ObjectId("x".into()))).unwrap();
    let engine = CompositionEngine::new(cat);
    assert_eq!(names(&engine.dependencies(&ObjectId("x".into()))), vec!["x".to_string(), "y".to_string()]);
    assert_eq!(names(&engine.dependents(&ObjectId("x".into()))), vec!["x".to_string(), "y".to_string()]);
}

#[test]
fn shared_dependencies_exact() {
    let engine = setup_engine();
    let shared = engine.shared_dependencies(&ObjectId("lau-agents".into()), &ObjectId("lau-network".into()));
    assert_eq!(names(&shared), vec!["lau-core".to_string()]);
    let none = engine.shared_dependencies(&ObjectId("lau-math".into()), &ObjectId("lau-network".into()));
    assert!(none.is_empty());
}

#[test]
fn compose_parallel_and_alternative_details() {
    let mut engine = setup_engine();
    let p = engine.compose_parallel(&ObjectId("lau-agents".into()), &ObjectId("lau-security".into())).unwrap();
    assert_eq!(p, ObjectId("lau-agents×lau-security".into()));
    assert_eq!(engine.category.object_count(), 6);
    let c = engine.compose_alternative(&ObjectId("lau-core".into()), &ObjectId("lau-math".into())).unwrap();
    assert_eq!(c, ObjectId("lau-core+lau-math".into()));
    assert_eq!(engine.category.object_count(), 7);
    assert_eq!(
        engine.compose_parallel(&ObjectId("nope".into()), &ObjectId("lau-core".into())).unwrap_err(),
        "Object A not found"
    );
    assert_eq!(
        engine.compose_alternative(&ObjectId("lau-core".into()), &ObjectId("nope".into())).unwrap_err(),
        "Object B not found"
    );
    assert_eq!(engine.category.object_count(), 7);
}

#[test]
fn plan_inputs_outputs_and_replacement() {
    let mut engine = setup_engine();
    let steps = vec![
        CompositionStep {
            crate_name: "lau-agents".into(),
            operation: "load".into(),
            inputs: vec!["raw".into(), "config".into()],
            output: "loaded".into(),
        },
        CompositionStep {
            crate_name: "lau-core".into(),
            operation: "run".into(),
            inputs: vec!["loaded".into()],
            output: "result".into(),
        },
    ];
    {
        let plan = engine.create_plan("p", steps).unwrap();
        assert_eq!(plan.name, "p");
        assert_eq!(plan.input_types, vec!["raw".to_string(), "config".to_string()]);
        assert_eq!(plan.output_types, vec!["result".to_string()]);
        assert_eq!(plan.steps.len(), 2);
    }
    {
        let empty = engine.create_plan("p", vec![]).unwrap();
        assert!(empty.input_types.is_empty());
        assert!(empty.output_types.is_empty());
    }
    assert!(engine.get_plan("p").unwrap().steps.is_empty());
    assert!(engine.get_plan("q").is_none());
}

#[test]
fn validate_plan_names_first_missing_crate() {
    let engine = setup_engine();
    let step = |name: &str| CompositionStep {
        crate_name: name.into(),
        operation: "op".into(),
        inputs: vec![],
        output: "out".into(),
    };
    let plan = CompositionPlan {
        name: "bad".into(),
        steps: vec![step("lau-core"), step("missing-one"), step("missing-two")],
        input_types: vec![],
        output_types: vec![],
    };
    assert_eq!(engine.validate_plan(&plan).unwrap_err(), "Crate 'missing-one' not found in category");
    let empty = CompositionPlan { name: "e".into(), steps: vec![], input_types: vec![], output_types: vec![] };
    assert_eq!(engine.validate_plan(&empty), Ok(true));
}

#[test]
fn register_functor_replaces_by_name() {
    let mut engine = setup_engine();
    engine.register_functor(Functor::new("F", "A", "B")).register_functor(Functor::new("G", "B", "C"));
    engine.register_functor(Functor::new("F", "X", "Y"));
    assert_eq!(engine.functors.len(), 2);
    assert_eq!(engine.functors.get("F").unwrap().source_category, "X");
    assert_eq!(engine.functors.get("G").unwrap().target_category, "C");
}
