use fluxdi::eager::{dependency_node, eager_plan, eager_winners, str_less, DependencyHint};
use fluxdi::injectable::{
    check_injectable, injectable_error_message, shared_dependency, FieldShape, InjectableError, ItemShape,
    TypeArguments,
};
use fluxdi::ErrorKind;

fn names(v: &[&str]) -> Vec<String> {
    v.iter().map(|s| s.to_string()).collect()
}

#[test]
fn eager_plan_orders_by_dependencies_then_names() {
    // C depends on A and B; A and B are independent; D depends on an unknown node.
    let ids = names(&["single::C", "single::B", "single::A", "named::D::x"]);
    let deps = vec![names(&["single::A", "single::B"]), vec![], vec![], names(&["single::Missing"])];
    let waves = eager_plan(&ids, &deps).unwrap();
    let as_names: Vec<Vec<&str>> = waves.iter().map(|w| w.iter().map(|&i| ids[i].as_str()).collect()).collect();
    assert_eq!(as_names, vec![vec!["named::D::x", "single::A", "single::B"], vec!["single::C"]]);
}

#[test]
fn eager_plan_chain_and_empty_graph() {
    let ids = names(&["a", "b", "c"]);
    let deps = vec![names(&["b"]), names(&["c"]), vec![]];
    assert_eq!(eager_plan(&ids, &deps).unwrap(), vec![vec![2], vec![1], vec![0]]);
    assert!(eager_plan(&vec![], &vec![]).unwrap().is_empty());
}

#[test]
fn eager_plan_refuses_a_cycle() {
    let ids = names(&["a", "b"]);
    let deps = vec![names(&["b"]), names(&["a"])];
    let e = eager_plan(&ids, &deps).unwrap_err();
    assert!(e.kind == ErrorKind::GraphValidationFailed);
    assert!(e.message.contains("circular dependency detected during eager resolution"));
}

#[test]
fn text_order_is_string_order() {
    let samples = ["", "a", "ab", "b", "B", "single::A", "single::AB", "named::x", "é", "z"];
    for a in samples {
        for b in samples {
            assert_eq!(str_less(a, b), a < b, "{} vs {}", a, b);
        }
    }
}

#[test]
fn dependency_hints_name_their_nodes() {
    let one = DependencyHint::One { service_name: "app::Db".to_string() };
    assert_eq!(dependency_node(&one), Some("single::app::Db".to_string()));
    let named = DependencyHint::Named { service_name: "app::Db".to_string(), name: "ro".to_string() };
    assert_eq!(dependency_node(&named), Some("named::app::Db::ro".to_string()));
    let dynamic = DependencyHint::Dynamic { provider_name: Some("bad".to_string()) };
    assert_eq!(dependency_node(&dynamic), Some("dynamic::bad".to_string()));
    assert_eq!(dependency_node(&DependencyHint::Dynamic { provider_name: None }), None);
    assert_eq!(dependency_node(&DependencyHint::All { service_name: "dyn Plugin".to_string() }), None);
}

fn field(name: Option<&str>, segment: Option<&str>, arguments: TypeArguments) -> FieldShape {
    FieldShape {
        name: name.map(|s| s.to_string()),
        last_segment: segment.map(|s| s.to_string()),
        arguments,
    }
}

#[test]
fn injectable_accepts_named_shared_fields() {
    let fields = vec![
        field(Some("db"), Some("Shared"), TypeArguments::FirstIsType),
        field(Some("cache"), Some("Shared"), TypeArguments::FirstIsType),
    ];
    assert_eq!(check_injectable(false, ItemShape::NamedStruct, &fields), Ok(()));
    assert_eq!(check_injectable(false, ItemShape::NamedStruct, &vec![]), Ok(()));
}

#[test]
fn injectable_refusals_in_order() {
    let good = field(Some("db"), Some("Shared"), TypeArguments::FirstIsType);
    let arc = field(Some("db"), Some("Arc"), TypeArguments::FirstIsType);
    assert_eq!(check_injectable(true, ItemShape::NotAStruct, &vec![]), Err(InjectableError::GenericStruct));
    assert_eq!(check_injectable(false, ItemShape::OtherStruct, &vec![]), Err(InjectableError::FieldsNotNamed));
    assert_eq!(check_injectable(false, ItemShape::NotAStruct, &vec![]), Err(InjectableError::NotAStruct));
    assert_eq!(
        check_injectable(false, ItemShape::NamedStruct, &vec![good, arc]),
        Err(InjectableError::NotShared(1))
    );
    let unnamed = field(None, Some("Arc"), TypeArguments::FirstIsType);
    assert_eq!(
        check_injectable(false, ItemShape::NamedStruct, &vec![unnamed]),
        Err(InjectableError::UnnamedField(0))
    );
    assert_eq!(
        injectable_error_message(InjectableError::NotShared(3)),
        "Injectable fields must be typed as Shared<T>"
    );
    assert_eq!(
        injectable_error_message(InjectableError::GenericStruct),
        "Injectable derive currently does not support generic structs"
    );
}

#[test]
fn shared_fields_need_a_type_argument() {
    assert!(shared_dependency(&field(Some("a"), Some("Shared"), TypeArguments::FirstIsType)));
    assert!(!shared_dependency(&field(Some("a"), Some("Shared"), TypeArguments::FirstIsNotType)));
    assert!(!shared_dependency(&field(Some("a"), Some("Shared"), TypeArguments::NotAngleBracketed)));
    assert!(!shared_dependency(&field(Some("a"), None, TypeArguments::FirstIsType)));
    assert!(!shared_dependency(&field(Some("a"), Some("Shard"), TypeArguments::FirstIsType)));
}

#[test]
fn eager_entries_of_a_child_replace_its_parents() {
    // Chain root(0) -> 2; entries at 0, 1 (a sibling), 2, 0 and 2 again.
    let chain = vec![0, 2];
    let nodes = vec![0, 1, 2, 0, 2];
    let names = names(&["single::A", "single::B", "single::A", "single::C", "single::D"]);
    let winners = eager_winners(&chain, &nodes, &names);
    // Visible order: entries 0, 3 (root), then 2, 4 (node 2); A is replaced by the child's entry 2.
    assert_eq!(winners, vec![2, 3, 4]);
    assert!(eager_winners(&vec![1], &nodes, &names) == vec![1]);
    assert!(eager_winners(&vec![], &nodes, &names).is_empty());
}
