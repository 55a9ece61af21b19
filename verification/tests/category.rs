use catlc::category::{
    can_compose, same_endpoints, Category, CategoryError, ComposableMorphisms, FinCategory,
    Morphism, Object,
};
use std::fmt::Debug;

#[derive(Clone, Debug, PartialEq)]
struct Node {
    key: String,
    degrees: Option<usize>,
}

impl Object for Node {
    fn id(&self) -> String {
        self.key.clone()
    }

    fn dimension(&self) -> Option<usize> {
        self.degrees
    }
}

#[derive(Clone, Debug, PartialEq)]
struct Bare {
    key: String,
}

impl Object for Bare {
    fn id(&self) -> String {
        self.key.clone()
    }
}

#[derive(Clone, Debug, PartialEq)]
struct Arrow {
    from: Node,
    to: Node,
    label: String,
}

impl Morphism for Arrow {
    type ObjectType = Node;

    fn domain(&self) -> &Node {
        &self.from
    }

    fn codomain(&self) -> &Node {
        &self.to
    }

    fn apply<T>(&self, data: &T) -> Result<T, CategoryError>
    where
        T: Clone + Debug,
    {
        if self.label == "broken" {
            Err(CategoryError::InvalidApplication(self.label.clone()))
        } else {
            Ok(data.clone())
        }
    }
}

fn node(key: &str) -> Node {
    Node { key: key.to_string(), degrees: None }
}

fn arrow(from: &str, to: &str, label: &str) -> Arrow {
    Arrow { from: node(from), to: node(to), label: label.to_string() }
}

fn two_object_category() -> FinCategory<Node, Arrow> {
    FinCategory::new(
        "Two".to_string(),
        vec![node("A"), node("B")],
        vec![arrow("A", "B", "f"), arrow("A", "A", "idA"), arrow("B", "B", "idB")],
    )
}

#[test]
fn identity_of_each_object_is_its_self_loop() {
    let cat = two_object_category();
    assert_eq!(cat.identity(&node("A")).unwrap(), &arrow("A", "A", "idA"));
    assert_eq!(cat.identity(&node("B")).unwrap(), &arrow("B", "B", "idB"));
}

#[test]
fn identity_starts_and_ends_at_its_object() {
    let cat = two_object_category();
    for object in cat.objects() {
        let identity = cat.identity(object).unwrap();
        assert_eq!(identity.domain().id(), object.id());
        assert_eq!(identity.codomain().id(), object.id());
    }
}

#[test]
fn identity_is_found_by_key_not_by_content() {
    let cat = two_object_category();
    let lookalike = Node { key: "A".to_string(), degrees: Some(7) };
    assert_eq!(cat.identity(&lookalike).unwrap().label, "idA");
}

#[test]
fn identity_fails_for_an_object_without_self_loop() {
    let cat = FinCategory::new(
        "NoLoopAtB".to_string(),
        vec![node("A"), node("B")],
        vec![arrow("A", "B", "f"), arrow("A", "A", "idA")],
    );
    match cat.identity(&node("B")) {
        Err(CategoryError::IdentityNotFound(key)) => assert_eq!(key, "B"),
        other => panic!("expected IdentityNotFound, got {:?}", other),
    }
    match cat.identity(&node("C")) {
        Err(CategoryError::IdentityNotFound(key)) => assert_eq!(key, "C"),
        other => panic!("expected IdentityNotFound, got {:?}", other),
    }
}

#[test]
fn identity_fails_in_an_empty_category() {
    let cat: FinCategory<Node, Arrow> = FinCategory::new("Empty".to_string(), vec![], vec![]);
    assert!(matches!(cat.identity(&node("A")), Err(CategoryError::IdentityNotFound(_))));
    assert_eq!(cat.find_morphism(&node("A"), &node("A")), None);
    assert!(cat.objects().is_empty());
    assert!(cat.morphisms().is_empty());
}

#[test]
fn the_latest_self_loop_is_the_identity() {
    let cat = FinCategory::new(
        "TwoLoops".to_string(),
        vec![node("A")],
        vec![arrow("A", "A", "first"), arrow("A", "A", "second")],
    );
    assert_eq!(cat.identity(&node("A")).unwrap().label, "second");
}

#[test]
fn find_morphism_returns_the_edge_between_two_objects() {
    let cat = two_object_category();
    assert_eq!(cat.find_morphism(&node("A"), &node("B")), Some(&arrow("A", "B", "f")));
    assert_eq!(cat.find_morphism(&node("A"), &node("A")), Some(&arrow("A", "A", "idA")));
    assert_eq!(cat.find_morphism(&node("B"), &node("A")), None);
    assert_eq!(cat.find_morphism(&node("C"), &node("A")), None);
}

#[test]
fn find_morphism_returns_the_earliest_of_several() {
    let cat = FinCategory::new(
        "Parallel".to_string(),
        vec![node("A"), node("B")],
        vec![
            arrow("B", "B", "idB"),
            arrow("A", "B", "first"),
            arrow("A", "A", "idA"),
            arrow("A", "B", "second"),
        ],
    );
    assert_eq!(cat.find_morphism(&node("A"), &node("B")).unwrap().label, "first");
    assert_eq!(cat.find_morphism(&node("A"), &node("A")).unwrap().label, "idA");
}

#[test]
fn composing_identity_with_f_runs_from_a_to_b() {
    let cat = two_object_category();
    let composite = cat.compose(&arrow("A", "A", "idA"), &arrow("A", "B", "f")).unwrap();
    assert_eq!(composite.domain().id(), "A");
    assert_eq!(composite.codomain().id(), "B");
    assert_eq!(composite, &arrow("A", "B", "f"));
}

#[test]
fn composing_f_with_the_identity_of_b_gives_f() {
    let cat = two_object_category();
    let composite = cat.compose(&arrow("A", "B", "f"), &arrow("B", "B", "idB")).unwrap();
    assert_eq!(composite, &arrow("A", "B", "f"));
    let loop_twice = cat.compose(&arrow("A", "A", "idA"), &arrow("A", "A", "idA")).unwrap();
    assert_eq!(loop_twice, &arrow("A", "A", "idA"));
}

#[test]
fn compose_fails_when_the_second_does_not_start_where_the_first_arrives() {
    let cat = two_object_category();
    let f = arrow("A", "B", "f");
    let id_a = arrow("A", "A", "idA");
    match cat.compose(&f, &id_a) {
        Err(CategoryError::CompositionMismatch(detail)) => assert_eq!(
            detail,
            "Cannot compose morphism from A to B with morphism from A to A"
        ),
        other => panic!("expected CompositionMismatch, got {:?}", other),
    }
    assert!(matches!(cat.compose(&f, &f), Err(CategoryError::CompositionMismatch(_))));
}

#[test]
fn compose_fails_when_no_morphism_spans_the_pair() {
    let cat = FinCategory::new(
        "Chain".to_string(),
        vec![node("A"), node("B"), node("C")],
        vec![arrow("A", "B", "f"), arrow("B", "C", "g")],
    );
    match cat.compose(&arrow("A", "B", "f"), &arrow("B", "C", "g")) {
        Err(CategoryError::CompositionMismatch(detail)) => assert_eq!(
            detail,
            "Cannot compose morphism from A to B with morphism from B to C"
        ),
        other => panic!("expected CompositionMismatch, got {:?}", other),
    }
}

#[test]
fn compose_fails_for_a_morphism_the_category_does_not_hold() {
    let cat = two_object_category();
    let stranger = arrow("C", "A", "h");
    assert!(matches!(
        cat.compose(&stranger, &arrow("A", "B", "f")),
        Err(CategoryError::CompositionMismatch(_))
    ));
    let unlisted = arrow("B", "A", "back");
    assert!(matches!(
        cat.compose(&arrow("A", "B", "f"), &unlisted),
        Err(CategoryError::CompositionMismatch(_))
    ));
}

#[test]
fn compose_resolves_through_three_objects() {
    let cat = FinCategory::new(
        "Triangle".to_string(),
        vec![node("A"), node("B"), node("C")],
        vec![
            arrow("A", "B", "f"),
            arrow("B", "C", "g"),
            arrow("A", "C", "h"),
            arrow("A", "C", "h2"),
        ],
    );
    let composite = cat.compose(&arrow("A", "B", "f"), &arrow("B", "C", "g")).unwrap();
    assert_eq!(composite.label, "h");
}

#[test]
fn compose_takes_a_stand_in_with_the_same_endpoints() {
    let cat = two_object_category();
    let stand_in = arrow("A", "B", "not-listed");
    let composite = cat.compose(&arrow("A", "A", "idA"), &stand_in).unwrap();
    assert_eq!(composite.label, "f");
}

#[test]
fn name_objects_and_morphisms_are_kept() {
    let cat = two_object_category();
    assert_eq!(cat.name(), "Two");
    assert_eq!(cat.objects(), &[node("A"), node("B")][..]);
    assert_eq!(
        cat.morphisms(),
        &[arrow("A", "B", "f"), arrow("A", "A", "idA"), arrow("B", "B", "idB")][..]
    );
}

#[test]
fn a_clone_answers_like_the_category_it_was_made_from() {
    let cat = two_object_category();
    let copy = cat.clone();
    assert_eq!(copy.name(), "Two");
    assert_eq!(copy.objects(), cat.objects());
    assert_eq!(copy.morphisms(), cat.morphisms());
    assert_eq!(copy.identity(&node("B")).unwrap().label, "idB");
    assert_eq!(copy.find_morphism(&node("A"), &node("B")).unwrap().label, "f");
    assert!(copy.compose(&arrow("A", "B", "f"), &arrow("A", "B", "f")).is_err());
}

#[test]
fn the_law_checks_of_a_category_are_placeholders() {
    let cat = two_object_category();
    assert!(cat.check_composition_associative());
    assert!(cat.check_identity_laws());
    let lawless = FinCategory::new(
        "Lawless".to_string(),
        vec![node("A"), node("B")],
        vec![arrow("A", "B", "f")],
    );
    assert!(lawless.check_composition_associative());
    assert!(lawless.check_identity_laws());
}

#[test]
fn same_endpoints_compares_keys_only() {
    assert!(same_endpoints(&arrow("A", "B", "f"), &arrow("A", "B", "g")));
    assert!(!same_endpoints(&arrow("A", "B", "f"), &arrow("A", "A", "f")));
    assert!(!same_endpoints(&arrow("A", "B", "f"), &arrow("B", "B", "f")));
    assert!(!same_endpoints(&arrow("A", "B", "f"), &arrow("B", "A", "f")));
}

#[test]
fn can_compose_asks_for_a_shared_middle_object() {
    assert!(can_compose(&arrow("A", "B", "f"), &arrow("B", "C", "g")));
    assert!(can_compose(&arrow("A", "A", "idA"), &arrow("A", "B", "f")));
    assert!(!can_compose(&arrow("A", "B", "f"), &arrow("A", "B", "f")));
    assert!(!can_compose(&arrow("B", "C", "g"), &arrow("A", "B", "f")));
}

#[test]
fn an_object_has_no_dimension_unless_it_says_so() {
    assert_eq!(Bare { key: "A".to_string() }.dimension(), None);
    assert_eq!(Node { key: "A".to_string(), degrees: Some(5) }.dimension(), Some(5));
}

#[test]
fn apply_is_left_to_the_morphism() {
    assert_eq!(arrow("A", "B", "f").apply(&41_u32).unwrap(), 41);
    assert!(matches!(
        arrow("A", "B", "broken").apply(&41_u32),
        Err(CategoryError::InvalidApplication(_))
    ));
}

#[test]
fn a_composable_pair_holds_both_morphisms() {
    let pair = ComposableMorphisms { first: arrow("A", "B", "f"), second: arrow("B", "C", "g") };
    assert!(can_compose(&pair.first, &pair.second));
    assert_eq!(pair.first.label, "f");
    assert_eq!(pair.second.label, "g");
}

#[test]
fn keys_may_be_empty_or_share_a_prefix() {
    let cat = FinCategory::new(
        "Keys".to_string(),
        vec![node(""), node("A"), node("AB")],
        vec![
            arrow("", "", "id-empty"),
            arrow("A", "AB", "grow"),
            arrow("AB", "AB", "id-ab"),
            arrow("", "A", "start"),
        ],
    );
    assert_eq!(cat.identity(&node("")).unwrap().label, "id-empty");
    assert_eq!(cat.identity(&node("AB")).unwrap().label, "id-ab");
    assert!(cat.identity(&node("A")).is_err());
    assert_eq!(cat.find_morphism(&node(""), &node("A")).unwrap().label, "start");
    assert_eq!(cat.find_morphism(&node("A"), &node("AB")).unwrap().label, "grow");
    assert_eq!(cat.find_morphism(&node("AB"), &node("A")), None);
    let through = cat.compose(&arrow("A", "AB", "grow"), &arrow("AB", "AB", "id-ab")).unwrap();
    assert_eq!(through.label, "grow");
}
