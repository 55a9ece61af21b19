use catlc::category::{Category, CategoryError, FinCategory, Morphism, Object};
use catlc::functor::{
    composite_is_preserved, identity_is_preserved, ConcreteFunctor, ConcreteNaturalTransformation,
    Functor, FunctorLaws, NaturalTransformation, Naturality,
};
use std::fmt::Debug;

#[derive(Clone, Debug, PartialEq)]
struct Node {
    key: String,
}

impl Object for Node {
    fn id(&self) -> String {
        self.key.clone()
    }
}

#[derive(Clone, Debug, PartialEq)]
struct Arrow {
    from: Node,
    to: Node,
    label: String,
}

impl Morphism for Arrow {
    type ObjectType = Node;

    fn domain(&self) -> &Node {
        &self.from
    }

    fn codomain(&self) -> &Node {
        &self.to
    }

    fn apply<T>(&self, data: &T) -> Result<T, CategoryError>
    where
        T: Clone + Debug,
    {
        Ok(data.clone())
    }
}

type Cat = FinCategory<Node, Arrow>;

fn node(key: &str) -> Node {
    Node { key: key.to_string() }
}

fn arrow(from: &str, to: &str, label: &str) -> Arrow {
    Arrow { from: node(from), to: node(to), label: label.to_string() }
}

fn source_category() -> Cat {
    FinCategory::new(
        "Source".to_string(),
        vec![node("A"), node("B")],
        vec![arrow("A", "B", "f"), arrow("A", "A", "idA"), arrow("B", "B", "idB")],
    )
}

fn target_category() -> Cat {
    FinCategory::new(
        "Target".to_string(),
        vec![node("X"), node("Y")],
        vec![arrow("X", "Y", "g"), arrow("X", "X", "idX"), arrow("Y", "Y", "idY")],
    )
}

fn rename(key: &str) -> &'static str {
    match key {
        "A" => "X",
        "B" => "Y",
        _ => "?",
    }
}

fn rename_object(obj: &Node) -> Node {
    node(rename(&obj.key))
}

fn rename_morphism(morph: &Arrow) -> Result<Arrow, CategoryError> {
    Ok(arrow(rename(&morph.from.key), rename(&morph.to.key), &morph.label))
}

fn collapse_morphism(_morph: &Arrow) -> Result<Arrow, CategoryError> {
    Ok(arrow("X", "X", "idX"))
}

fn swap_identities(morph: &Arrow) -> Result<Arrow, CategoryError> {
    match morph.label.as_str() {
        "idB" => Ok(arrow("X", "X", "idX")),
        _ => rename_morphism(morph),
    }
}

fn refuse_f(morph: &Arrow) -> Result<Arrow, CategoryError> {
    match morph.label.as_str() {
        "f" => Err(CategoryError::MorphismNotFound("f".to_string())),
        _ => rename_morphism(morph),
    }
}

fn to_nowhere(_obj: &Node) -> Node {
    node("?")
}

#[test]
fn a_functor_maps_with_the_functions_it_was_given() {
    let functor = ConcreteFunctor::new(
        "Rename".to_string(),
        source_category(),
        target_category(),
        rename_object,
        rename_morphism,
    );
    assert_eq!(functor.name(), "Rename");
    assert_eq!(functor.map_object(&node("A")), node("X"));
    assert_eq!(functor.map_object(&node("B")), node("Y"));
    assert_eq!(functor.map_morphism(&arrow("A", "B", "f")).unwrap(), arrow("X", "Y", "f"));
}

#[test]
fn a_functor_passes_on_the_failure_of_its_morphism_function() {
    let functor = ConcreteFunctor::new(
        "Refuse".to_string(),
        source_category(),
        target_category(),
        rename_object,
        refuse_f,
    );
    match functor.map_morphism(&arrow("A", "B", "f")) {
        Err(CategoryError::MorphismNotFound(detail)) => assert_eq!(detail, "f"),
        other => panic!("expected MorphismNotFound, got {:?}", other),
    }
    assert!(functor.map_morphism(&arrow("A", "A", "idA")).is_ok());
}

#[test]
fn a_functor_that_preserves_composition_passes_the_laws() {
    let source = source_category();
    let target = target_category();
    let functor = ConcreteFunctor::new(
        "Rename".to_string(),
        source.clone(),
        target.clone(),
        rename_object,
        rename_morphism,
    );
    assert!(functor.verify_functor_laws(&source, &target));
}

#[test]
fn a_mapping_that_breaks_composition_fails_the_laws() {
    let source = source_category();
    let target = target_category();
    let functor = ConcreteFunctor::new(
        "Swap".to_string(),
        source.clone(),
        target.clone(),
        rename_object,
        swap_identities,
    );
    // The image of "idB after f" is g: X -> Y, but g cannot be followed by
    // the image of idB, which is idX.
    assert!(!composite_is_preserved(
        &functor,
        &source,
        &target,
        &arrow("A", "B", "f"),
        &arrow("B", "B", "idB")
    ));
    assert!(composite_is_preserved(
        &functor,
        &source,
        &target,
        &arrow("A", "A", "idA"),
        &arrow("A", "B", "f")
    ));
    assert!(!functor.verify_functor_laws(&source, &target));
}

#[test]
fn a_mapping_that_breaks_identities_fails_the_laws() {
    let source = source_category();
    let target = target_category();
    let functor = ConcreteFunctor::new(
        "Collapse".to_string(),
        source.clone(),
        target.clone(),
        rename_object,
        collapse_morphism,
    );
    assert!(identity_is_preserved(&functor, &source, &target, &node("A")));
    assert!(!identity_is_preserved(&functor, &source, &target, &node("B")));
    assert!(!functor.verify_functor_laws(&source, &target));
}

#[test]
fn a_mapping_that_fails_on_a_morphism_fails_the_laws() {
    let source = source_category();
    let target = target_category();
    let functor = ConcreteFunctor::new(
        "Refuse".to_string(),
        source.clone(),
        target.clone(),
        rename_object,
        refuse_f,
    );
    assert!(!functor.verify_functor_laws(&source, &target));
}

#[test]
fn a_mapping_into_objects_without_identity_fails_the_laws() {
    let source = source_category();
    let target = target_category();
    let functor = ConcreteFunctor::new(
        "Nowhere".to_string(),
        source.clone(),
        target.clone(),
        to_nowhere,
        rename_morphism,
    );
    assert!(!identity_is_preserved(&functor, &source, &target, &node("A")));
    assert!(!functor.verify_functor_laws(&source, &target));
}

#[test]
fn a_source_object_without_identity_fails_the_laws() {
    let source = FinCategory::new(
        "NoLoopAtB".to_string(),
        vec![node("A"), node("B")],
        vec![arrow("A", "B", "f"), arrow("A", "A", "idA")],
    );
    let target = target_category();
    let functor = ConcreteFunctor::new(
        "Rename".to_string(),
        source.clone(),
        target.clone(),
        rename_object,
        rename_morphism,
    );
    assert!(!functor.verify_functor_laws(&source, &target));
}

#[test]
fn the_laws_hold_between_empty_categories() {
    let source: Cat = FinCategory::new("Empty".to_string(), vec![], vec![]);
    let target: Cat = FinCategory::new("Empty".to_string(), vec![], vec![]);
    let functor = ConcreteFunctor::new(
        "Rename".to_string(),
        source.clone(),
        target.clone(),
        rename_object,
        rename_morphism,
    );
    assert!(functor.verify_functor_laws(&source, &target));
}

fn same_object(obj: &Node) -> Node {
    obj.clone()
}

fn same_morphism(morph: &Arrow) -> Result<Arrow, CategoryError> {
    Ok(morph.clone())
}

fn identity_component(obj: &Node) -> Arrow {
    Arrow { from: obj.clone(), to: obj.clone(), label: format!("id{}", obj.key) }
}

fn constant_component(_obj: &Node) -> Arrow {
    arrow("A", "A", "idA")
}

#[test]
fn the_identity_transformation_is_natural() {
    let cat = source_category();
    let f = ConcreteFunctor::new("F".to_string(), cat.clone(), cat.clone(), same_object, same_morphism);
    let g = ConcreteFunctor::new("G".to_string(), cat.clone(), cat.clone(), same_object, same_morphism);
    let eta = ConcreteNaturalTransformation::new("eta".to_string(), f, g, identity_component);
    assert_eq!(eta.component_at(&node("A")), arrow("A", "A", "idA"));
    assert_eq!(eta.component_at(&node("B")), arrow("B", "B", "idB"));
    assert!(eta.verify_naturality(&cat, &arrow("A", "B", "f")));
    assert!(eta.verify_naturality(&cat, &arrow("A", "A", "idA")));
    assert_eq!(eta.domain_functor().name(), "F");
    assert_eq!(eta.codomain_functor().name(), "G");
}

#[test]
fn a_family_that_does_not_follow_the_morphism_is_not_natural() {
    let cat = source_category();
    let f = ConcreteFunctor::new("F".to_string(), cat.clone(), cat.clone(), same_object, same_morphism);
    let g = ConcreteFunctor::new("G".to_string(), cat.clone(), cat.clone(), same_object, same_morphism);
    let eta = ConcreteNaturalTransformation::new("stuck".to_string(), f, g, constant_component);
    // The component at B starts at A, so it cannot follow f: A -> B.
    assert!(!eta.verify_naturality(&cat, &arrow("A", "B", "f")));
    assert!(eta.verify_naturality(&cat, &arrow("A", "A", "idA")));
}

#[test]
fn naturality_fails_where_a_functor_has_no_image() {
    let cat = source_category();
    let f = ConcreteFunctor::new("F".to_string(), cat.clone(), cat.clone(), same_object, same_morphism);
    let g = ConcreteFunctor::new(
        "G".to_string(),
        cat.clone(),
        cat.clone(),
        same_object,
        |morph: &Arrow| -> Result<Arrow, CategoryError> {
            if morph.label == "f" {
                Err(CategoryError::ObjectNotFound("B".to_string()))
            } else {
                Ok(morph.clone())
            }
        },
    );
    let eta = ConcreteNaturalTransformation::new("eta".to_string(), f, g, identity_component);
    assert!(!eta.verify_naturality(&cat, &arrow("A", "B", "f")));
    assert!(eta.verify_naturality(&cat, &arrow("B", "B", "idB")));
}
