use elytra::cypher::Label;
use elytra::cypher::ToCypher;
use elytra::cypher::label;

#[test]
fn lone_label_renders_bare() {
    assert_eq!(label("Person").to_cypher(), "Person");
    assert_eq!(Label::new("Employee").to_cypher(), "Employee");
}

#[test]
fn label_list_renders_with_colons() {
    assert_eq!(vec![label("Person")].to_cypher(), ":Person");
    assert_eq!(vec![label("Person"), label("Employee")].to_cypher(), ":Person:Employee");
}

#[test]
fn empty_label_list_renders_the_colon() {
    let labels: Vec<Label> = Vec::new();
    assert_eq!(labels.to_cypher(), ":");
}
