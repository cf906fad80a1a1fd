use tantivy_go::queries::models::{QueryModifier, QueryType};

#[test]
fn modifiers_compare_by_variant() {
    assert_eq!(QueryModifier::Must, QueryModifier::Must);
    assert_ne!(QueryModifier::Must, QueryModifier::Should);
    assert_ne!(QueryModifier::Should, QueryModifier::MustNot);
}

#[test]
fn query_types_compare_by_variant() {
    assert_eq!(QueryType::FuzzyTermQuery, QueryType::FuzzyTermQuery);
    assert_ne!(QueryType::FuzzyTermQuery, QueryType::OneOfFuzzyTermQuery);
}
