use datom_codec::{Datomic, Extent, Fault, IncorporationBudget, Potential, Problem};

fn budget() -> IncorporationBudget {
    IncorporationBudget::new(128).unwrap()
}

#[test]
fn public_edge_embodies_prospective_text_or_returns_an_extent_fault() {
    let value = Potential::<Option<i64>>::from(";; input trivia\nSome.-42")
        .actualize(budget())
        .expect("text enters through the sole public edge");
    assert_eq!(value, Some(-42));

    let fault = Potential::<Option<i64>>::from("Some.01")
        .actualize(budget())
        .expect_err("invalid typed payload faults");
    match fault {
        Fault::Corporate(locus, problem) => {
            assert!(matches!(problem, Problem::Value(_)));
            assert_eq!(locus.extent.0, 5);
            assert_eq!(locus.extent.1, 7);
            assert_eq!(locus.extent, Extent(5, 7));
        }
        other => panic!("expected a corporate fault, got {other:?}"),
    }
}

#[test]
fn public_edge_textualizes_typed_values_as_canonical_text() {
    let value = Some(-42_i64);
    let text = value.textualize();
    assert_eq!(text.as_str(), "Some.-42");
    assert_eq!(
        Potential::<Option<i64>>::from(text.as_str())
            .actualize(budget())
            .expect("canonical text returns to type"),
        value
    );
}
