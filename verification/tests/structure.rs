use datom_codec::{
    Datomic, Expected, Found, Naming, Pathing, delineate, read_datom, Boundary, Datom, Enclosure, ErrorLayer, Fault, IncorporationBudget,
    Potential, Problem, Protoform, Separator, StructuralFault, StructuralProblem,
};

fn structural(text: &str) -> StructuralProblem {
    match read_datom(text).unwrap_err() {
        Fault::Unstructured(StructuralFault { problem, .. }) => problem,
        other => panic!("expected a structural fault for {text:?}, got {other:?}"),
    }
}

#[test]
fn every_structural_problem_has_an_input_that_raises_it() {
    assert_eq!(
        structural("{ 1 2"),
        StructuralProblem::Unclosed(Enclosure::Braced)
    );
    assert_eq!(
        structural("[ 1 ]]"),
        StructuralProblem::Unopened(Enclosure::Bracketed)
    );
    assert_eq!(
        structural("(open"),
        StructuralProblem::Unterminated(Boundary::Parentheses)
    );
    assert_eq!(
        structural("a ”"),
        StructuralProblem::Stray(Boundary::CurlyQuotes)
    );
    let deep = format!("{}{}", "[".repeat(1100), "]".repeat(1100));
    assert_eq!(structural(&deep), StructuralProblem::Depth);
    let shallow = format!("{}{}", "[".repeat(20), "]".repeat(20));
    assert!(read_datom(&shallow).is_ok());
    let nested = format!("{}{}", "[".repeat(1000), "]".repeat(1000));
    assert!(read_datom(&nested).is_ok());
}

#[test]
fn the_delineation_of_a_text_names_its_forms() {
    let d = delineate("Some.42 ; trailing comment\n[ a ]").unwrap();
    assert_eq!(d.forms.len(), 2);
    match &d.forms[0] {
        Protoform::Headed(head, Separator::Period, body) => {
            assert_eq!(head, "Some");
            assert!(matches!(&**body, Protoform::Bare(w) if w == "42"));
        }
        other => panic!("expected a headed form, got {other:?}"),
    }
    assert!(matches!(&d.forms[1], Protoform::Enclosed(Enclosure::Bracketed, cs) if cs.len() == 1));
    assert_eq!(d.situations.len(), 2);
}

#[test]
fn each_fault_names_its_layer() {
    assert_eq!(
        read_datom("{").unwrap_err().layer(),
        ErrorLayer::Protos
    );
    assert_eq!(
        read_datom("{ <a> }").unwrap_err().layer(),
        ErrorLayer::Datom
    );
    let corporate = Potential::<i64>::from("x")
        .actualize(IncorporationBudget::new(4).unwrap())
        .unwrap_err();
    assert_eq!(corporate.layer(), ErrorLayer::Composition);
}

#[test]
fn an_empty_budget_refuses_before_anything_is_read() {
    let f = Potential::<i64>::from("42")
        .actualize(IncorporationBudget::new(0).unwrap())
        .unwrap_err();
    assert!(matches!(f, Fault::Corporate(_, Problem::BudgetExhausted)));
    assert!(IncorporationBudget::new(-1).is_none());
    let mut b = IncorporationBudget::new(1).unwrap();
    assert!(b.consume());
    assert_eq!(b.remaining(), 0);
    assert!(!b.consume());
    assert_eq!(b.remaining(), 0);
}

#[test]
fn a_chain_with_other_separators_stays_one_word() {
    let (datom, _) = read_datom("a!b:c").unwrap();
    assert_eq!(datom, Datom::Word("a!b:c".to_owned()));
    let (datom, _) = read_datom("Ok.a:b").unwrap();
    assert_eq!(
        datom,
        Datom::Variant("Ok".to_owned(), Box::new(Datom::Word("a:b".to_owned())))
    );
}

#[test]
fn paths_extend_to_their_children_and_datoms_name_their_forms() {
    let root: Vec<i64> = vec![];
    let child = root.child(1);
    assert_eq!(child, vec![1]);
    assert_eq!(child.child(0), vec![1, 0]);
    assert_eq!(Datom::Word("a".to_owned()).form_name(), "Word");
    assert_eq!(Datom::Vector(vec![]).form_name(), "Vector");
    assert_eq!(Datom::Struct(vec![]).form_name(), "Struct");
    assert_eq!(Datom::Text("a b".to_owned()).form_name(), "Text");
    assert_eq!(Datom::Meaning("a".to_owned()).form_name(), "Meaning");
    assert_eq!(
        Datom::Variant("A".to_owned(), Box::new(Datom::Word("b".to_owned()))).form_name(),
        "Variant"
    );
}

#[test]
fn words_of_the_structural_layer_round_trip() {
    let budget = || IncorporationBudget::new(16).unwrap();
    for e in [Enclosure::Braced, Enclosure::Bracketed, Enclosure::Angled] {
        let t = e.textualize();
        assert_eq!(Potential::<Enclosure>::from(&t).actualize(budget()).unwrap(), e);
    }
    assert_eq!(Separator::Colon.textualize(), "Colon");
    assert_eq!(Boundary::CurlyQuotes.textualize(), "CurlyQuotes");
    assert_eq!(Expected::Integer.textualize(), "Integer");
    assert_eq!(Found::Angled.textualize(), "Angled");
    assert_eq!(ErrorLayer::Composition.textualize(), "Composition");
    assert!(matches!(
        Potential::<Enclosure>::from("Round").actualize(budget()).unwrap_err(),
        Fault::Corporate(_, Problem::Value(name)) if name == "Round"
    ));
}

#[test]
fn datoms_copy_and_compare_node_by_node() {
    let (datom, _) = read_datom("{ Ada [ 1 Some.“a b” (m) ] }").unwrap();
    let copy = datom.clone();
    assert_eq!(copy, datom);
    let (other, _) = read_datom("{ Ada [ 1 Some.“a c” (m) ] }").unwrap();
    assert_ne!(other, datom);
    assert_ne!(Datom::Word("a".to_owned()), Datom::Text("a".to_owned()));
    assert_ne!(Datom::Struct(vec![]), Datom::Vector(vec![]));
}
