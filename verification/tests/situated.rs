use datom_codec::{
    Boundary, Datomic, Enclosure, Expected, Extent, Fault, Found, IncorporationBudget, Locus,
    Potential, Problem, StructuralFault, StructuralProblem, Text, Word,
};

fn budget() -> IncorporationBudget {
    IncorporationBudget::new(128).unwrap()
}

fn incorporation_budget(value: i64) -> IncorporationBudget {
    IncorporationBudget::new(value).unwrap()
}

fn value(text: &str) -> Problem {
    Problem::Value(text.to_owned())
}

fn fault<T: Datomic + std::fmt::Debug>(text: &str) -> Fault {
    Potential::<T>::from(text).actualize(budget()).unwrap_err()
}

fn corporate(path: &[i64], extent: Extent, problem: Problem) -> Fault {
    Fault::Corporate(
        Locus {
            path: path.to_vec(),
            extent,
        },
        problem,
    )
}

fn conceptual(path: &[i64], extent: Extent, problem: Problem) -> Fault {
    Fault::Conceptual(
        Locus {
            path: path.to_vec(),
            extent,
        },
        problem,
    )
}

fn at(text: &str, needle: &str) -> Extent {
    let start = text.rfind(needle).unwrap() as i64;
    Extent(start, start + needle.len() as i64)
}

#[test]
fn a_bad_element_is_reported_at_its_own_extent() {
    let text = "[ 1 x ]";
    assert_eq!(
        fault::<Vec<i64>>(text),
        corporate(&[1], at(text, "x"), value("x"))
    );
}

#[test]
fn a_variant_body_is_child_one() {
    let text = "Some.x";
    assert_eq!(
        fault::<Option<i64>>(text),
        corporate(&[1], at(text, "x"), value("x"))
    );
    let text = "Some.Some.x";
    assert_eq!(
        fault::<Option<Option<i64>>>(text),
        corporate(&[1, 1], at(text, "x"), value("x"))
    );
    let text = "Ok.{ 1 }";
    assert_eq!(
        fault::<Result<i64, i64>>(text),
        corporate(
            &[1],
            at(text, "{ 1 }"),
            Problem::Shape(Expected::Integer, Found::Struct)
        )
    );
}

#[test]
fn one_value() {
    assert_eq!(
        fault::<i64>("1 2"),
        conceptual(&[], Extent(0, 3), Problem::OneValue(2))
    );
    assert_eq!(
        fault::<i64>(""),
        conceptual(&[], Extent(0, 0), Problem::OneValue(0))
    );
    assert_eq!(
        fault::<i64>(" ; only a comment"),
        conceptual(&[], Extent(0, 0), Problem::OneValue(0))
    );
}

#[test]
fn structural_faults_pass_through() {
    assert_eq!(
        fault::<Vec<i64>>("{ Ada [ 1 }"),
        Fault::Unstructured(StructuralFault {
            extent: Extent(10, 11),
            problem: StructuralProblem::Unopened(Enclosure::Braced)
        })
    );
    assert_eq!(
        fault::<Text>("“open"),
        Fault::Unstructured(StructuralFault {
            extent: Extent(0, 7),
            problem: StructuralProblem::Unterminated(Boundary::CurlyQuotes)
        })
    );
    assert_eq!(
        Fault::Unstructured(StructuralFault {
            extent: Extent(0, 1),
            problem: StructuralProblem::Unopened(Enclosure::Braced)
        })
        .path(),
        Vec::<i64>::new()
    );
}

#[test]
fn corporate_descent_spends_the_caller_budget_before_each_reader() {
    let text = "[ 1 2 ]";
    let exhausted = Potential::<Vec<i64>>::from(text)
        .actualize(incorporation_budget(2))
        .unwrap_err();
    assert_eq!(
        exhausted,
        corporate(&[1], at(text, "2"), Problem::BudgetExhausted)
    );
    assert_eq!(
        Potential::<Vec<i64>>::from(text)
            .actualize(incorporation_budget(3))
            .unwrap(),
        vec![1, 2]
    );
}

#[test]
fn faults_are_themselves_datomic() {
    let f = fault::<Vec<i64>>("[ 1 x ]");
    let text = f.textualize();
    assert_eq!(text, "Corporate.{ { [ 1 ] { 4 5 } } Value.(x) }");
    let back: Fault = Potential::<Fault>::from(text.as_str())
        .actualize(budget())
        .unwrap();
    assert_eq!(back, f);
    let s = fault::<Vec<i64>>("{ Ada [ 1 }");
    assert_eq!(s.textualize(), "Structural.{ { 10 11 } Unopened.Braced }");
    let back: Fault = Potential::<Fault>::from(s.textualize().as_str())
        .actualize(budget())
        .unwrap();
    assert_eq!(back, s);
    let c = fault::<Vec<i64>>("{ Ada <a> }");
    assert_eq!(
        c.textualize(),
        "Conceptual.{ { [ 1 ] { 6 9 } } Formless.Angled }"
    );
}

#[test]
fn conceptual_faults_name_the_form_found() {
    let text = "{ Ada <a> }";
    assert_eq!(
        fault::<Vec<i64>>(text),
        conceptual(&[1], at(text, "<a>"), Problem::Formless(Found::Angled))
    );
    let text = "[ 1 Vector<Text> ]";
    assert_eq!(
        fault::<Vec<i64>>(text),
        conceptual(
            &[1],
            at(text, "Vector<Text>"),
            Problem::Formless(Found::Qualified)
        )
    );
    let text = "Some.{ [ A<b>.{ 1 } ] }";
    assert_eq!(
        fault::<Option<i64>>(text),
        conceptual(
            &[1, 0, 0],
            at(text, "A<b>.{ 1 }"),
            Problem::Formless(Found::Qualified)
        )
    );
}

#[test]
fn an_unknown_variant_names_a_word() {
    let text = "UnknownVariant.“a b”";
    assert_eq!(
        fault::<Problem>(text),
        corporate(&[1], at(text, "“a b”"), value("a b"))
    );
    let text = "DuplicateKey.“a b”";
    assert_eq!(
        fault::<Problem>(text),
        corporate(&[1], at(text, "“a b”"), value("a b"))
    );
    let name = Word::new("Nope".to_owned()).unwrap();
    let problem = Problem::UnknownVariant(name.clone());
    let written = problem.textualize();
    assert_eq!(written, "UnknownVariant.Nope");
    assert_eq!(
        Potential::<Problem>::from(written.as_str())
            .actualize(budget())
            .unwrap(),
        problem
    );
    assert!(Word::new("a b".to_owned()).is_none());
    assert_eq!(name.as_str(), "Nope");
}
