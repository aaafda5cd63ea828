use datom_codec::{
    IncorporationBudget, Potential, Report, Datomizable, Enclosure, Extent, Fault, Locus, Pathing, PathDatom, Form, Problem,
    StructuralFault, StructuralProblem,
};

fn mismatches(tree: &PathDatom) -> Vec<(Vec<i64>, Vec<i64>)> {
    let mut mismatches: Vec<(Vec<i64>, Vec<i64>)> = Vec::new();
    let mut work = vec![tree];
    while let Some(datom) = work.pop() {
        let at = &datom.path;
        let children: Vec<(Vec<i64>, &PathDatom)> = match &datom.form {
            Form::Struct(children) | Form::Vector(children) => children
                .iter()
                .enumerate()
                .map(|(index, child)| (at.child(index as i64), child))
                .collect(),
            Form::Variant(_, body) => vec![(at.child(1), body.as_ref())],
            _ => Vec::new(),
        };
        for (expected, child) in children {
            if child.path != expected {
                mismatches.push((expected, child.path.clone()));
            }
            work.push(child);
        }
    }
    mismatches
}

#[test]
fn every_datomized_node_carries_the_path_it_sits_at() {
    let error = Fault::Unstructured(StructuralFault {
        extent: Extent(4, 5),
        problem: StructuralProblem::Unclosed(Enclosure::Braced),
    });
    let tree = error.datomize(Vec::new());
    assert_eq!(tree.path, Vec::<i64>::new());
    assert_eq!(mismatches(&tree), Vec::new());

    let corporate = Fault::Corporate(
        Locus {
            path: vec![1, 2],
            extent: Extent(4, 5),
        },
        Problem::Value("x".to_owned()),
    );
    let tree = corporate.datomize(vec![7]);
    assert_eq!(tree.path, vec![7]);
    assert_eq!(mismatches(&tree), Vec::new());
    match &tree.form {
        Form::Variant(head, body) => {
            assert_eq!(head, "Corporate");
            assert_eq!(body.path, vec![7, 1]);
        }
        other => panic!("a fault is written as a variant, got {other:?}"),
    }
}

#[test]
fn integers_refuse_a_leading_plus() {
    assert_eq!(
        Potential::<i64>::from("4")
            .actualize(IncorporationBudget::new(2).unwrap())
            .unwrap(),
        4
    );
    let error = Potential::<i64>::from("+4")
        .actualize(IncorporationBudget::new(2).unwrap())
        .unwrap_err();
    assert!(matches!(error, Fault::Corporate(_, Problem::Value(ref v)) if v == "+4"));
}

#[test]
fn a_struct_reports_its_declared_arity_at_its_own_path() {
    for (text, found) in [("[ { x x } ]", 2i64), ("[ { x x x x } ]", 4)] {
        let error = Potential::<Vec<Report>>::from(text)
            .actualize(IncorporationBudget::new(16).unwrap())
            .unwrap_err();
        match error {
            Fault::Corporate(locus, Problem::Arity(expected, got)) => {
                assert_eq!(locus.path, vec![0]);
                assert_eq!((expected, got), (3, found));
            }
            other => panic!("expected an arity fault, got {other:?}"),
        }
    }
}
