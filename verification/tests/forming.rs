use datom_codec::{
    compose_bare_string, compose_text, compose_within, delineate, form, Boundary, Budget, Compositional,
    Datomic, Datomizable, Enclosure, Error, ErrorKind, ErrorLayer, Form, PathDatom, Protoform,
    StructuralFault, StructuralProblem,
};

fn root(text: &str) -> Protoform {
    let mut d = delineate(text).expect("the text is structured");
    assert_eq!(d.forms.len(), 1, "{text} holds one structure");
    d.forms.remove(0)
}

fn formed(text: &str) -> Result<PathDatom, Error> {
    form(&root(text), Vec::new())
}

fn budget(remaining: i64) -> Budget {
    Budget { remaining, depth: 0, maximum_depth: 4096 }
}

fn bare(path: Vec<i64>, word: &str) -> PathDatom {
    PathDatom { path, form: Form::Bare(word.to_owned()) }
}

#[test]
fn forming_places_each_child_at_its_index() {
    let d = formed("{ a [ b “c d” ] (e) }").unwrap();
    assert_eq!(
        d,
        PathDatom {
            path: vec![],
            form: Form::Struct(vec![
                bare(vec![0], "a"),
                PathDatom {
                    path: vec![1],
                    form: Form::Vector(vec![
                        bare(vec![1, 0], "b"),
                        PathDatom { path: vec![1, 1], form: Form::String("c d".to_owned()) },
                    ]),
                },
                PathDatom { path: vec![2], form: Form::Meaning("e".to_owned()) },
            ]),
        }
    );
}

#[test]
fn forming_a_variant_puts_its_body_at_child_one() {
    let d = form(&root("Some.{ x }"), vec![3]).unwrap();
    assert_eq!(
        d,
        PathDatom {
            path: vec![3],
            form: Form::Variant(
                "Some".to_owned(),
                Box::new(PathDatom {
                    path: vec![3, 1],
                    form: Form::Struct(vec![bare(vec![3, 1, 0], "x")]),
                }),
            ),
        }
    );
}

#[test]
fn forming_rejoins_an_integer_head_over_digits() {
    assert_eq!(formed("1.5").unwrap(), bare(vec![], "1.5"));
    assert_eq!(formed("-12.50").unwrap(), bare(vec![], "-12.50"));
    match formed("a.5").unwrap().form {
        Form::Variant(head, body) => {
            assert_eq!(head, "a");
            assert_eq!(*body, bare(vec![1], "5"));
        }
        other => panic!("a word head stays a variant, got {other:?}"),
    }
}

#[test]
fn forming_keeps_other_separators_as_one_bare_run() {
    assert_eq!(formed("a:b").unwrap(), bare(vec![], "a:b"));
}

#[test]
fn forming_refuses_angled_enclosures() {
    let e = formed("{ a < b > }").unwrap_err();
    assert_eq!(e.layer, ErrorLayer::Datom);
    assert_eq!(e.path, vec![1]);
    assert_eq!(
        e.kind,
        ErrorKind::Form { expected: "Datom enclosure".to_owned(), found: "Angled".to_owned() }
    );
}

#[test]
fn forming_refuses_qualified_heads() {
    let e = formed("[ x Map<a>.b ]").unwrap_err();
    assert_eq!(e.layer, ErrorLayer::Datom);
    assert_eq!(e.path, vec![1]);
    assert_eq!(
        e.kind,
        ErrorKind::Form {
            expected: "unqualified Variant".to_owned(),
            found: "qualified head".to_owned(),
        }
    );
}

#[test]
fn a_bare_chain_composes_as_one_string() {
    let d = formed("gpt-5.6-luna").unwrap();
    let mut b = budget(10);
    assert_eq!(compose_bare_string(&d, &mut b).unwrap(), "gpt-5.6-luna");
    assert_eq!(b.remaining, 8, "one unit for each link");
    assert_eq!(b.depth, 0);

    let d = formed("a.b.c").unwrap();
    let mut b = budget(10);
    assert_eq!(compose_bare_string(&d, &mut b).unwrap(), "a.b.c");
    assert_eq!(b.remaining, 7);
}

#[test]
fn a_quoted_string_composes_whole() {
    let d = formed("“a b”").unwrap();
    let mut b = budget(1);
    assert_eq!(compose_bare_string(&d, &mut b).unwrap(), "a b");
    assert_eq!(b.remaining, 0);
}

#[test]
fn a_chain_ending_in_a_quoted_string_is_refused() {
    let d = formed("a.“b”").unwrap();
    let mut b = budget(10);
    let e = compose_bare_string(&d, &mut b).unwrap_err();
    assert_eq!(e.layer, ErrorLayer::Composition);
    assert_eq!(e.path, vec![1]);
    assert_eq!(
        e.kind,
        ErrorKind::Form { expected: "String".to_owned(), found: "String".to_owned() }
    );
}

#[test]
fn composing_a_struct_as_a_string_is_refused() {
    let d = formed("{ a }").unwrap();
    let mut b = budget(10);
    let e = compose_bare_string(&d, &mut b).unwrap_err();
    assert_eq!(e.path, Vec::<i64>::new());
    assert_eq!(
        e.kind,
        ErrorKind::Form { expected: "String".to_owned(), found: "Struct".to_owned() }
    );
}

#[test]
fn an_empty_budget_refuses_before_anything_is_composed() {
    let d = formed("a.b").unwrap();
    let mut b = budget(1);
    let e = compose_bare_string(&d, &mut b).unwrap_err();
    assert_eq!(e.kind, ErrorKind::Budget);
    assert_eq!(e.path, vec![1]);
    assert_eq!(b.remaining, 0);

    let mut b = budget(0);
    let e = compose_bare_string(&d, &mut b).unwrap_err();
    assert_eq!(e.kind, ErrorKind::Budget);
    assert_eq!(e.path, Vec::<i64>::new());
    assert_eq!(b, budget(0));
}

#[test]
fn the_depth_guard_stops_a_deep_chain() {
    let d = formed("a.b.c").unwrap();
    let mut b = Budget { remaining: 10, depth: 0, maximum_depth: 1 };
    let e = compose_bare_string(&d, &mut b).unwrap_err();
    assert_eq!(e.kind, ErrorKind::Budget);
    assert_eq!(e.path, vec![1, 1]);
}

#[test]
fn compose_within_refuses_at_the_maximum_depth() {
    let d = formed("a").unwrap();
    let mut b = Budget { remaining: 10, depth: 3, maximum_depth: 3 };
    let e = compose_within::<String>(&d, &mut b).unwrap_err();
    assert_eq!(e.kind, ErrorKind::Budget);
    assert_eq!(b.remaining, 10);

    let mut b = Budget { remaining: 10, depth: 2, maximum_depth: 3 };
    assert_eq!(compose_within::<String>(&d, &mut b).unwrap(), "a");
    assert_eq!(b, Budget { remaining: 9, depth: 2, maximum_depth: 3 });
}

#[test]
fn structural_problems_compose_from_their_datoms() {
    let mut b = budget(10);
    assert_eq!(
        StructuralProblem::compose(&formed("Depth").unwrap(), &mut b).unwrap(),
        StructuralProblem::Depth
    );
    assert_eq!(
        StructuralProblem::compose(&formed("Unclosed.Braced").unwrap(), &mut b).unwrap(),
        StructuralProblem::Unclosed(Enclosure::Braced)
    );
    assert_eq!(
        StructuralProblem::compose(&formed("Stray.CurlyQuotes").unwrap(), &mut b).unwrap(),
        StructuralProblem::Stray(Boundary::CurlyQuotes)
    );
    assert_eq!(b.remaining, 5);
}

#[test]
fn a_structural_problem_with_an_unknown_head_is_refused() {
    let mut b = budget(10);
    let e = StructuralProblem::compose(&formed("Broken.Braced").unwrap(), &mut b).unwrap_err();
    assert_eq!(e.layer, ErrorLayer::Composition);
    assert_eq!(
        e.kind,
        ErrorKind::Variant { expected: "StructuralProblem".to_owned(), found: "Broken".to_owned() }
    );
    let e = StructuralProblem::compose(&formed("Unclosed.Round").unwrap(), &mut b).unwrap_err();
    assert_eq!(e.path, vec![1]);
    assert_eq!(
        e.kind,
        ErrorKind::Value { expected: "Enclosure".to_owned(), value: "Round".to_owned() }
    );
    let e = StructuralProblem::compose(&formed("[ Depth ]").unwrap(), &mut b).unwrap_err();
    assert_eq!(
        e.kind,
        ErrorKind::Form { expected: "StructuralProblem".to_owned(), found: "Vector".to_owned() }
    );
}

fn mismatches(tree: &PathDatom) -> Vec<(Vec<i64>, Vec<i64>)> {
    let mut found: Vec<(Vec<i64>, Vec<i64>)> = Vec::new();
    let mut work = vec![tree];
    while let Some(datom) = work.pop() {
        let children: Vec<(Vec<i64>, &PathDatom)> = match &datom.form {
            Form::Struct(children) | Form::Vector(children) | Form::Mapping(children) => children
                .iter()
                .enumerate()
                .map(|(index, child)| {
                    let mut at = datom.path.clone();
                    at.push(index as i64);
                    (at, child)
                })
                .collect(),
            Form::Variant(_, body) => {
                let mut at = datom.path.clone();
                at.push(1);
                vec![(at, body.as_ref())]
            }
            _ => Vec::new(),
        };
        for (expected, child) in children {
            if child.path != expected {
                found.push((expected, child.path.clone()));
            }
            work.push(child);
        }
    }
    found
}

#[test]
fn error_kinds_datomize_under_their_names_at_their_paths() {
    let d = ErrorKind::Budget.datomize(vec![2]);
    assert_eq!(d, bare(vec![2], "Budget"));

    let d = ErrorKind::Arity { expected: 3, found: -1 }.datomize(vec![]);
    assert_eq!(mismatches(&d), Vec::new());
    assert_eq!(
        d,
        PathDatom {
            path: vec![],
            form: Form::Variant(
                "Arity".to_owned(),
                Box::new(PathDatom {
                    path: vec![1],
                    form: Form::Struct(vec![bare(vec![1, 0], "3"), bare(vec![1, 1], "-1")]),
                }),
            ),
        }
    );

    let d = ErrorKind::Form { expected: "a b".to_owned(), found: "c".to_owned() }.datomize(vec![]);
    assert_eq!(mismatches(&d), Vec::new());
    match &d.form {
        Form::Variant(head, body) => {
            assert_eq!(head, "Form");
            match &body.form {
                Form::Struct(fields) => {
                    assert_eq!(fields.len(), 2);
                    assert_eq!(fields[0].path, vec![1, 0]);
                }
                other => panic!("the fields form a struct, got {other:?}"),
            }
        }
        other => panic!("a kind with fields is a variant, got {other:?}"),
    }

    let fault = StructuralFault {
        extent: datom_codec::Extent(1, 2),
        problem: StructuralProblem::Depth,
    };
    let d = ErrorKind::Unstructured(fault).datomize(vec![5]);
    assert_eq!(mismatches(&d), Vec::new());
    match &d.form {
        Form::Variant(head, body) => {
            assert_eq!(head, "Structural");
            assert_eq!(body.path, vec![5, 1]);
        }
        other => panic!("a structural kind is a variant, got {other:?}"),
    }
}

#[test]
fn errors_datomize_their_layer_path_and_kind() {
    let e = Error { layer: ErrorLayer::Composition, path: vec![4, 2], kind: ErrorKind::Budget };
    let d = e.datomize(vec![]);
    assert_eq!(mismatches(&d), Vec::new());
    match &d.form {
        Form::Variant(head, body) => {
            assert_eq!(head, "Error");
            match &body.form {
                Form::Struct(fields) => {
                    assert_eq!(fields.len(), 3);
                    assert_eq!(fields[0], bare(vec![1, 0], "Composition"));
                    assert_eq!(fields[2], bare(vec![1, 2], "Budget"));
                }
                other => panic!("the error's fields form a struct, got {other:?}"),
            }
        }
        other => panic!("an error is a variant, got {other:?}"),
    }
}

#[test]
fn formed_datoms_carry_their_paths() {
    let d = formed("{ a [ b.{ c d } e ] f.g }").unwrap();
    assert_eq!(mismatches(&d), Vec::new());
}

#[test]
fn forming_guillemets_gives_a_map_of_placed_entries() {
    let d = formed("« a.[ 1 ] »").unwrap();
    assert_eq!(mismatches(&d), Vec::new());
    match &d.form {
        Form::Mapping(entries) => {
            assert_eq!(entries.len(), 1);
            assert_eq!(entries[0].path, vec![0]);
        }
        other => panic!("guillemets form a map, got {other:?}"),
    }
}

#[test]
fn a_text_composes_through_its_one_structure() {
    let mut b = budget(10);
    assert_eq!(compose_text::<String>("gpt-5.6-luna", &mut b).unwrap(), "gpt-5.6-luna");
    assert_eq!(b, budget(8));
    let mut b = budget(10);
    assert_eq!(compose_text::<String>("“a b”", &mut b).unwrap(), "a b");
    assert_eq!(
        compose_text::<StructuralProblem>("Unclosed.Braced", &mut b).unwrap(),
        StructuralProblem::Unclosed(Enclosure::Braced)
    );
}

#[test]
fn a_text_without_one_structure_is_refused_at_its_layer() {
    let mut b = budget(10);
    let e = compose_text::<String>("a b", &mut b).unwrap_err();
    assert_eq!(e.layer, ErrorLayer::Datom);
    assert_eq!(e.kind, ErrorKind::Arity { expected: 1, found: 2 });
    let e = compose_text::<String>("{ a", &mut b).unwrap_err();
    assert_eq!(e.layer, ErrorLayer::Protos);
    assert!(matches!(e.kind, ErrorKind::Unstructured(_)));
    let e = compose_text::<String>("< a >", &mut b).unwrap_err();
    assert_eq!(e.layer, ErrorLayer::Datom);
    assert_eq!(b, budget(10), "nothing is spent before composition");
}

#[test]
fn integers_compose_from_their_canonical_words() {
    let mut b = budget(10);
    assert_eq!(compose_text::<i64>("-42", &mut b).unwrap(), -42);
    assert_eq!(compose_text::<i64>("0", &mut b).unwrap(), 0);
    assert_eq!(b.remaining, 8);
    for word in ["+4", "007", "-0", "9223372036854775808"] {
        let e = compose_text::<i64>(word, &mut b).unwrap_err();
        assert_eq!(
            e.kind,
            ErrorKind::Value { expected: "Integer".to_owned(), value: word.to_owned() },
            "{word} is not an integer"
        );
    }
    let e = compose_text::<i64>("[ 1 ]", &mut b).unwrap_err();
    assert_eq!(e.kind, ErrorKind::Form { expected: "Bare".to_owned(), found: "Vector".to_owned() });
}

#[test]
fn booleans_compose_from_true_and_false() {
    let mut b = budget(10);
    assert!(compose_text::<bool>("True", &mut b).unwrap());
    assert!(!compose_text::<bool>("False", &mut b).unwrap());
    let e = compose_text::<bool>("true", &mut b).unwrap_err();
    assert_eq!(e.kind, ErrorKind::Value { expected: "Boolean".to_owned(), value: "true".to_owned() });
}

#[test]
fn vectors_compose_each_element_at_its_path() {
    let mut b = budget(10);
    assert_eq!(compose_text::<Vec<i64>>("[ 1 2 3 ]", &mut b).unwrap(), vec![1, 2, 3]);
    assert_eq!(b.remaining, 6, "one unit for the vector and one for each element");
    let e = compose_text::<Vec<i64>>("[ 1 x ]", &mut b).unwrap_err();
    assert_eq!(e.path, vec![1]);
    assert_eq!(e.kind, ErrorKind::Value { expected: "Integer".to_owned(), value: "x".to_owned() });
    let e = compose_text::<Vec<i64>>("{ 1 }", &mut b).unwrap_err();
    assert_eq!(e.kind, ErrorKind::Form { expected: "Vector".to_owned(), found: "Struct".to_owned() });
    let mut shallow = Budget { remaining: 10, depth: 0, maximum_depth: 1 };
    let e = compose_text::<Vec<Vec<i64>>>("[ [ 1 ] ]", &mut shallow).unwrap_err();
    assert_eq!(e.kind, ErrorKind::Budget);
    assert_eq!(e.path, vec![0]);
}

#[test]
fn options_compose_from_none_and_some() {
    let mut b = budget(10);
    assert_eq!(compose_text::<Option<i64>>("None", &mut b).unwrap(), None);
    assert_eq!(compose_text::<Option<i64>>("Some.7", &mut b).unwrap(), Some(7));
    assert_eq!(
        compose_text::<Option<String>>("Some.a.b", &mut b).unwrap(),
        Some("a.b".to_owned())
    );
    let e = compose_text::<Option<i64>>("Maybe.7", &mut b).unwrap_err();
    assert_eq!(e.kind, ErrorKind::Variant { expected: "Option".to_owned(), found: "Maybe".to_owned() });
    let e = compose_text::<Option<i64>>("Nothing", &mut b).unwrap_err();
    assert_eq!(e.kind, ErrorKind::Form { expected: "Variant".to_owned(), found: "Bare".to_owned() });
}

#[test]
fn error_layers_compose_from_their_words() {
    let mut b = budget(10);
    for layer in [ErrorLayer::Protos, ErrorLayer::Datom, ErrorLayer::Composition] {
        let d = layer.datomize(vec![3]);
        assert_eq!(d.path, vec![3]);
        assert_eq!(ErrorLayer::compose(&d, &mut b).unwrap(), layer);
    }
    assert_eq!(b.remaining, 7);
    let e = ErrorLayer::compose(&bare(vec![], "Reader"), &mut b).unwrap_err();
    assert_eq!(e.kind, ErrorKind::Variant { expected: "ErrorLayer".to_owned(), found: "Reader".to_owned() });
}

#[test]
fn scalar_datoms_compose_back() {
    let mut b = budget(10);
    for v in [0i64, -1, 42, i64::MIN, i64::MAX] {
        assert_eq!(i64::compose(&v.datomize(vec![1]), &mut b).unwrap(), v);
    }
    for v in [true, false] {
        assert_eq!(bool::compose(&v.datomize(vec![]), &mut b).unwrap(), v);
    }
    assert_eq!(b.remaining, 3);
}

#[test]
fn an_integer_text_composes_back() {
    for v in [0i64, 7, -42, i64::MIN, i64::MAX] {
        let mut b = budget(1);
        assert_eq!(compose_text::<i64>(&v.textualize(), &mut b).unwrap(), v);
        assert_eq!(b, budget(0));
    }
}

#[test]
fn results_compose_from_ok_and_err() {
    let mut b = budget(10);
    assert_eq!(compose_text::<Result<i64, String>>("Ok.5", &mut b).unwrap(), Ok(5));
    assert_eq!(
        compose_text::<Result<i64, String>>("Err.“no way”", &mut b).unwrap(),
        Err("no way".to_owned())
    );
    assert_eq!(b.remaining, 6);
    let e = compose_text::<Result<i64, String>>("Fine.5", &mut b).unwrap_err();
    assert_eq!(e.kind, ErrorKind::Variant { expected: "Result".to_owned(), found: "Fine".to_owned() });
    let e = compose_text::<Result<i64, String>>("Ok.x", &mut b).unwrap_err();
    assert_eq!(e.path, vec![1]);
}

#[test]
fn a_meaning_composes_from_parentheses_only() {
    let mut b = budget(10);
    assert_eq!(
        compose_text::<datom_codec::Meaning>("(a (b) c)", &mut b).unwrap(),
        datom_codec::Meaning::Plain("a (b) c".to_owned())
    );
    let e = compose_text::<datom_codec::Meaning>("“a”", &mut b).unwrap_err();
    assert_eq!(e.kind, ErrorKind::Form { expected: "Meaning".to_owned(), found: "String".to_owned() });
}
