use datom_codec::{
    Datomic, Entry, Fault, Group, IncorporationBudget, InterimNote, Keyed, Potential, Problem,
    Report, TagList, Text,
};

fn budget() -> IncorporationBudget {
    IncorporationBudget::new(1024).unwrap()
}

fn text(s: &str) -> Text {
    Text(s.to_owned())
}

fn read<T: Datomic>(source: &str) -> Result<T, Fault> {
    Potential::<T>::from(source).actualize(budget())
}

fn sample_report() -> Report {
    let mut annotations = Keyed::new();
    annotations
        .insert("kind".to_owned(), text("core"))
        .expect("a plain key is accepted");
    let inner = Group {
        title: text("Deep } ] (quote)"),
        children: vec![Entry::Note(text("tail"))],
        annotations: Keyed::new(),
    };
    let group = Group {
        title: text("Ops"),
        children: vec![Entry::Note(text("sub note")), Entry::Group(inner)],
        annotations,
    };
    let mut groups = Keyed::new();
    groups
        .insert(
            "north".to_owned(),
            vec![
                Entry::Note(text("quick note")),
                Entry::Group(group),
                Entry::Tags(TagList(vec![text("alpha"), text("beta")])),
            ],
        )
        .expect("a plain key is accepted");
    Report {
        heading: text("Q3"),
        groups,
        latest: Some(text("inside } ] (current context")),
    }
}

#[test]
fn a_report_round_trips_through_its_canonical_text() {
    let report = sample_report();
    let written = report.textualize();
    assert_eq!(
        written,
        "{ Q3 « north.[ [ Note.“quick note” Group.{ Ops [ Note.“sub note” Group.{ “Deep } ] (quote)” [ Note.tail ] «» } ] « kind.[ core ] » } Tags.[ alpha beta ] ] ] » Some.“inside } ] (current context” }"
    );
    let back: Report = read(&written).expect("canonical text realizes");
    assert_eq!(back, report);
    assert_eq!(back.textualize(), written);
}

#[test]
fn keyed_entries_are_kept_in_key_order_and_replace_on_a_repeated_key() {
    let mut m: Keyed<i64> = Keyed::new();
    assert_eq!(m.insert("south".to_owned(), 2), Ok(None));
    assert_eq!(m.insert("north".to_owned(), 1), Ok(None));
    assert_eq!(m.insert("south".to_owned(), 3), Ok(Some(2)));
    assert_eq!(m.len(), 2);
    assert_eq!(m.get(&"north".to_owned()), Some(&1));
    assert_eq!(m.get(&"south".to_owned()), Some(&3));
    assert_eq!(m.get(&"east".to_owned()), None);
    let keys: Vec<&str> = m.entries().iter().map(|(k, _)| k.as_str()).collect();
    assert_eq!(keys, vec!["north", "south"]);
    assert_eq!(m.textualize(), "« north.[ 1 ] south.[ 3 ] »");
}

#[test]
fn keyed_maps_refuse_keys_that_are_not_plain_symbols() {
    let mut m: Keyed<i64> = Keyed::new();
    assert_eq!(m.insert("bad key".to_owned(), 1), Err(1));
    assert_eq!(m.insert("north.bad".to_owned(), 2), Err(2));
    assert_eq!(m.insert(String::new(), 3), Err(3));
    assert_eq!(m.len(), 0);
}

#[test]
fn a_key_named_twice_is_a_duplicate_key_fault() {
    let source = "« north.[ 1 ] north.[ 2 ] »";
    match read::<Keyed<i64>>(source).unwrap_err() {
        Fault::Corporate(locus, Problem::DuplicateKey(key)) => {
            assert_eq!(key.as_str(), "north");
            assert_eq!(locus.path, vec![1]);
        }
        other => panic!("expected a duplicate key fault, got {other:?}"),
    }
}

#[test]
fn a_keyed_map_read_out_of_order_is_kept_in_key_order() {
    let m: Keyed<i64> = read("« south.[ 2 ] north.[ 1 ] »").unwrap();
    assert_eq!(m.textualize(), "« north.[ 1 ] south.[ 2 ] »");
}

#[test]
fn a_report_of_the_wrong_arity_is_refused() {
    for source in ["{ Q3 [] }", "{ Q3 « » }"] {
        match read::<Report>(source).unwrap_err() {
            Fault::Corporate(locus, Problem::Arity(expected, found)) => {
                assert_eq!((expected, found), (3, 2));
                assert!(locus.path.is_empty());
            }
            other => panic!("expected an arity fault, got {other:?}"),
        }
    }
}

#[test]
fn an_unknown_entry_kind_is_refused_at_its_path() {
    match read::<Report>("{ Q3 « north.[ [ Wrong.one ] ] » None }").unwrap_err() {
        Fault::Corporate(locus, Problem::UnknownVariant(name)) => {
            assert_eq!(name.as_str(), "Wrong");
            assert_eq!(locus.path, vec![1, 0, 1, 0, 0]);
        }
        other => panic!("expected an unknown variant fault, got {other:?}"),
    }
}

#[test]
fn an_interim_note_is_four_texts() {
    let note = InterimNote {
        a: "one".to_owned(),
        b: "two words".to_owned(),
        c: "a.b".to_owned(),
        d: String::new(),
    };
    let written = note.textualize();
    assert_eq!(written, "{ one “two words” a.b “” }");
    assert_eq!(read::<InterimNote>(&written).unwrap(), note);
}

#[test]
fn every_entry_kind_round_trips_alone() {
    for entry in [
        Entry::Note(text("a b")),
        Entry::Note(text(".")),
        Entry::Tags(TagList(vec![])),
        Entry::Group(Group {
            title: text("T"),
            children: vec![],
            annotations: Keyed::new(),
        }),
    ] {
        let written = entry.textualize();
        assert_eq!(read::<Entry>(&written).unwrap(), entry);
    }
    assert_eq!(Entry::Note(text(".")).textualize(), "Note.“.”");
    assert_eq!(Entry::Tags(TagList(vec![])).textualize(), "Tags.[]");
}

#[test]
fn a_map_is_a_guillemet_block_of_bracketed_entries() {
    let m: Keyed<String> = read("«mode.[fast] source.[local]»").unwrap();
    assert_eq!(m.get(&"mode".to_owned()), Some(&"fast".to_owned()));
    assert_eq!(m.get(&"source".to_owned()), Some(&"local".to_owned()));
    assert_eq!(m.textualize(), "« mode.[ fast ] source.[ local ] »");
    let empty: Keyed<String> = Keyed::new();
    assert_eq!(empty.textualize(), "«»");
    assert_eq!(read::<Keyed<String>>("« »").unwrap(), empty);
}

#[test]
fn a_map_entry_holds_exactly_one_value() {
    match read::<Keyed<i64>>("« north.[] »").unwrap_err() {
        Fault::Corporate(locus, Problem::Arity(expected, found)) => {
            assert_eq!((expected, found), (1, 0));
            assert_eq!(locus.path, vec![0, 1]);
        }
        other => panic!("expected a missing value, got {other:?}"),
    }
    match read::<Keyed<i64>>("« east.[ 1 ] north.[ 1 2 ] »").unwrap_err() {
        Fault::Corporate(locus, Problem::Arity(expected, found)) => {
            assert_eq!((expected, found), (1, 2));
            assert_eq!(locus.path, vec![1, 1]);
        }
        other => panic!("expected an extra value, got {other:?}"),
    }
}

#[test]
fn a_map_is_read_only_from_guillemets_and_entries_only_from_variants() {
    match read::<Keyed<i64>>("[ north.[ 1 ] ]").unwrap_err() {
        Fault::Corporate(locus, Problem::Shape(expected, found)) => {
            assert_eq!(expected, datom_codec::Expected::Mapping);
            assert_eq!(found, datom_codec::Found::Vector);
            assert!(locus.path.is_empty());
        }
        other => panic!("expected a shape fault, got {other:?}"),
    }
    match read::<Keyed<i64>>("« north »").unwrap_err() {
        Fault::Corporate(locus, Problem::Shape(_, _)) => {
            assert_eq!(locus.path, vec![0]);
        }
        other => panic!("expected a shape fault, got {other:?}"),
    }
    assert!(read::<Vec<i64>>("« »").is_err());
}

const CARRIERS: &str = "{
  “a plain string”
  “parentheses are ordinary plain String content”
  “string blocks ignore } ] and ( structural delimiters”
  “the default delimited String carrier”
}
";

#[test]
fn plain_string_uses_curly_quotes_and_keeps_its_interior_opaque() {
    let note: InterimNote = read(CARRIERS).expect("carrier fixture realizes");
    assert_eq!(note.a, "a plain string");
    assert_eq!(note.b, "parentheses are ordinary plain String content");
    assert_eq!(note.c, "string blocks ignore } ] and ( structural delimiters");
    assert_eq!(note.d, "the default delimited String carrier");
    let canonical = datom_codec::textualize_snug(&note);
    assert_eq!(
        canonical,
        "{“a plain string” “parentheses are ordinary plain String content” “string blocks ignore } ] and ( structural delimiters” “the default delimited String carrier”}"
    );
    assert_eq!(read::<InterimNote>(&canonical).unwrap(), note);
}

#[test]
fn a_report_has_a_snug_text_that_reads_back() {
    let report = sample_report();
    let snug = datom_codec::textualize_snug(&report);
    assert!(snug.starts_with("{Q3 «"));
    assert!(snug.ends_with("Some.“inside } ] (current context”}"));
    let back: Report = read(&snug).unwrap();
    assert_eq!(back, report);
    assert_eq!(datom_codec::textualize_snug(&back), snug);
    let empty: Keyed<i64> = Keyed::new();
    assert_eq!(datom_codec::textualize_snug(&empty), "«»");
}
