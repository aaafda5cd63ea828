use datom_codec::{
    read_datom, Datom, Datomic, Extent, Fault, IncorporationBudget, Locus, Meaning, Potential,
    Problem,
};

fn budget() -> IncorporationBudget {
    IncorporationBudget::new(1024).unwrap()
}

fn round_trip<T: Datomic>(text: &str) -> T {
    Potential::<T>::from(text).actualize(budget()).unwrap()
}

fn round_trip_text<T: Datomic>(value: &T) -> String {
    value.textualize()
}

fn incorporate_from<T: Datomic>(text: &str) -> Result<T, Fault> {
    let (datom, at) = read_datom(text).unwrap();
    let mut b = budget();
    T::incorporate(&datom, &at, &mut b)
}

#[test]
fn integer_round_trips() {
    for (source, expected) in [("0", 0i64), ("42", 42), ("-42", -42)] {
        let v: i64 = round_trip(source);
        assert_eq!(v, expected);
        assert_eq!(round_trip_text(&v), source);
    }
}

#[test]
fn integer_minus_zero_rejected() {
    assert!(incorporate_from::<i64>("-0").is_err());
}

#[test]
fn integer_leading_zero_rejected() {
    assert!(incorporate_from::<i64>("01").is_err());
}

#[test]
fn integer_plus_rejected() {
    assert!(incorporate_from::<i64>("+1").is_err());
}

#[test]
fn boolean_round_trips() {
    assert!(round_trip::<bool>("True"));
    assert!(!round_trip::<bool>("False"));
    assert_eq!(round_trip_text(&true), "True");
    assert_eq!(round_trip_text(&false), "False");
}

#[test]
fn text_bare_round_trips() {
    let v: String = round_trip("Ada");
    assert_eq!(v, "Ada");
}

#[test]
fn text_quoted_round_trips() {
    let v: String = round_trip("\u{201C}hello world\u{201D}");
    assert_eq!(v, "hello world");
}

#[test]
fn bare_word_with_separator_as_string() {
    let v: String = round_trip("name:first");
    assert_eq!(v, "name:first");
}

#[test]
fn meaning_round_trips() {
    let m = incorporate_from::<Meaning>("(The build passed)").unwrap();
    assert_eq!(m, Meaning::Plain("The build passed".to_owned()));
}

#[test]
fn vector_integer_round_trips() {
    let v: Vec<i64> = round_trip("[ 0 42 -42 ]");
    assert_eq!(v, vec![0, 42, -42]);
    assert_eq!(round_trip_text(&v), "[ 0 42 -42 ]");
}

#[test]
fn option_some_round_trips() {
    let v: Option<i64> = round_trip("Some.42");
    assert_eq!(v, Some(42));
    assert_eq!(round_trip_text(&v), "Some.42");
}

#[test]
fn option_none_round_trips() {
    let v: Option<i64> = round_trip("None");
    assert_eq!(v, None);
    assert_eq!(round_trip_text(&v), "None");
}

#[test]
fn result_ok_round_trips() {
    let v: Result<i64, String> = round_trip("Ok.42");
    assert_eq!(v, Ok(42));
}

#[test]
fn result_err_round_trips() {
    let v: Result<i64, String> = round_trip("Err.\u{201C}something went wrong\u{201D}");
    assert_eq!(v, Err("something went wrong".to_owned()));
}

#[test]
fn vector_fault_carries_index_path() {
    let err = incorporate_from::<Vec<i64>>("[ 1 x ]").unwrap_err();
    match &err {
        Fault::Corporate(locus, Problem::Value(_)) => {
            assert_eq!(locus.path, vec![1]);
        }
        other => panic!("expected Corporate Value fault, got {other:?}"),
    }
}

#[test]
fn struct_fault_carries_field_path() {
    let err = incorporate_from::<Extent>("{ 1 x }").unwrap_err();
    match &err {
        Fault::Corporate(locus, Problem::Value(_)) => {
            assert_eq!(locus.path, vec![1]);
        }
        other => panic!("expected Corporate Value fault at [1], got {other:?}"),
    }
}

#[test]
fn fault_round_trips_through_datom() {
    let fault = Fault::Corporate(
        Locus { path: vec![1, 2], extent: Extent(0, 0) },
        Problem::Value("bad".to_owned()),
    );
    let text = fault.textualize();
    let fault2 = incorporate_from::<Fault>(&text).unwrap();
    assert_eq!(fault, fault2);
}

#[test]
fn a_datom_text_reads_back_as_its_datom() {
    let datom = Datom::Struct(vec![
        Datom::Word("42".to_owned()),
        Datom::Variant("Some".to_owned(), Box::new(Datom::Text("a b".to_owned()))),
        Datom::Vector(vec![Datom::Meaning("x (y)".to_owned())]),
    ]);
    let text = datom_codec::protosization::textualize_datom(&datom);
    assert_eq!(text, "{ 42 Some.“a b” [ (x (y)) ] }");
    let (back, _) = read_datom(&text).unwrap();
    assert_eq!(back, datom);
}
