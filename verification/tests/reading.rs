use datom_codec::{
    read_datom, Datom, Datomic, Expected, Extent, Fault, Found, IncorporationBudget, Locus,
    Meaning, Potential, Problem, Site, Situation, Text,
};

fn budget() -> IncorporationBudget {
    IncorporationBudget::new(128).unwrap()
}

fn read<T: Datomic>(text: &str) -> Result<T, Fault> {
    Potential::<T>::from(text).actualize(budget())
}

fn value_fault(f: &Fault) -> bool {
    matches!(f, Fault::Corporate(_, Problem::Value(_)))
}

fn text(s: &str) -> Text {
    Text(s.to_owned())
}

fn meaning(s: &str) -> Meaning {
    Meaning::Plain(s.to_owned())
}

#[test]
fn bare_words_in_a_text_position_keep_their_syntax_glyphs() {
    for word in [
        "name:first",
        "Some.42",
        "a..b",
        "a.",
        ".a",
        "2026-09-03T17:46:20",
        "a:b.c",
        "a.b:c",
        "-",
        "a\\b",
        "True",
        "42",
    ] {
        let t: Text = read(word).unwrap();
        assert_eq!(t.0.as_str(), word, "{word:?} reads whole");
        assert_eq!(t.textualize(), word, "{word:?} writes bare");
    }
}

#[test]
fn integers() {
    for (t, v) in [
        ("0", 0i64),
        ("42", 42),
        ("-42", -42),
        ("-9223372036854775808", i64::MIN),
        ("9223372036854775807", i64::MAX),
    ] {
        assert_eq!(read::<i64>(t).unwrap(), v);
        assert_eq!(v.textualize(), t);
    }
    for t in [
        "+1",
        "01",
        "-0",
        "1.0",
        "1e3",
        "9223372036854775808",
        "0x1",
        "1_000",
    ] {
        assert!(
            value_fault(&read::<i64>(t).unwrap_err()),
            "{t:?} is not an integer"
        );
    }
    assert!(read::<i64>("").is_err());
    assert!(read::<i64>("- 1").is_err());
}

#[test]
fn booleans() {
    assert!(read::<bool>("True").unwrap());
    assert!(!read::<bool>("False").unwrap());
    assert_eq!(true.textualize(), "True");
    for t in ["true", "false", "1", "T"] {
        assert!(value_fault(&read::<bool>(t).unwrap_err()));
    }
}

#[test]
fn a_string_position_takes_bare_quoted_and_chains_only() {
    assert_eq!(
        read::<Text>("(x)").unwrap_err(),
        Fault::Corporate(
            Locus {
                path: vec![],
                extent: Extent(0, 3)
            },
            Problem::Shape(Expected::Text, Found::Meaning)
        )
    );
    assert!(matches!(
        read::<Text>("{ a }").unwrap_err(),
        Fault::Corporate(_, Problem::Shape(Expected::Text, Found::Struct))
    ));
    assert!(matches!(
        read::<Text>("Some.{ 1 }").unwrap_err(),
        Fault::Corporate(_, Problem::Shape(Expected::Text, Found::Variant))
    ));
}

#[test]
fn meaning_escapes() {
    for (content, written) in [
        ("a (b) c", "(a (b) c)"),
        ("a ) b", "(a \\) b)"),
        ("a ( b", "(a \\( b)"),
        ("\\", "(\\\\)"),
        ("", "()"),
        ("a “ b ; c", "(a “ b ; c)"),
    ] {
        let m = meaning(content);
        assert_eq!(m.textualize(), written);
        assert_eq!(read::<Meaning>(written).unwrap(), m);
    }
}

#[test]
fn meaning_keeps_a_curly_quote_closer_as_its_own_content() {
    let value = read::<Meaning>("(a ” b)").unwrap();
    let Meaning::Plain(content) = &value;
    assert_eq!(content.as_str(), "a ” b");
    assert_eq!(value.textualize(), "(a ” b)");
}

#[test]
fn non_period_chains_are_words_and_period_chains_are_variants() {
    let (datom, _) = read_datom("{ a:b Some.42 }").unwrap();
    assert_eq!(
        datom,
        Datom::Struct(vec![
            Datom::Word("a:b".to_owned()),
            Datom::Variant("Some".to_owned(), Box::new(Datom::Word("42".to_owned())))
        ])
    );
}

#[test]
fn vectors_of_text_take_bare_and_quoted_alike() {
    let v: Vec<Text> = read("[ /abs/path “a b” c ]").unwrap();
    assert_eq!(v, vec![text("/abs/path"), text("a b"), text("c")]);
    assert_eq!(v.textualize(), "[ /abs/path “a b” c ]");
    assert_eq!(Vec::<i64>::new().textualize(), "[]");
}

#[test]
fn text_payloads_preserve_the_variant_boundary() {
    let value = Some(text("."));
    let written = value.textualize();
    assert_eq!(written, "Some.“.”");
    assert_eq!(read::<Option<Text>>(&written).unwrap(), value);
}

#[test]
fn fault_text_payloads_remain_data() {
    let value = Problem::Value("a;b".to_owned());
    let written = value.textualize();
    assert_eq!(read::<Problem>(&written).unwrap(), value);
}

#[test]
fn exhausted_positions_refuse_without_moving_the_cursor() {
    let datom = Datom::Vector(vec![]);
    let at = Situation {
        extent: Extent(0, 2),
        children: vec![],
    };
    let site = Site::new(&datom, &at);
    let mut positions = site.elements().unwrap();
    let mut b = budget();
    let exhausted: Result<i64, _> = positions.position(&mut b);
    assert!(exhausted.is_err());
    assert_eq!(positions.remaining(), 0);
}
