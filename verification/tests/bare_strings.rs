use datom_codec::{Datomic, IncorporationBudget, Potential};

fn budget() -> IncorporationBudget {
    IncorporationBudget::new(128).unwrap()
}

#[test]
fn separator_bearing_strings_are_bare_at_the_typed_edge() {
    for source in ["a.b", "a!b", "a:b"] {
        let value = Potential::<String>::from(source)
            .actualize(budget())
            .expect("one Portion is an expected String");
        assert_eq!(value, source);
        assert_eq!(value.textualize().as_str(), source);
    }
}

#[test]
fn spaces_use_an_opaque_carrier_while_utf8_remains_bare() {
    let spaced = "two words".to_owned();
    assert_eq!(spaced.textualize().as_str(), "“two words”");
    assert_eq!(
        Potential::<String>::from("“two words”")
            .actualize(budget())
            .expect("opaque string embodies"),
        spaced
    );

    let utf8 = "héllo世界".to_owned();
    assert_eq!(utf8.textualize().as_str(), "héllo世界");
    assert_eq!(
        Potential::<String>::from("héllo世界")
            .actualize(budget())
            .expect("bare UTF-8 embodies"),
        utf8
    );
}

#[test]
fn balanced_curly_content_is_opaque_and_the_d4_edge_round_trips_it() {
    let value = "outer “inner” tail".to_owned();
    let text = value.textualize();
    assert_eq!(text.as_str(), "“outer “inner” tail”");
    assert_eq!(
        Potential::<String>::from(text.as_str())
            .actualize(budget())
            .expect("canonical typed text embodies"),
        value
    );
}

#[test]
fn built_strings_round_trip_at_a_root_and_inside_a_variant() {
    for value in [
        "a b", "{x}", "«5::7/128»", "a..b", "x\\y", "(p) [q] <r>", ";c", "a.", ".a", "a:b:c",
        "gpt-5.6-luna", "https://example.org/a", "_", "-", "“", "”", "a“b", "", " ", "5::7/128",
    ] {
        let text = value.to_owned().textualize();
        assert_eq!(
            Potential::<String>::from(text.as_str()).actualize(budget()).unwrap(),
            value,
            "{text}"
        );
        let some = Some(value.to_owned()).textualize();
        assert_eq!(
            Potential::<Option<String>>::from(some.as_str())
                .actualize(budget())
                .unwrap(),
            Some(value.to_owned()),
            "{some}"
        );
    }
}
