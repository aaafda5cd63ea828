use datom_codec::{
    read_datom, Datomic, Decimal, Fault, IncorporationBudget, Potential, Problem,
};

use datom_codec::words::{
    canonical_decimal_word, integer_from_word, integer_to_word, is_decimal_word,
};

fn read<T: Datomic>(text: &str) -> Result<T, Fault> {
    Potential::<T>::from(text).actualize(IncorporationBudget::new(64).unwrap())
}

fn glyphs(s: &str) -> Vec<char> {
    s.chars().collect()
}

#[test]
fn decimal_words_are_canonical_digits_a_point_and_digits() {
    for w in ["3.25", "-0.5", "0.0", "1.5", "100.0", "2.75"] {
        assert!(is_decimal_word(&glyphs(w)), "{w:?} spells a decimal");
    }
    for w in ["1", "1.", ".5", "1e300", "01.5", "NaN", "inf", "-", "1.5.2", "", "-.5", "1.x"] {
        assert!(!is_decimal_word(&glyphs(w)), "{w:?} does not spell a decimal");
    }
}

#[test]
fn printed_decimals_become_canonical_words() {
    for (printed, canonical) in [
        ("3", "3.0"),
        ("-0", "-0.0"),
        ("1.50", "1.5"),
        ("2.000", "2.0"),
        ("0.125", "0.125"),
    ] {
        let w: String = canonical_decimal_word(&glyphs(printed)).into_iter().collect();
        assert_eq!(w, canonical);
    }
}

#[test]
fn integers_and_their_words() {
    assert_eq!(integer_from_word(&glyphs("-42")), Some(-42));
    assert_eq!(integer_from_word(&glyphs("-0")), None);
    assert_eq!(integer_from_word(&glyphs("01")), None);
    assert_eq!(
        integer_to_word(i64::MIN).into_iter().collect::<String>(),
        "-9223372036854775808"
    );
}

#[test]
fn decimal_point_mandatory() {
    assert!(read::<Decimal>("42").is_err());
}

#[test]
fn decimal_no_leading_zero_except_zero_dot() {
    assert!(read::<Decimal>("01.5").is_err());
    assert_eq!(read::<Decimal>("0.5").unwrap().as_str(), "0.5");
}

#[test]
fn decimals() {
    for t in ["3.25", "-0.5", "0.0", "1.5", "100.0"] {
        let v = read::<Decimal>(t).unwrap();
        assert_eq!(v.as_str(), t);
        assert_eq!(v.textualize(), t);
    }
    for t in ["1", "1.", ".5", "1e300", "01.5", "NaN", "inf", "-", "1.5.2"] {
        assert!(
            matches!(read::<Decimal>(t).unwrap_err(), Fault::Corporate(_, Problem::Value(_))),
            "{t:?} is not a decimal"
        );
    }
    assert!(Decimal::new("1e3".to_owned()).is_none());
}

#[test]
fn decimals_sit_in_containers() {
    let v: Vec<Decimal> = read("[ 2.75 -0.5 ]").unwrap();
    assert_eq!(v.len(), 2);
    assert_eq!(v.textualize(), "[ 2.75 -0.5 ]");
    let o: Option<Decimal> = read("Some.2.75").unwrap();
    assert_eq!(o.textualize(), "Some.2.75");
    let mut budget = IncorporationBudget::new(0).unwrap();
    let (datom, at) = read_datom("2.75").unwrap();
    assert!(<Decimal as Datomic>::incorporate(&datom, &at, &mut budget).is_ok());
}

#[test]
fn a_decimal_is_held_and_written_as_its_canonical_word() {
    for (word, canonical) in [("1.50", "1.5"), ("3.000", "3.0"), ("-0.50", "-0.5"), ("100.0", "100.0")] {
        assert_eq!(Decimal::new(word.to_owned()).unwrap().as_str(), canonical);
        let v = read::<Decimal>(word).unwrap();
        assert_eq!(v.as_str(), canonical);
        assert_eq!(v.textualize(), canonical);
    }
    assert_eq!(
        read::<Decimal>("1.50").unwrap(),
        read::<Decimal>("1.5").unwrap(),
        "1.50 and 1.5 are one decimal"
    );
}
