use datom_codec::{Datomic, IncorporationBudget, Potential};

fn round_trip<T: Datomic + PartialEq + std::fmt::Debug>(text: &str, value: T) {
    let potential = Potential::<T>::from(text);
    let read: T = potential
        .actualize(IncorporationBudget::new(128).unwrap())
        .unwrap();
    assert_eq!(read, value);
    assert_eq!(value.textualize(), text);
}

#[test]
fn integer_vector() {
    round_trip("[ 0 42 -42 ]", vec![0i64, 42, -42]);
}

#[test]
fn the_potential_is_the_text() {
    let potential = Potential::<i64>::from("42");
    assert_eq!(potential.text(), "42");
}
