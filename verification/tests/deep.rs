use datom_codec::Datom;

const DEPTH: usize = 20_000;

fn deep() -> Datom {
    let mut datom = Datom::Word("leaf".to_owned());
    for _ in 0..DEPTH {
        datom = Datom::Variant("Node".to_owned(), Box::new(datom));
    }
    datom
}

/// Takes a chain of variants apart one level at a time, so that dropping it
/// does not recurse through every level.
fn dismantle(mut datom: Datom) {
    loop {
        match datom {
            Datom::Variant(_, body) => datom = *body,
            _ => break,
        }
    }
}

#[test]
fn recursive_datom_traits_are_iterative() {
    let datom = deep();
    let copied = datom.clone();
    assert!(datom == copied);
    let mut other = Datom::Word("other".to_owned());
    for _ in 0..DEPTH {
        other = Datom::Variant("Node".to_owned(), Box::new(other));
    }
    assert!(datom != other);
    dismantle(other);
    dismantle(copied);
    dismantle(datom);
}
