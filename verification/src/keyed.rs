//! Keyed maps: values under distinct keys, kept in the order of their keys,
//! written between guillemets as entries, each key heading its value in
//! brackets: `«mode.[fast] source.[local]»`.

use vstd::prelude::*;

use crate::anatomy::{
    Expected, datoms_view, lemma_datoms_push, lemma_datoms_view, Datom, Fault, IncorporationBudget, Problem,
    SpecDatom, SpecFault, SpecProblem,
};
use crate::conception::{count_of, counted, part, part_at};
use crate::containers::{concepts, costs, lemma_carried, lemma_concepts};
use crate::form::{Situation, SpecSituation};
use crate::glyph::{chars_of, is_plain, plain};
use crate::kinds::{
    bodied, carried, carry, found_of, refusal, refuse_at, variant_of, Datomic, Site,
};
use crate::protosization::{all_settled, carriable, lemma_all_settled, settled};
use crate::rereading::plain_symbol;
use crate::anatomy::within;

verus! {

/// The order of keys: glyph by glyph, by code point, a prefix first.
pub open spec fn precedes(a: Seq<char>, b: Seq<char>) -> bool
    decreases a.len(),
{
    if a.len() == 0 {
        b.len() > 0
    } else if b.len() == 0 {
        false
    } else if a[0] != b[0] {
        (a[0] as int) < (b[0] as int)
    } else {
        precedes(a.drop_first(), b.drop_first())
    }
}

/// Keys are ordered lexicographically: where two keys first differ, the one
/// with the smaller code point there comes first, whatever their lengths; and
/// a key comes before every longer key that begins with it.
pub proof fn lemma_precedes_lexicographic(a: Seq<char>, b: Seq<char>, k: int)
    requires
        0 <= k <= a.len(),
        k <= b.len(),
        a.subrange(0, k) == b.subrange(0, k),
    ensures
        k < a.len() && k < b.len() && (a[k] as int) < (b[k] as int) ==> precedes(a, b),
        k == a.len() && a.len() < b.len() ==> precedes(a, b),
    decreases k,
{
    if k > 0 {
        assert(a[0] == a.subrange(0, k)[0]);
        assert(b[0] == b.subrange(0, k)[0]);
        assert(a.drop_first().subrange(0, k - 1) =~= b.drop_first().subrange(0, k - 1)) by {
            assert forall|i: int| 0 <= i < k - 1 implies a.drop_first()[i] == b.drop_first()[i] by {
                assert(a.subrange(0, k)[i + 1] == b.subrange(0, k)[i + 1]);
                assert(a.subrange(0, k)[i + 1] == a[i + 1]);
                assert(b.subrange(0, k)[i + 1] == b[i + 1]);
            }
        }
        lemma_precedes_lexicographic(a.drop_first(), b.drop_first(), k - 1);
    }
}

/// A key whose first glyph has the smaller code point comes first, whatever
/// the lengths of the two keys.
pub proof fn lemma_precedes_by_first_glyph(a: Seq<char>, b: Seq<char>)
    requires
        a.len() > 0,
        b.len() > 0,
        (a[0] as int) < (b[0] as int),
    ensures
        precedes(a, b),
        !precedes(b, a),
{
    assert(a.subrange(0, 0) =~= b.subrange(0, 0));
    lemma_precedes_lexicographic(a, b, 0);
    lemma_precedes_total(a, b);
}

/// A key comes before every longer key that begins with it.
pub proof fn lemma_prefix_precedes(a: Seq<char>, b: Seq<char>)
    requires
        a.len() < b.len(),
        b.subrange(0, a.len() as int) == a,
    ensures
        precedes(a, b),
        !precedes(b, a),
{
    assert(a.subrange(0, a.len() as int) =~= a);
    lemma_precedes_lexicographic(a, b, a.len() as int);
    lemma_precedes_total(a, b);
}

/// No key precedes itself, and of two distinct keys exactly one precedes the other.
pub proof fn lemma_precedes_total(a: Seq<char>, b: Seq<char>)
    ensures
        !precedes(a, a),
        a != b ==> (precedes(a, b) || precedes(b, a)),
        !(precedes(a, b) && precedes(b, a)),
    decreases a.len(),
{
    if a.len() > 0 {
        lemma_precedes_total(a.drop_first(), a.drop_first());
        if b.len() > 0 {
            lemma_precedes_total(a.drop_first(), b.drop_first());
            if a[0] == b[0] && a != b {
                assert(a =~= seq![a[0]] + a.drop_first());
                assert(b =~= seq![b[0]] + b.drop_first());
            }
            if a[0] != b[0] {
                assert((a[0] as int) != (b[0] as int));
            }
        }
    } else if b.len() == 0 {
        assert(a =~= b);
    }
}

/// The order of keys is transitive.
pub proof fn lemma_precedes_transitive(a: Seq<char>, b: Seq<char>, c: Seq<char>)
    requires
        precedes(a, b),
        precedes(b, c),
    ensures
        precedes(a, c),
    decreases a.len(),
{
    if a.len() > 0 && b.len() > 0 && c.len() > 0 {
        if a[0] == b[0] && b[0] == c[0] {
            lemma_precedes_transitive(a.drop_first(), b.drop_first(), c.drop_first());
        }
    }
}

/// Entries whose keys are in strictly ascending order.
pub open spec fn ascending<M>(m: Seq<(Seq<char>, M)>) -> bool {
    forall|i: int, j: int| 0 <= i < j < m.len() ==> precedes(#[trigger] m[i].0, #[trigger] m[j].0)
}

/// Entries in ascending key order, each key a symbol that can head its value.
pub open spec fn keyed<M>(m: Seq<(Seq<char>, M)>) -> bool {
    &&& ascending(m)
    &&& forall|i: int| 0 <= i < m.len() ==> plain_symbol(#[trigger] m[i].0)
}

/// Whether some entry has the key.
pub open spec fn has_key<M>(m: Seq<(Seq<char>, M)>, k: Seq<char>) -> bool {
    exists|i: int| 0 <= i < m.len() && #[trigger] m[i].0 == k
}

/// The entries with a value put under a key: replacing the value under an
/// equal key, or inserted before the first greater key.
pub open spec fn inserted<M>(m: Seq<(Seq<char>, M)>, k: Seq<char>, v: M) -> Seq<(Seq<char>, M)>
    decreases m.len(),
{
    if m.len() == 0 {
        seq![(k, v)]
    } else if m[0].0 == k {
        seq![(k, v)] + m.drop_first()
    } else if precedes(k, m[0].0) {
        seq![(k, v)] + m
    } else {
        seq![m[0]] + inserted(m.drop_first(), k, v)
    }
}

/// The value under a key, if any.
pub open spec fn value_at<M>(m: Seq<(Seq<char>, M)>, k: Seq<char>) -> Option<M>
    decreases m.len(),
{
    if m.len() == 0 {
        None
    } else if m[0].0 == k {
        Some(m[0].1)
    } else {
        value_at(m.drop_first(), k)
    }
}

/// What is read under a key after a value is put under it: that value under
/// the key, and under every other key what was there before.
pub proof fn lemma_value_after_insert<M>(m: Seq<(Seq<char>, M)>, k: Seq<char>, v: M, other: Seq<char>)
    ensures
        value_at(inserted(m, k, v), k) == Some(v),
        other != k ==> value_at(inserted(m, k, v), other) == value_at(m, other),
    decreases m.len(),
{
    let n = inserted(m, k, v);
    if m.len() == 0 {
        assert(n[0] == (k, v));
        assert(n.drop_first() =~= Seq::<(Seq<char>, M)>::empty());
        if other != k {
            assert(value_at(n, other) == value_at(n.drop_first(), other));
        }
    } else if m[0].0 == k {
        assert(n[0] == (k, v));
        assert(n.drop_first() =~= m.drop_first());
        if other != k {
            assert(value_at(n, other) == value_at(n.drop_first(), other));
            assert(value_at(m, other) == value_at(m.drop_first(), other));
        }
    } else if precedes(k, m[0].0) {
        assert(n[0] == (k, v));
        assert(n.drop_first() =~= m);
        if other != k {
            assert(value_at(n, other) == value_at(n.drop_first(), other));
        }
    } else {
        lemma_value_after_insert(m.drop_first(), k, v, other);
        assert(n[0] == m[0]);
        assert(n.drop_first() =~= inserted(m.drop_first(), k, v));
        if other != k && m[0].0 != other {
            assert(value_at(n, other) == value_at(n.drop_first(), other));
            assert(value_at(m, other) == value_at(m.drop_first(), other));
        }
    }
}

/// Putting a value under a key keeps the entries keyed.
proof fn lemma_inserted_keyed<M>(m: Seq<(Seq<char>, M)>, k: Seq<char>, v: M)
    requires
        keyed(m),
        plain_symbol(k),
    ensures
        keyed(inserted(m, k, v)),
        forall|i: int| 0 <= i < inserted(m, k, v).len() ==> (#[trigger] inserted(m, k, v)[i].0 == k
            || has_key(m, inserted(m, k, v)[i].0)),
    decreases m.len(),
{
    let r = inserted(m, k, v);
    if m.len() == 0 {
    } else if m[0].0 == k {
        assert forall|i: int, j: int| 0 <= i < j < r.len() implies precedes(
            #[trigger] r[i].0,
            #[trigger] r[j].0,
        ) by {
            assert(m[i].0 == r[i].0);
            assert(m[j].0 == r[j].0);
        }
        assert forall|i: int| 0 <= i < r.len() implies (#[trigger] r[i].0 == k || has_key(m, r[i].0)) by {
            if i > 0 {
                assert(r[i].0 == m[i].0);
            }
        }
    } else if precedes(k, m[0].0) {
        assert forall|i: int, j: int| 0 <= i < j < r.len() implies precedes(
            #[trigger] r[i].0,
            #[trigger] r[j].0,
        ) by {
            if i == 0 {
                if j > 1 {
                    lemma_precedes_transitive(k, m[0].0, m[j - 1].0);
                }
            } else {
                assert(r[i].0 == m[i - 1].0);
                assert(r[j].0 == m[j - 1].0);
            }
        }
        assert forall|i: int| 0 <= i < r.len() implies (#[trigger] r[i].0 == k || has_key(m, r[i].0)) by {
            if i > 0 {
                assert(r[i].0 == m[i - 1].0);
            }
        }
    } else {
        let rest = m.drop_first();
        assert(keyed(rest)) by {
            assert forall|i: int, j: int| 0 <= i < j < rest.len() implies precedes(
                #[trigger] rest[i].0,
                #[trigger] rest[j].0,
            ) by {
                assert(rest[i] == m[i + 1]);
                assert(rest[j] == m[j + 1]);
            }
            assert forall|i: int| 0 <= i < rest.len() implies plain_symbol(#[trigger] rest[i].0) by {
                assert(rest[i] == m[i + 1]);
            }
        }
        lemma_inserted_keyed(rest, k, v);
        let tail = inserted(rest, k, v);
        lemma_precedes_total(k, m[0].0);
        assert(precedes(m[0].0, k));
        assert forall|i: int| 0 <= i < tail.len() implies precedes(m[0].0, #[trigger] tail[i].0) by {
            if tail[i].0 != k {
                assert(has_key(rest, tail[i].0));
                let j = choose|j: int| 0 <= j < rest.len() && #[trigger] rest[j].0 == tail[i].0;
                assert(rest[j] == m[j + 1]);
            }
        }
        assert forall|i: int, j: int| 0 <= i < j < r.len() implies precedes(
            #[trigger] r[i].0,
            #[trigger] r[j].0,
        ) by {
            if i == 0 {
                assert(r[j].0 == tail[j - 1].0);
            } else {
                assert(r[i].0 == tail[i - 1].0);
                assert(r[j].0 == tail[j - 1].0);
            }
        }
        assert forall|i: int| 0 <= i < r.len() implies (#[trigger] r[i].0 == k || has_key(m, r[i].0)) by {
            if i > 0 {
                assert(r[i].0 == tail[i - 1].0);
                if tail[i - 1].0 != k {
                    let j = choose|j: int| 0 <= j < rest.len() && #[trigger] rest[j].0 == tail[i - 1].0;
                    assert(rest[j] == m[j + 1]);
                }
            } else {
                assert(m[0].0 == r[0].0);
            }
        }
    }
}

/// A value under a key greater than every key goes last.
proof fn lemma_inserted_last<M>(m: Seq<(Seq<char>, M)>, k: Seq<char>, v: M)
    requires
        forall|i: int| 0 <= i < m.len() ==> precedes(#[trigger] m[i].0, k),
    ensures
        inserted(m, k, v) == m.push((k, v)),
    decreases m.len(),
{
    if m.len() > 0 {
        lemma_precedes_total(m[0].0, k);
        let rest = m.drop_first();
        assert forall|i: int| 0 <= i < rest.len() implies precedes(#[trigger] rest[i].0, k) by {
            assert(rest[i] == m[i + 1]);
        }
        lemma_inserted_last(rest, k, v);
        assert(seq![m[0]] + rest.push((k, v)) =~= m.push((k, v)));
    } else {
        assert(seq![(k, v)] =~= m.push((k, v)));
    }
}

/// The entries put before position `p` stay in front.
proof fn lemma_inserted_at<M>(m: Seq<(Seq<char>, M)>, k: Seq<char>, v: M, p: int)
    requires
        0 <= p <= m.len(),
        forall|i: int| 0 <= i < p ==> m[i].0 != k && !precedes(k, #[trigger] m[i].0),
    ensures
        inserted(m, k, v) == m.subrange(0, p) + inserted(m.subrange(p, m.len() as int), k, v),
    decreases p,
{
    if p > 0 {
        let rest = m.drop_first();
        assert forall|i: int| 0 <= i < p - 1 implies rest[i].0 != k && !precedes(
            k,
            #[trigger] rest[i].0,
        ) by {
            assert(rest[i] == m[i + 1]);
        }
        lemma_inserted_at(rest, k, v, p - 1);
        assert(rest.subrange(p - 1, rest.len() as int) =~= m.subrange(p, m.len() as int));
        assert(seq![m[0]] + rest.subrange(0, p - 1) =~= m.subrange(0, p));
        assert(inserted(m, k, v) == seq![m[0]] + inserted(rest, k, v));
        assert(seq![m[0]] + (rest.subrange(0, p - 1) + inserted(m.subrange(p, m.len() as int), k, v))
            =~= m.subrange(0, p) + inserted(m.subrange(p, m.len() as int), k, v));
    } else {
        assert(m.subrange(0, 0) + inserted(m.subrange(0, m.len() as int), k, v) =~= inserted(m, k, v)) by {
            assert(m.subrange(0, m.len() as int) =~= m);
        }
    }
}

/// Whether a key precedes another, glyph by glyph.
pub fn key_precedes(a: &String, b: &String) -> (r: bool)
    ensures
        r == precedes(a@, b@),
{
    let x = chars_of(a.as_str());
    let y = chars_of(b.as_str());
    let mut k: usize = 0;
    assert(x@.subrange(0, x.len() as int) =~= x@);
    assert(y@.subrange(0, y.len() as int) =~= y@);
    while k < x.len() && k < y.len() && x[k] == y[k]
        invariant
            0 <= k <= x.len(),
            k <= y.len(),
            x@ == a@,
            y@ == b@,
            precedes(a@, b@) == precedes(x@.subrange(k as int, x.len() as int), y@.subrange(
                k as int,
                y.len() as int,
            )),
        decreases x.len() - k,
    {
        proof {
            let xs = x@.subrange(k as int, x.len() as int);
            let ys = y@.subrange(k as int, y.len() as int);
            assert(xs.drop_first() =~= x@.subrange(k + 1, x.len() as int));
            assert(ys.drop_first() =~= y@.subrange(k + 1, y.len() as int));
        }
        k = k + 1;
    }
    proof {
        assert(x@.subrange(0, x.len() as int) =~= x@);
        assert(y@.subrange(0, y.len() as int) =~= y@);
    }
    if k == x.len() {
        k < y.len()
    } else if k == y.len() {
        false
    } else {
        x[k] < y[k]
    }
}

/// Whether a text is a symbol that can head a value.
pub fn is_key(k: &String) -> (r: bool)
    ensures
        r == plain_symbol(k@),
{
    let cs = chars_of(k.as_str());
    if cs.len() == 0 {
        return false;
    }
    let mut i: usize = 0;
    while i < cs.len()
        invariant
            0 <= i <= cs.len(),
            cs@ == k@,
            forall|j: int| 0 <= j < i ==> is_plain(#[trigger] cs@[j]),
        decreases cs.len() - i,
    {
        if !plain(cs[i]) {
            return false;
        }
        i = i + 1;
    }
    true
}

/// Values under distinct keys, in the order of their keys.
#[derive(Debug, PartialEq, Eq)]
pub struct Keyed<T: Datomic> {
    entries: Vec<(String, T)>,
}

/// The model of keyed entries: each key's glyphs with the model of its value.
pub open spec fn entries_model<T: Datomic>(es: Seq<(String, T)>) -> Seq<(Seq<char>, T::Model)> {
    es.map_values(|e: (String, T)| (e.0@, e.1.model()))
}

impl<T: Datomic> Keyed<T> {
    #[verifier::type_invariant]
    closed spec fn well_keyed(&self) -> bool {
        keyed(entries_model(self.entries@))
    }

    /// The model of the map: its entries in key order.
    pub closed spec fn entries_view(&self) -> Seq<(Seq<char>, T::Model)> {
        entries_model(self.entries@)
    }

    /// An empty map.
    pub fn new() -> (m: Keyed<T>)
        ensures
            m.entries_view() == Seq::<(Seq<char>, T::Model)>::empty(),
    {
        let m = Keyed { entries: Vec::new() };
        assert(entries_model(m.entries@) =~= Seq::<(Seq<char>, T::Model)>::empty());
        m
    }

    /// The number of entries.
    pub fn len(&self) -> (n: usize)
        ensures
            n == self.entries_view().len(),
    {
        self.entries.len()
    }

    /// The entries, in key order.
    pub fn entries(&self) -> (es: &Vec<(String, T)>)
        ensures
            entries_model(es@) == self.entries_view(),
            keyed(self.entries_view()),
    {
        proof {
            use_type_invariant(self);
        }
        &self.entries
    }

    /// The value under a key, if any.
    pub fn get(&self, key: &String) -> (r: Option<&T>)
        ensures
            match r {
                Some(v) => value_at(self.entries_view(), key@) == Some(v.model()),
                None => value_at(self.entries_view(), key@) is None,
            },
    {
        let ghost m = self.entries_view();
        let mut i: usize = 0;
        assert(m.subrange(0, m.len() as int) =~= m);
        while i < self.entries.len()
            invariant
                0 <= i <= self.entries.len(),
                m == entries_model(self.entries@),
                m.len() == self.entries.len(),
                value_at(m, key@) == value_at(m.subrange(i as int, m.len() as int), key@),
            decreases self.entries.len() - i,
        {
            let ghost rest = m.subrange(i as int, m.len() as int);
            assert(rest.drop_first() =~= m.subrange(i + 1, m.len() as int));
            assert(rest[0] == m[i as int]);
            if self.entries[i].0 == *key {
                return Some(&self.entries[i].1);
            }
            i = i + 1;
        }
        None
    }

    /// Puts a value under a key: `Ok` with the value it replaces, if any; the
    /// value back in `Err`, the map unchanged, when the key is not a symbol that
    /// can head a value.
    pub fn insert(&mut self, key: String, value: T) -> (r: Result<Option<T>, T>)
        ensures
            plain_symbol(key@) ==> final(self).entries_view() == inserted(
                old(self).entries_view(),
                key@,
                value.model(),
            ),
            plain_symbol(key@) ==> match r {
                Ok(Some(previous)) => value_at(old(self).entries_view(), key@) == Some(
                    previous.model(),
                ),
                Ok(None) => value_at(old(self).entries_view(), key@) is None,
                Err(_) => false,
            },
            !plain_symbol(key@) ==> final(self).entries_view() == old(self).entries_view() && r
                == Err::<Option<T>, T>(value),
    {
        proof {
            use_type_invariant(&*self);
        }
        if !is_key(&key) {
            return Err(value);
        }
        let ghost m = self.entries_view();
        let ghost vm = value.model();
        let mut p: usize = 0;
        while p < self.entries.len() && self.entries[p].0 != key && !key_precedes(
            &key,
            &self.entries[p].0,
        )
            invariant
                0 <= p <= self.entries.len(),
                m == entries_model(self.entries@),
                m.len() == self.entries.len(),
                keyed(m),
                forall|i: int| 0 <= i < p ==> m[i].0 != key@ && !precedes(key@, #[trigger] m[i].0),
            decreases self.entries.len() - p,
        {
            p = p + 1;
        }
        proof {
            lemma_inserted_at(m, key@, vm, p as int);
            lemma_value_at_from(m, key@, p as int);
            lemma_inserted_keyed(m, key@, vm);
        }
        if p < self.entries.len() && self.entries[p].0 == key {
            let ghost tail = m.subrange(p as int, m.len() as int);
            assert(tail[0] == m[p as int]);
            let mut es: Vec<(String, T)> = Vec::new();
            std::mem::swap(&mut es, &mut self.entries);
            let (_, previous) = es.remove(p);
            es.insert(p, (key, value));
            proof {
                assert(entries_model(es@) =~= m.subrange(0, p as int) + inserted(tail, key@, vm)) by {
                    assert(tail.drop_first() =~= m.subrange(p + 1, m.len() as int));
                }
            }
            self.entries = es;
            Ok(Some(previous))
        } else {
            let ghost tail = m.subrange(p as int, m.len() as int);
            let mut es: Vec<(String, T)> = Vec::new();
            std::mem::swap(&mut es, &mut self.entries);
            es.insert(p, (key, value));
            proof {
                if p < m.len() {
                    assert(tail[0] == m[p as int]);
                }
                assert(entries_model(es@) =~= m.subrange(0, p as int) + inserted(tail, key@, vm));
                if p == m.len() {
                    assert(value_at(tail, key@) is None);
                } else {
                    lemma_value_at_after(m, key@, p as int);
                }
            }
            self.entries = es;
            Ok(None)
        }
    }
}

/// The value under a key is found at or after the first position whose key
/// is not before it.
proof fn lemma_value_at_from<M>(m: Seq<(Seq<char>, M)>, k: Seq<char>, p: int)
    requires
        0 <= p <= m.len(),
        forall|i: int| 0 <= i < p ==> #[trigger] m[i].0 != k,
    ensures
        value_at(m, k) == value_at(m.subrange(p, m.len() as int), k),
    decreases p,
{
    if p > 0 {
        let rest = m.drop_first();
        assert forall|i: int| 0 <= i < p - 1 implies #[trigger] rest[i].0 != k by {
            assert(rest[i] == m[i + 1]);
        }
        lemma_value_at_from(rest, k, p - 1);
        assert(rest.subrange(p - 1, rest.len() as int) =~= m.subrange(p, m.len() as int));
    } else {
        assert(m.subrange(0, m.len() as int) =~= m);
    }
}

/// No value is under a key that precedes every remaining key.
proof fn lemma_value_at_after<M>(m: Seq<(Seq<char>, M)>, k: Seq<char>, p: int)
    requires
        keyed(m),
        0 <= p < m.len(),
        precedes(k, m[p].0),
    ensures
        value_at(m.subrange(p, m.len() as int), k) is None,
    decreases m.len() - p,
{
    let tail = m.subrange(p, m.len() as int);
    lemma_precedes_total(k, m[p].0);
    assert(tail[0] == m[p]);
    assert(tail.drop_first() =~= m.subrange(p + 1, m.len() as int));
    if p + 1 < m.len() {
        lemma_precedes_transitive(k, m[p].0, m[p + 1].0);
        lemma_value_at_after(m, k, p + 1);
    } else {
        assert(tail.drop_first().len() == 0);
    }
}

/// A key has a value exactly when some entry has the key.
proof fn lemma_value_at_has_key<M>(m: Seq<(Seq<char>, M)>, k: Seq<char>)
    ensures
        value_at(m, k) is Some <==> has_key(m, k),
    decreases m.len(),
{
    if m.len() > 0 {
        let rest = m.drop_first();
        lemma_value_at_has_key(rest, k);
        if has_key(rest, k) {
            let j = choose|j: int| 0 <= j < rest.len() && #[trigger] rest[j].0 == k;
            assert(m[j + 1].0 == k);
        }
        if has_key(m, k) && m[0].0 != k {
            let j = choose|j: int| 0 <= j < m.len() && #[trigger] m[j].0 == k;
            assert(rest[j - 1].0 == k);
        }
    }
}

/// The datom of a keyed entry: the key heading its value in brackets.
pub open spec fn entry_concept<T: Datomic>(k: Seq<char>, v: T::Model) -> SpecDatom {
    SpecDatom::Variant(k, Box::new(<Vec<T> as Datomic>::concept(seq![v])))
}

/// The datoms of keyed entries, in order.
pub open spec fn keyed_concepts<T: Datomic>(m: Seq<(Seq<char>, T::Model)>) -> Seq<SpecDatom>
    decreases m.len(),
{
    if m.len() == 0 {
        Seq::empty()
    } else {
        seq![entry_concept::<T>(m[0].0, m[0].1)] + keyed_concepts::<T>(m.drop_first())
    }
}

/// The units that reading keyed entries spends: for each, one for its
/// brackets and what reading them as a vector of one value spends.
pub open spec fn keyed_costs<T: Datomic>(m: Seq<(Seq<char>, T::Model)>) -> nat
    decreases m.len(),
{
    if m.len() == 0 {
        0
    } else {
        1 + <Vec<T> as Datomic>::cost(seq![m[0].1]) + keyed_costs::<T>(m.drop_first())
    }
}

/// The entries of a map.
pub open spec fn entries_of(d: SpecDatom, at: SpecSituation) -> Result<Seq<SpecDatom>, SpecFault> {
    match d {
        SpecDatom::Mapping(ds) => Ok(ds),
        _ => Err(refusal(at, SpecProblem::Shape(Expected::Mapping, found_of(d)))),
    }
}

/// Reading the entries of a keyed map from the `k`-th on, after the entries
/// read so far: each a plain key not read before, heading a bracketed body
/// that holds exactly one value.
pub open spec fn keyed_reading<T: Datomic>(
    ds: Seq<SpecDatom>,
    at: SpecSituation,
    k: int,
    acc: Seq<(Seq<char>, T::Model)>,
    budget: nat,
) -> (Result<Seq<(Seq<char>, T::Model)>, SpecFault>, nat)
    decreases ds.len() - k,
{
    if k < 0 || k >= ds.len() {
        (Ok(acc), budget)
    } else {
        let here = part(at, k);
        match variant_of(ds[k], here) {
            Err(e) => (Err(within(e, k)), budget),
            Ok((name, body)) => if !plain_symbol(name) {
                (Err(within(refusal(here, SpecProblem::Value(name)), k)), budget)
            } else if has_key(acc, name) {
                (Err(within(refusal(here, SpecProblem::DuplicateKey(name)), k)), budget)
            } else {
                let (r, left) = bodied::<Vec<T>>(body, here, budget);
                match r {
                    Err(e) => (Err(within(e, k)), left),
                    Ok(vs) => if vs.len() != 1 {
                        (
                            Err(
                                within(
                                    within(
                                        refusal(
                                            part(here, 1),
                                            SpecProblem::Arity(1, counted(vs.len() as int) as i64),
                                        ),
                                        1,
                                    ),
                                    k,
                                ),
                            ),
                            left,
                        )
                    } else {
                        keyed_reading::<T>(ds, at, k + 1, inserted(acc, name, vs[0]), left)
                    },
                }
            },
        }
    }
}

/// The datoms of keyed entries have one entry for each.
proof fn lemma_keyed_concepts<T: Datomic>(m: Seq<(Seq<char>, T::Model)>)
    ensures
        keyed_concepts::<T>(m).len() == m.len(),
        forall|i: int| 0 <= i < m.len() ==> #[trigger] keyed_concepts::<T>(m)[i] == entry_concept::<T>(
            m[i].0,
            m[i].1,
        ),
    decreases m.len(),
{
    if m.len() > 0 {
        lemma_keyed_concepts::<T>(m.drop_first());
        assert forall|i: int| 0 <= i < m.len() implies #[trigger] keyed_concepts::<T>(m)[i]
            == entry_concept::<T>(m[i].0, m[i].1) by {
            if i > 0 {
                assert(keyed_concepts::<T>(m)[i] == keyed_concepts::<T>(m.drop_first())[i - 1]);
            }
        }
    }
}

/// Reading the datoms of keyed entries gives them back, spending their costs.
proof fn lemma_keyed_read_back<T: Datomic>(
    m: Seq<(Seq<char>, T::Model)>,
    at: SpecSituation,
    k: int,
    budget: nat,
)
    requires
        keyed(m),
        forall|i: int| 0 <= i < m.len() ==> T::sound(#[trigger] m[i].1),
        0 <= k <= m.len(),
        budget >= keyed_costs::<T>(m.subrange(k, m.len() as int)),
    ensures
        keyed_reading::<T>(keyed_concepts::<T>(m), at, k, m.subrange(0, k), budget) == (
            Ok::<Seq<(Seq<char>, T::Model)>, SpecFault>(m),
            (budget - keyed_costs::<T>(m.subrange(k, m.len() as int))) as nat,
        ),
    decreases m.len() - k,
{
    lemma_keyed_concepts::<T>(m);
    let tail = m.subrange(k, m.len() as int);
    if k < m.len() {
        let here = part(at, k);
        let key = m[k].0;
        let v = m[k].1;
        let prefix = m.subrange(0, k);
        assert(tail.drop_first() =~= m.subrange(k + 1, m.len() as int));
        assert(tail[0] == m[k]);
        assert(!has_key(prefix, key)) by {
            if has_key(prefix, key) {
                let j = choose|j: int| 0 <= j < prefix.len() && #[trigger] prefix[j].0 == key;
                assert(prefix[j] == m[j]);
                lemma_precedes_total(key, key);
            }
        }
        let one = seq![v];
        assert(<Vec<T> as Datomic>::sound(one)) by {
            assert forall|i: int| 0 <= i < one.len() implies T::sound(#[trigger] one[i]) by {
                assert(one[i] == m[k].1);
            }
        }
        <Vec<T> as Datomic>::lemma_reads_back(one, part(here, 1), (budget - 1) as nat);
        assert forall|i: int| 0 <= i < prefix.len() implies precedes(#[trigger] prefix[i].0, key) by {
            assert(prefix[i] == m[i]);
        }
        lemma_inserted_last(prefix, key, v);
        assert(prefix.push((key, v)) =~= m.subrange(0, k + 1));
        lemma_keyed_read_back::<T>(
            m,
            at,
            k + 1,
            (budget - 1 - <Vec<T> as Datomic>::cost(one)) as nat,
        );
    } else {
        assert(m.subrange(0, k) =~= m);
        assert(tail =~= Seq::<(Seq<char>, T::Model)>::empty());
    }
}

/// The datoms of keyed entries are settled.
proof fn lemma_keyed_settled<T: Datomic>(m: Seq<(Seq<char>, T::Model)>)
    requires
        keyed(m),
        forall|i: int| 0 <= i < m.len() ==> T::sound(#[trigger] m[i].1),
    ensures
        all_settled(keyed_concepts::<T>(m)),
{
    lemma_keyed_concepts::<T>(m);
    lemma_all_settled(keyed_concepts::<T>(m));
    assert forall|i: int| 0 <= i < keyed_concepts::<T>(m).len() implies #[trigger] settled(
        keyed_concepts::<T>(m)[i],
    ) by {
        let nowhere = SpecSituation { extent: (0, 0), children: Seq::empty() };
        let one = seq![m[i].1];
        assert(<Vec<T> as Datomic>::sound(one)) by {
            assert forall|j: int| 0 <= j < one.len() implies T::sound(#[trigger] one[j]) by {
                assert(one[j] == m[i].1);
            }
        }
        <Vec<T> as Datomic>::lemma_reads_back(one, nowhere, <Vec<T> as Datomic>::cost(one));
    }
}

impl<T: Datomic> Datomic for Keyed<T> {
    type Model = Seq<(Seq<char>, T::Model)>;

    open spec fn model(&self) -> Seq<(Seq<char>, T::Model)> {
        self.entries_view()
    }

    open spec fn concept(m: Seq<(Seq<char>, T::Model)>) -> SpecDatom {
        SpecDatom::Mapping(keyed_concepts::<T>(m))
    }

    open spec fn reading(d: SpecDatom, at: SpecSituation, budget: nat) -> (
        Result<Seq<(Seq<char>, T::Model)>, SpecFault>,
        nat,
    ) {
        match entries_of(d, at) {
            Err(e) => (Err(e), budget),
            Ok(ds) => keyed_reading::<T>(ds, at, 0, Seq::empty(), budget),
        }
    }

    open spec fn cost(m: Seq<(Seq<char>, T::Model)>) -> nat {
        keyed_costs::<T>(m)
    }

    open spec fn sound(m: Seq<(Seq<char>, T::Model)>) -> bool {
        keyed(m) && forall|i: int| 0 <= i < m.len() ==> T::sound(#[trigger] m[i].1)
    }

    fn incorporate(datom: &Datom, at: &Situation, budget: &mut IncorporationBudget) -> (r: Result<
        Keyed<T>,
        Fault,
    >) {
        let ds = match datom {
            Datom::Mapping(ds) => ds,
            _ => {
                let found = crate::kinds::found(datom);
                return Err(refuse_at(at, Problem::Shape(Expected::Mapping, found)));
            },
        };
        let ghost dv = datoms_view(ds@);
        let ghost start = *budget;
        proof {
            lemma_datoms_view(ds@);
        }
        let mut map: Keyed<T> = Keyed::new();
        let mut k: usize = 0;
        while k < ds.len()
            invariant
                0 <= k <= ds.len(),
                dv == datoms_view(ds@),
                dv.len() == ds.len(),
                forall|j: int| 0 <= j < ds.len() ==> #[trigger] dv[j] == ds@[j]@,
                datom@ == SpecDatom::Mapping(dv),
                start@ == old(budget)@,
                keyed_reading::<T>(dv, at@, 0, Seq::empty(), start@) == keyed_reading::<T>(
                    dv,
                    at@,
                    k as int,
                    map.entries_view(),
                    budget@,
                ),
            decreases ds.len() - k,
        {
            proof {
                use_type_invariant(&map);
            }
            let here = part_at(at, k);
            let v = match Site::new(&ds[k], here).variant() {
                Ok(v) => v,
                Err(e) => {
                    return Err(e.within(k as i64));
                },
            };
            let name = v.name();
            if !is_key(name) {
                return Err(refuse_at(here, Problem::Value(name.clone())).within(k as i64));
            }
            proof {
                lemma_value_at_has_key(map.entries_view(), name@);
            }
            if map.get(name).is_some() {
                proof {
                    assert forall|j: int| 0 <= j < name@.len() implies crate::glyph::is_wordy(
                        #[trigger] name@[j],
                    ) by {
                        assert(crate::glyph::is_plain(name@[j]));
                    }
                }
                let problem = match crate::anatomy::Word::new(name.clone()) {
                    Some(w) => Problem::DuplicateKey(w),
                    None => Problem::Value(name.clone()),
                };
                return Err(refuse_at(here, problem).within(k as i64));
            }
            let key = name.clone();
            match v.body::<Vec<T>>(budget) {
                Err(e) => {
                    return Err(e.within(k as i64));
                },
                Ok(mut values) => {
                    if values.len() != 1 {
                        let n = count_of(values.len());
                        let inner = part_at(here, 1);
                        return Err(
                            refuse_at(inner, Problem::Arity(1, n)).within(1).within(k as i64),
                        );
                    }
                    let value = values.pop().unwrap();
                    proof {
                        assert(crate::containers::models::<T>(values@.push(value)) =~= seq![
                            value.model(),
                        ]);
                    }
                    let _ = map.insert(key, value);
                },
            }
            k = k + 1;
        }
        Ok(map)
    }

    fn conceive(&self) -> (d: Datom) {
        let entries = self.entries();
        let ghost m = self.entries_view();
        let mut ds: Vec<Datom> = Vec::new();
        let mut k: usize = 0;
        proof {
            lemma_keyed_concepts::<T>(m);
            lemma_datoms_view(ds@);
        }
        while k < entries.len()
            invariant
                0 <= k <= entries.len(),
                m == entries_model(entries@),
                m.len() == entries.len(),
                keyed_concepts::<T>(m).len() == m.len(),
                forall|i: int| 0 <= i < m.len() ==> #[trigger] keyed_concepts::<T>(m)[i]
                    == entry_concept::<T>(m[i].0, m[i].1),
                datoms_view(ds@) =~= keyed_concepts::<T>(m).subrange(0, k as int),
                keyed(m),
                forall|i: int| 0 <= i < k ==> T::sound(#[trigger] m[i].1),
            decreases entries.len() - k,
        {
            let value = entries[k].1.conceive();
            proof {
                assert(m[k as int].1 == entries@[k as int].1.model());
            }
            let ghost vv = value@;
            let one = vec![value];
            proof {
                lemma_datoms_view(one@);
                lemma_concepts::<T>(seq![m[k as int].1]);
                assert(datoms_view(one@) =~= concepts::<T>(seq![m[k as int].1]));
            }
            let d = Datom::Variant(entries[k].0.clone(), Box::new(Datom::Vector(one)));
            proof {
                assert(entries@[k as int].0@ == m[k as int].0);
                let ghost vd = SpecDatom::Vector(concepts::<T>(seq![m[k as int].1]));
                assert(<Vec<T> as Datomic>::concept(seq![m[k as int].1]) == vd);
                assert(Datom::Vector(one)@ == vd);
                assert(d@ == entry_concept::<T>(m[k as int].0, m[k as int].1));
                lemma_datoms_push(ds@, d);
                assert(keyed_concepts::<T>(m).subrange(0, k + 1) =~= keyed_concepts::<T>(m).subrange(
                    0,
                    k as int,
                ).push(keyed_concepts::<T>(m)[k as int]));
            }
            ds.push(d);
            k = k + 1;
        }
        assert(keyed_concepts::<T>(m).subrange(0, m.len() as int) =~= keyed_concepts::<T>(m));
        let d = Datom::Mapping(ds);
        proof {
            assert(Self::sound(self.model()));
        }
        d
    }

    proof fn lemma_reads_back(m: Seq<(Seq<char>, T::Model)>, at: SpecSituation, budget: nat) {
        assert(m.subrange(0, m.len() as int) =~= m);
        assert(m.subrange(0, 0) =~= Seq::<(Seq<char>, T::Model)>::empty());
        lemma_keyed_read_back::<T>(m, at, 0, budget);
        lemma_keyed_settled::<T>(m);
    }
}

} // verus!
