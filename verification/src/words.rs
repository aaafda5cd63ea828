//! The scalar words of the dialect: integers and booleans, each read from one
//! bare word and written to one.

use vstd::prelude::*;

verus! {

/// Whether a glyph is an ASCII digit.
pub open spec fn is_digit(c: char) -> bool {
    '0' <= c && c <= '9'
}

/// The value of an ASCII digit.
pub open spec fn digit_value(c: char) -> int {
    c as int - '0' as int
}

/// The glyph of a digit value below ten.
pub open spec fn digit_glyph(d: int) -> char {
    (d + '0' as int) as char
}

/// A non-empty run of ASCII digits.
pub open spec fn all_digits(w: Seq<char>) -> bool {
    w.len() > 0 && forall|i: int| 0 <= i < w.len() ==> is_digit(#[trigger] w[i])
}

/// A run of ASCII digits with no leading zero (but the single `0`).
pub open spec fn canonical_digits(w: Seq<char>) -> bool {
    all_digits(w) && (w.len() == 1 || w[0] != '0')
}

/// The number a run of decimal digits denotes.
pub open spec fn digits_value(w: Seq<char>) -> int
    decreases w.len(),
{
    if w.len() == 0 {
        0
    } else {
        digits_value(w.drop_last()) * 10 + digit_value(w.last())
    }
}

/// The decimal digits of a positive number, most significant first (empty for zero).
pub open spec fn digits_of(n: nat) -> Seq<char>
    decreases n,
{
    if n == 0 {
        Seq::empty()
    } else {
        digits_of(n / 10).push(digit_glyph((n % 10) as int))
    }
}

/// The decimal word of a natural number.
pub open spec fn natural_word(n: nat) -> Seq<char> {
    if n == 0 {
        seq!['0']
    } else {
        digits_of(n)
    }
}

/// The word of an integer: an optional `-`, then canonical decimal digits.
pub open spec fn integer_word(v: int) -> Seq<char> {
    if v < 0 {
        seq!['-'] + natural_word((-v) as nat)
    } else {
        natural_word(v as nat)
    }
}

/// The integer a word denotes: ASCII decimal, an optional `-`, no `+`, no
/// leading zero, no `-0`, within the 64-bit range.
pub open spec fn integer_of_word(w: Seq<char>) -> Option<i64> {
    if w.len() > 0 && w[0] == '-' {
        let d = w.drop_first();
        if canonical_digits(d) && d != seq!['0'] && digits_value(d) <= 0x8000_0000_0000_0000 {
            Some((-digits_value(d)) as i64)
        } else {
            None
        }
    } else if canonical_digits(w) && digits_value(w) <= 0x7fff_ffff_ffff_ffff {
        Some(digits_value(w) as i64)
    } else {
        None
    }
}

/// The word `True`.
pub open spec fn true_word() -> Seq<char> {
    seq!['T', 'r', 'u', 'e']
}

/// The word `False`.
pub open spec fn false_word() -> Seq<char> {
    seq!['F', 'a', 'l', 's', 'e']
}

/// The word of a boolean.
pub open spec fn boolean_word(b: bool) -> Seq<char> {
    if b {
        true_word()
    } else {
        false_word()
    }
}

/// The boolean a word denotes: `True` or `False`, nothing else.
pub open spec fn boolean_of_word(w: Seq<char>) -> Option<bool> {
    if w == true_word() {
        Some(true)
    } else if w == false_word() {
        Some(false)
    } else {
        None
    }
}

proof fn lemma_digit_glyph(d: int)
    requires
        0 <= d < 10,
    ensures
        is_digit(digit_glyph(d)),
        digit_value(digit_glyph(d)) == d,
{
}

proof fn lemma_digits_of(n: nat)
    ensures
        n > 0 ==> all_digits(digits_of(n)),
        n > 0 ==> digits_of(n)[0] != '0',
        digits_value(digits_of(n)) == n,
        n == 0 <==> digits_of(n).len() == 0,
    decreases n,
{
    if n > 0 {
        lemma_digits_of(n / 10);
        lemma_digit_glyph((n % 10) as int);
        let w = digits_of(n);
        assert(w.drop_last() == digits_of(n / 10));
        assert(n == (n / 10) * 10 + n % 10);
        if n / 10 > 0 {
            assert(w[0] == digits_of(n / 10)[0]);
        }
    }
}

pub proof fn lemma_natural_word(n: nat)
    ensures
        canonical_digits(natural_word(n)),
        digits_value(natural_word(n)) == n,
        natural_word(n) == seq!['0'] <==> n == 0,
{
    lemma_digits_of(n);
    if n == 0 {
        assert(digits_value(seq!['0']) == digits_value(seq!['0'].drop_last()) * 10 + 0);
        assert(seq!['0'].drop_last() =~= Seq::<char>::empty());
    } else {
        if natural_word(n) == seq!['0'] {
            assert(natural_word(n)[0] == '0');
        }
    }
}

/// A positive run of canonical digits has a positive value.
proof fn lemma_canonical_positive(w: Seq<char>)
    requires
        canonical_digits(w),
        w != seq!['0'],
    ensures
        digits_value(w) > 0,
    decreases w.len(),
{
    if w.len() == 1 {
        assert(w.drop_last() =~= Seq::<char>::empty());
        assert(digits_value(Seq::<char>::empty()) == 0);
        assert(w.last() == w[0]);
        if w[0] == '0' {
            assert(w =~= seq!['0']);
        }
        assert(is_digit(w[0]));
    } else {
        let p = w.drop_last();
        assert(p[0] == w[0]);
        assert(all_digits(p)) by {
            assert forall|i: int| 0 <= i < p.len() implies is_digit(#[trigger] p[i]) by {
                assert(p[i] == w[i]);
            }
        }
        if p == seq!['0'] {
            assert(p[0] == '0');
        }
        lemma_canonical_positive(p);
        assert(is_digit(w[w.len() - 1]));
    }
}

/// Writing the value of canonical digits gives back the same digits.
proof fn lemma_canonical_digits_word(w: Seq<char>)
    requires
        canonical_digits(w),
    ensures
        digits_value(w) >= 0,
        natural_word(digits_value(w) as nat) == w,
    decreases w.len(),
{
    if w.len() == 1 {
        assert(w.drop_last() =~= Seq::<char>::empty());
        assert(is_digit(w[0]));
        let v = digits_value(w);
        assert(digits_value(Seq::<char>::empty()) == 0);
        assert(w.last() == w[0]);
        assert(v == digit_value(w[0]));
        if v == 0 {
            assert(w =~= seq!['0']);
        } else {
            assert(digits_of(v as nat / 10) =~= Seq::<char>::empty());
            assert(digit_glyph(v % 10) == w[0]);
            assert(digits_of(v as nat) =~= w);
        }
    } else {
        let p = w.drop_last();
        assert(p[0] == w[0]);
        assert(all_digits(p)) by {
            assert forall|i: int| 0 <= i < p.len() implies is_digit(#[trigger] p[i]) by {
                assert(p[i] == w[i]);
            }
        }
        assert(canonical_digits(p));
        if p == seq!['0'] {
            assert(p[0] == '0');
        }
        lemma_canonical_positive(p);
        lemma_canonical_digits_word(p);
        let pv = digits_value(p);
        let d = digit_value(w.last());
        assert(is_digit(w[w.len() - 1]));
        let v = digits_value(w);
        assert(v == pv * 10 + d);
        assert(v / 10 == pv && v % 10 == d) by (nonlinear_arith)
            requires
                v == pv * 10 + d,
                0 <= d < 10,
                pv > 0,
        ;
        assert(digit_glyph(d) == w.last());
        assert(natural_word(pv as nat) == digits_of(pv as nat));
        assert(digits_of(v as nat) =~= p.push(w.last()));
        assert(p.push(w.last()) =~= w);
    }
}

/// Every integer reads back from its word.
pub proof fn lemma_integer_word_reads_back(v: i64)
    ensures
        integer_of_word(integer_word(v as int)) == Some(v),
{
    if v < 0 {
        let n = (-(v as int)) as nat;
        lemma_natural_word(n);
        let w = integer_word(v as int);
        assert(w.drop_first() =~= natural_word(n));
        assert(w[0] == '-');
    } else {
        let n = v as nat;
        lemma_natural_word(n);
        let w = natural_word(n);
        assert(w[0] != '-') by {
            assert(is_digit(w[0]));
        }
    }
}

/// The word an integer was read from is its canonical word.
pub proof fn lemma_integer_word_is_canonical(w: Seq<char>)
    requires
        integer_of_word(w) is Some,
    ensures
        integer_word(integer_of_word(w)->0 as int) == w,
{
    if w.len() > 0 && w[0] == '-' {
        let d = w.drop_first();
        lemma_canonical_positive(d);
        lemma_canonical_digits_word(d);
        assert(seq!['-'] + d =~= w);
    } else {
        lemma_canonical_digits_word(w);
    }
}

/// The value of digits only grows as digits are appended.
pub proof fn lemma_value_of_prefix(w: Seq<char>, k: int)
    requires
        0 <= k <= w.len(),
        forall|i: int| 0 <= i < w.len() ==> is_digit(#[trigger] w[i]),
    ensures
        digits_value(w.take(k)) <= digits_value(w),
        0 <= digits_value(w.take(k)),
    decreases w.len(),
{
    if k < w.len() {
        let p = w.drop_last();
        assert(p.take(k) =~= w.take(k));
        assert forall|i: int| 0 <= i < p.len() implies is_digit(#[trigger] p[i]) by {
            assert(p[i] == w[i]);
        }
        lemma_value_of_prefix(p, k);
        lemma_value_of_prefix(p, p.len() as int);
        assert(p.take(p.len() as int) =~= p);
        assert(is_digit(w[w.len() - 1]));
    } else {
        assert(w.take(k) =~= w);
        if w.len() > 0 {
            let p = w.drop_last();
            assert forall|i: int| 0 <= i < p.len() implies is_digit(#[trigger] p[i]) by {
                assert(p[i] == w[i]);
            }
            lemma_value_of_prefix(p, p.len() as int);
            assert(p.take(p.len() as int) =~= p);
            assert(is_digit(w[w.len() - 1]));
        }
    }
}

/// Whether a glyph is an ASCII digit.
pub fn digit(c: char) -> (r: bool)
    ensures
        r == is_digit(c),
{
    '0' <= c && c <= '9'
}

/// Whether a word is a canonical run of digits.
pub fn is_canonical_digits(w: &[char]) -> (r: bool)
    ensures
        r == canonical_digits(w@),
{
    if w.len() == 0 {
        return false;
    }
    let mut i: usize = 0;
    while i < w.len()
        invariant
            0 <= i <= w.len(),
            forall|j: int| 0 <= j < i ==> is_digit(#[trigger] w@[j]),
        decreases w.len() - i,
    {
        if !digit(w[i]) {
            return false;
        }
        i = i + 1;
    }
    w.len() == 1 || w[0] != '0'
}

/// The integer a word denotes, if it denotes one.
pub fn integer_from_word(w: &[char]) -> (r: Option<i64>)
    ensures
        r == integer_of_word(w@),
{
    let negative = w.len() > 0 && w[0] == '-';
    let start: usize = if negative { 1 } else { 0 };
    let ghost d = w@.subrange(start as int, w@.len() as int);
    proof {
        if negative {
            assert(d =~= w@.drop_first());
        } else {
            assert(d =~= w@);
        }
    }
    if w.len() == start {
        assert(d.len() == 0);
        return None;
    }
    if negative && w.len() == 2 && w[1] == '0' {
        assert(d =~= seq!['0']);
        return None;
    }
    let mut i: usize = start;
    while i < w.len()
        invariant
            start <= i <= w.len(),
            start == (if negative { 1usize } else { 0usize }),
            d == w@.subrange(start as int, w@.len() as int),
            negative == (w.len() > 0 && w@[0] == '-'),
            negative ==> d == w@.drop_first(),
            !negative ==> d == w@,
            forall|j: int| start <= j < i ==> is_digit(#[trigger] w@[j]),
        decreases w.len() - i,
    {
        if !digit(w[i]) {
            assert(d[i - start] == w@[i as int]);
            return None;
        }
        i = i + 1;
    }
    assert(all_digits(d)) by {
        assert forall|j: int| 0 <= j < d.len() implies is_digit(#[trigger] d[j]) by {
            assert(d[j] == w@[j + start]);
        }
    }
    if w.len() - start > 1 && w[start] == '0' {
        assert(d[0] == w@[start as int]);
        return None;
    }
    assert(canonical_digits(d));
    proof {
        if negative && d == seq!['0'] {
            assert(d.len() == 1);
            assert(d[0] == w@[1]);
        }
    }
    let limit: i128 = if negative { 0x8000_0000_0000_0000 } else { 0x7fff_ffff_ffff_ffff };
    let mut acc: i128 = 0;
    let mut k: usize = start;
    while k < w.len()
        invariant
            start <= k <= w.len(),
            d == w@.subrange(start as int, w@.len() as int),
            all_digits(d),
            canonical_digits(d),
            negative == (w.len() > 0 && w@[0] == '-'),
            negative ==> d == w@.drop_first() && d != seq!['0'],
            !negative ==> d == w@,
            limit == (if negative { 0x8000_0000_0000_0000i128 } else { 0x7fff_ffff_ffff_ffffi128 }),
            0 <= acc <= limit,
            limit <= 0x8000_0000_0000_0000,
            acc == digits_value(d.take(k - start)),
        decreases w.len() - k,
    {
        let c = w[k];
        assert(c == d[k - start]);
        assert(is_digit(d[k - start]));
        let dv: i128 = (c as u32 - '0' as u32) as i128;
        assert(dv == digit_value(c));
        assert(d.take(k - start + 1).drop_last() =~= d.take(k - start));
        assert(acc * 10 + dv <= 0x8000_0000_0000_0000 * 10 + 9) by (nonlinear_arith)
            requires
                acc <= 0x8000_0000_0000_0000,
                dv <= 9,
        ;
        let next = acc * 10 + dv;
        assert(next == digits_value(d.take(k - start + 1)));
        if next > limit {
            proof {
                lemma_value_of_prefix(d, k - start + 1);
                assert(d.take(d.len() as int) =~= d);
            }
            return None;
        }
        acc = next;
        k = k + 1;
    }
    assert(d.take(d.len() as int) =~= d);
    if negative {
        Some((0 - acc) as i64)
    } else {
        Some(acc as i64)
    }
}

/// The decimal digits of a positive number, most significant first.
fn digits_of_number(n: u64) -> (r: Vec<char>)
    ensures
        r@ == digits_of(n as nat),
{
    let mut m: u64 = n;
    let mut tail: Vec<char> = Vec::new();
    while m > 0
        invariant
            digits_of(n as nat) == digits_of(m as nat) + tail@,
        decreases m,
    {
        let d = m % 10;
        let c = char_of_digit(d);
        let ghost before = tail@;
        tail.insert(0, c);
        assert(tail@ =~= seq![c] + before);
        assert(digits_of(m as nat) == digits_of((m / 10) as nat).push(c));
        assert(digits_of((m / 10) as nat).push(c) + before =~= digits_of((m / 10) as nat) + (
        seq![c] + before));
        m = m / 10;
    }
    assert(digits_of(0) + tail@ =~= tail@);
    tail
}

/// The glyph of a digit value.
fn char_of_digit(d: u64) -> (c: char)
    requires
        d < 10,
    ensures
        c == digit_glyph(d as int),
{
    if d == 0 { '0' }
    else if d == 1 { '1' }
    else if d == 2 { '2' }
    else if d == 3 { '3' }
    else if d == 4 { '4' }
    else if d == 5 { '5' }
    else if d == 6 { '6' }
    else if d == 7 { '7' }
    else if d == 8 { '8' }
    else { '9' }
}

/// The word of an integer.
pub fn integer_to_word(v: i64) -> (w: Vec<char>)
    ensures
        w@ == integer_word(v as int),
{
    let magnitude: u64 = if v < 0 {
        (0 - (v as i128)) as u64
    } else {
        v as u64
    };
    let mut digits = if magnitude == 0 {
        vec!['0']
    } else {
        digits_of_number(magnitude)
    };
    if v < 0 {
        digits.insert(0, '-');
        assert(digits@ =~= seq!['-'] + natural_word(magnitude as nat));
    }
    digits
}

/// The boolean a word denotes, if it denotes one.
pub fn boolean_from_word(w: &[char]) -> (r: Option<bool>)
    ensures
        r == boolean_of_word(w@),
{
    if w.len() == 4 && w[0] == 'T' && w[1] == 'r' && w[2] == 'u' && w[3] == 'e' {
        assert(w@ =~= true_word());
        Some(true)
    } else if w.len() == 5 && w[0] == 'F' && w[1] == 'a' && w[2] == 'l' && w[3] == 's' && w[4]
        == 'e' {
        assert(w@ =~= false_word());
        Some(false)
    } else {
        proof {
            if w@ == true_word() {
                assert(w@[0] == 'T' && w@[1] == 'r' && w@[2] == 'u' && w@[3] == 'e');
            }
            if w@ == false_word() {
                assert(w@[0] == 'F' && w@[1] == 'a' && w@[2] == 'l' && w@[3] == 's' && w@[4]
                    == 'e');
            }
        }
        None
    }
}

/// The word of a boolean.
pub fn boolean_to_word(b: bool) -> (w: Vec<char>)
    ensures
        w@ == boolean_word(b),
{
    if b {
        let w = vec!['T', 'r', 'u', 'e'];
        assert(w@ =~= true_word());
        w
    } else {
        let w = vec!['F', 'a', 'l', 's', 'e'];
        assert(w@ =~= false_word());
        w
    }
}

/// Every boolean reads back from its word, and a boolean's word is the one it was read from.
pub proof fn lemma_boolean_words(b: bool, w: Seq<char>)
    ensures
        boolean_of_word(boolean_word(b)) == Some(b),
        boolean_of_word(w) matches Some(c) ==> boolean_word(c) == w,
{
    assert(true_word() != false_word()) by {
        assert(true_word().len() != false_word().len());
    }
}

/// The word of an integer is a non-empty run of digits, after an optional `-`.
pub proof fn lemma_integer_word_glyphs(v: int)
    ensures
        integer_word(v).len() > 0,
        forall|i: int| 0 <= i < integer_word(v).len() ==> is_digit(#[trigger] integer_word(v)[i]) || (
        i == 0 && integer_word(v)[i] == '-'),
{
    if v < 0 {
        let n = (-v) as nat;
        lemma_natural_word(n);
        let w = integer_word(v);
        assert forall|i: int| 0 <= i < w.len() implies is_digit(#[trigger] w[i]) || (i == 0 && w[i] == '-') by {
            if i > 0 {
                assert(w[i] == natural_word(n)[i - 1]);
            }
        }
    } else {
        lemma_natural_word(v as nat);
    }
}

// ----- decimal words -----

/// A word without its leading `-`, if it has one.
pub open spec fn unsigned_part(w: Seq<char>) -> Seq<char> {
    if w.len() > 0 && w[0] == '-' {
        w.drop_first()
    } else {
        w
    }
}

/// A word that spells a decimal: an optional `-`, canonical digits, a point,
/// and a non-empty run of digits.
pub open spec fn decimal_word(w: Seq<char>) -> bool {
    let u = unsigned_part(w);
    exists|p: int|
        0 <= p < u.len() && #[trigger] u[p] == '.' && canonical_digits(u.subrange(0, p))
            && all_digits(u.subrange(p + 1, u.len() as int))
}

/// Whether a word spells a decimal.
pub fn is_decimal_word(w: &[char]) -> (r: bool)
    ensures
        r == decimal_word(w@),
{
    let ghost u = unsigned_part(w@);
    let start: usize = if w.len() > 0 && w[0] == '-' {
        1
    } else {
        0
    };
    assert(u =~= w@.subrange(start as int, w@.len() as int));
    let mut p: usize = start;
    while p < w.len() && digit(w[p])
        invariant
            start <= p <= w.len(),
            forall|j: int| start <= j < p ==> is_digit(#[trigger] w@[j]),
        decreases w.len() - p,
    {
        p = p + 1;
    }
    if p == w.len() || w[p] != '.' || p == start || (p - start > 1 && w[start] == '0') {
        proof {
            assert forall|q: int|
                0 <= q < u.len() && #[trigger] u[q] == '.' implies !(canonical_digits(
                u.subrange(0, q),
            ) && all_digits(u.subrange(q + 1, u.len() as int))) by {
                if canonical_digits(u.subrange(0, q)) {
                    if q > p - start {
                        assert(u.subrange(0, q)[p - start] == w@[p as int]);
                    }
                    if q < p - start {
                        assert(is_digit(w@[start + q]));
                    }
                    assert(q == p - start);
                    assert(u.subrange(0, q)[0] == w@[start as int]);
                }
            }
        }
        return false;
    }
    let mut f: usize = p + 1;
    while f < w.len()
        invariant
            start <= p < w.len(),
            p + 1 <= f <= w.len(),
            w@[p as int] == '.',
            u =~= w@.subrange(start as int, w@.len() as int),
            u == unsigned_part(w@),
            forall|j: int| start <= j < p ==> is_digit(#[trigger] w@[j]),
            forall|j: int| p + 1 <= j < f ==> is_digit(#[trigger] w@[j]),
        decreases w.len() - f,
    {
        if !digit(w[f]) {
            proof {
                assert forall|q: int|
                    0 <= q < u.len() && #[trigger] u[q] == '.' implies !(canonical_digits(
                    u.subrange(0, q),
                ) && all_digits(u.subrange(q + 1, u.len() as int))) by {
                    if canonical_digits(u.subrange(0, q)) {
                        if q > p - start {
                            assert(u.subrange(0, q)[p - start] == w@[p as int]);
                        }
                        if q < p - start {
                            assert(is_digit(w@[start + q]));
                        }
                        assert(q == p - start);
                        assert(u.subrange(q + 1, u.len() as int)[f - p - 1] == w@[f as int]);
                    }
                }
            }
            return false;
        }
        f = f + 1;
    }
    if f == p + 1 {
        proof {
            assert forall|q: int|
                0 <= q < u.len() && #[trigger] u[q] == '.' implies !(canonical_digits(
                u.subrange(0, q),
            ) && all_digits(u.subrange(q + 1, u.len() as int))) by {
                if canonical_digits(u.subrange(0, q)) {
                    if q > p - start {
                        assert(u.subrange(0, q)[p - start] == w@[p as int]);
                    }
                    if q < p - start {
                        assert(is_digit(w@[start + q]));
                    }
                    assert(q == p - start);
                }
            }
        }
        return false;
    }
    proof {
        let q = p - start;
        assert(u[q] == '.');
        assert forall|i: int| 0 <= i < q implies is_digit(#[trigger] u.subrange(0, q)[i]) by {
            assert(u.subrange(0, q)[i] == w@[start + i]);
        }
        assert forall|i: int| 0 <= i < u.len() - q - 1 implies is_digit(
            #[trigger] u.subrange(q + 1, u.len() as int)[i],
        ) by {
            assert(u.subrange(q + 1, u.len() as int)[i] == w@[p + 1 + i]);
        }
        assert(u.subrange(0, q)[0] == w@[start as int]);
    }
    true
}

/// Digits with their trailing zeros removed.
pub open spec fn without_trailing_zeros(f: Seq<char>) -> Seq<char>
    decreases f.len(),
{
    if f.len() > 0 && f.last() == '0' {
        without_trailing_zeros(f.drop_last())
    } else {
        f
    }
}

/// The index of the first point at or after `k`, or the length when there is none.
pub open spec fn point_from(s: Seq<char>, k: int) -> int
    decreases s.len() - k,
{
    if k < 0 || k >= s.len() {
        s.len() as int
    } else if s[k] == '.' {
        k
    } else {
        point_from(s, k + 1)
    }
}

/// The canonical word of a printed decimal: its fraction without trailing
/// zeros, and a point with at least one digit after it.
pub open spec fn canonical_decimal(printed: Seq<char>) -> Seq<char> {
    let p = point_from(printed, 0);
    if p < printed.len() {
        let t = without_trailing_zeros(printed.subrange(p + 1, printed.len() as int));
        printed.subrange(0, p + 1) + if t.len() == 0 {
            seq!['0']
        } else {
            t
        }
    } else {
        printed + seq!['.', '0']
    }
}

/// Digits without their trailing zeros are a prefix of them, empty or ending
/// in another digit.
proof fn lemma_without_trailing_zeros(f: Seq<char>)
    ensures
        without_trailing_zeros(f).len() <= f.len(),
        without_trailing_zeros(f) == f.subrange(0, without_trailing_zeros(f).len() as int),
        without_trailing_zeros(f).len() == 0 || without_trailing_zeros(f).last() != '0',
    decreases f.len(),
{
    if f.len() > 0 && f.last() == '0' {
        lemma_without_trailing_zeros(f.drop_last());
        let t = without_trailing_zeros(f.drop_last());
        assert(f.drop_last().subrange(0, t.len() as int) =~= f.subrange(0, t.len() as int));
    } else {
        assert(f.subrange(0, f.len() as int) =~= f);
    }
}

/// The first point from `k` on is found where it stands.
proof fn lemma_point_from(s: Seq<char>, k: int, q: int)
    requires
        0 <= k <= q < s.len(),
        s[q] == '.',
        forall|j: int| k <= j < q ==> s[j] != '.',
    ensures
        point_from(s, k) == q,
    decreases q - k,
{
    if k < q {
        lemma_point_from(s, k + 1, q);
    }
}

/// The canonical word of a decimal word spells a decimal, and is its own
/// canonical word.
pub proof fn lemma_canonical_decimal(w: Seq<char>)
    requires
        decimal_word(w),
    ensures
        decimal_word(canonical_decimal(w)),
        canonical_decimal(canonical_decimal(w)) == canonical_decimal(w),
{
    let u = unsigned_part(w);
    let p = choose|p: int|
        0 <= p < u.len() && #[trigger] u[p] == '.' && canonical_digits(u.subrange(0, p))
            && all_digits(u.subrange(p + 1, u.len() as int));
    let signed: int = if w.len() > 0 && w[0] == '-' { 1 } else { 0 };
    let pw = p + signed;
    assert(u =~= w.subrange(signed, w.len() as int));
    assert forall|j: int| 0 <= j < pw implies w[j] != '.' by {
        if j >= signed {
            assert(u.subrange(0, p)[j - signed] == w[j]);
        }
    }
    lemma_point_from(w, 0, pw);
    let f = w.subrange(pw + 1, w.len() as int);
    assert(f =~= u.subrange(p + 1, u.len() as int));
    lemma_without_trailing_zeros(f);
    let t0 = without_trailing_zeros(f);
    let t = if t0.len() == 0 { seq!['0'] } else { t0 };
    let c = w.subrange(0, pw + 1) + t;
    assert(canonical_decimal(w) == c);
    assert(all_digits(t)) by {
        assert forall|i: int| 0 <= i < t.len() implies is_digit(#[trigger] t[i]) by {
            if t0.len() > 0 {
                assert(t[i] == f.subrange(0, t0.len() as int)[i]);
                assert(f[i] == u.subrange(p + 1, u.len() as int)[i]);
            }
        }
    }
    let uc = unsigned_part(c);
    assert(uc =~= c.subrange(signed, c.len() as int));
    assert(uc[p] == '.');
    assert(uc.subrange(0, p) =~= u.subrange(0, p));
    assert(uc.subrange(p + 1, uc.len() as int) =~= t);
    assert(decimal_word(c));
    assert forall|j: int| 0 <= j < pw implies c[j] != '.' by {
        assert(c[j] == w[j]);
    }
    lemma_point_from(c, 0, pw);
    assert(c.subrange(pw + 1, c.len() as int) =~= t);
    lemma_without_trailing_zeros(t);
    if t0.len() > 0 {
        assert(without_trailing_zeros(t) == t);
    } else {
        assert(t.drop_last() =~= Seq::<char>::empty());
        assert(without_trailing_zeros(t) == without_trailing_zeros(Seq::<char>::empty()));
    }
    assert(c.subrange(0, pw + 1) =~= w.subrange(0, pw + 1));
    assert(canonical_decimal(c) =~= c);
}

/// The canonical word of a printed decimal.
pub fn canonical_decimal_word(printed: &[char]) -> (w: Vec<char>)
    ensures
        w@ == canonical_decimal(printed@),
{
    let ghost s = printed@;
    let n = printed.len();
    let mut p: usize = 0;
    while p < n && printed[p] != '.'
        invariant
            0 <= p <= n,
            n == s.len(),
            s == printed@,
            point_from(s, 0) == point_from(s, p as int),
        decreases n - p,
    {
        p = p + 1;
    }
    let mut w: Vec<char> = Vec::new();
    let mut i: usize = 0;
    while i < p
        invariant
            0 <= i <= p <= n,
            n == s.len(),
            s == printed@,
            w@ =~= s.subrange(0, i as int),
        decreases p - i,
    {
        w.push(printed[i]);
        i = i + 1;
    }
    if p == n {
        w.push('.');
        w.push('0');
        assert(w@ =~= s + seq!['.', '0']);
        return w;
    }
    w.push('.');
    let mut e: usize = n;
    while e > p + 1 && printed[e - 1] == '0'
        invariant
            p + 1 <= e <= n,
            n == s.len(),
            s == printed@,
            without_trailing_zeros(s.subrange(p + 1, n as int)) == without_trailing_zeros(
                s.subrange(p + 1, e as int),
            ),
        decreases e,
    {
        assert(s.subrange(p + 1, e as int).drop_last() =~= s.subrange(p + 1, e - 1));
        e = e - 1;
    }
    let ghost t = s.subrange(p + 1, e as int);
    assert(without_trailing_zeros(t) == t);
    if e == p + 1 {
        w.push('0');
    } else {
        let mut j: usize = p + 1;
        while j < e
            invariant
                p + 1 <= j <= e <= n,
                n == s.len(),
                s == printed@,
                w@ =~= s.subrange(0, p + 1) + s.subrange(p + 1, j as int),
            decreases e - j,
        {
            w.push(printed[j]);
            j = j + 1;
        }
    }
    w
}

} // verus!
