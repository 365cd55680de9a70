use vstd::prelude::*;

verus! {

/// Relative frequency in English text of a lowercase letter or the space,
/// in units of one ten-millionth; zero for any other byte.
pub open spec fn letter_weight(c: u8) -> nat {
    if c == 97 { 651738 }
    else if c == 98 { 124248 }
    else if c == 99 { 217339 }
    else if c == 100 { 349835 }
    else if c == 101 { 1041442 }
    else if c == 102 { 197881 }
    else if c == 103 { 158610 }
    else if c == 104 { 492888 }
    else if c == 105 { 558094 }
    else if c == 106 { 9033 }
    else if c == 107 { 50529 }
    else if c == 108 { 331490 }
    else if c == 109 { 202124 }
    else if c == 110 { 564513 }
    else if c == 111 { 596302 }
    else if c == 112 { 137645 }
    else if c == 113 { 8606 }
    else if c == 114 { 497563 }
    else if c == 115 { 515760 }
    else if c == 116 { 729357 }
    else if c == 117 { 225134 }
    else if c == 118 { 82903 }
    else if c == 119 { 171272 }
    else if c == 120 { 13692 }
    else if c == 121 { 145984 }
    else if c == 122 { 7836 }
    else if c == 32 { 1918182 }
    else { 0 }
}

/// The largest weight of the table, that of the space.
pub const MAX_WEIGHT: u32 = 1918182;

/// ASCII lowercase of a byte; other bytes unchanged.
pub open spec fn to_lower(c: u8) -> u8 {
    if 65 <= c <= 90 {
        (c + 32) as u8
    } else {
        c
    }
}

/// Weight of one byte: that of its lowercase form.
pub open spec fn byte_weight(c: u8) -> nat {
    letter_weight(to_lower(c))
}

/// English-likeness of a byte sequence: the sum of its bytes' weights.
pub open spec fn score_of(s: Seq<u8>) -> nat
    decreases s.len(),
{
    if s.len() == 0 {
        0
    } else {
        score_of(s.drop_last()) + byte_weight(s.last())
    }
}

/// Weight of one byte, as `byte_weight` states it.
pub fn frequency_weight(b: u8) -> (w: u32)
    ensures
        w == byte_weight(b),
        w <= MAX_WEIGHT,
{
    let c: u8 = if 65 <= b && b <= 90 { b + 32 } else { b };
    if c == 97 { 651738 }
    else if c == 98 { 124248 }
    else if c == 99 { 217339 }
    else if c == 100 { 349835 }
    else if c == 101 { 1041442 }
    else if c == 102 { 197881 }
    else if c == 103 { 158610 }
    else if c == 104 { 492888 }
    else if c == 105 { 558094 }
    else if c == 106 { 9033 }
    else if c == 107 { 50529 }
    else if c == 108 { 331490 }
    else if c == 109 { 202124 }
    else if c == 110 { 564513 }
    else if c == 111 { 596302 }
    else if c == 112 { 137645 }
    else if c == 113 { 8606 }
    else if c == 114 { 497563 }
    else if c == 115 { 515760 }
    else if c == 116 { 729357 }
    else if c == 117 { 225134 }
    else if c == 118 { 82903 }
    else if c == 119 { 171272 }
    else if c == 120 { 13692 }
    else if c == 121 { 145984 }
    else if c == 122 { 7836 }
    else if c == 32 { 1918182 }
    else { 0 }
}

/// Scores a byte sequence for English-likeness.
pub fn score(b: &[u8]) -> (r: u128)
    ensures
        r == score_of(b@),
{
    let mut total: u128 = 0;
    let mut i: usize = 0;
    while i < b.len()
        invariant
            i <= b@.len(),
            total == score_of(b@.take(i as int)),
            total <= i * MAX_WEIGHT,
        decreases b@.len() - i,
    {
        let w = frequency_weight(b[i]);
        assert(b@.take(i + 1).drop_last() =~= b@.take(i as int));
        assert((i + 1) * MAX_WEIGHT == i * MAX_WEIGHT + MAX_WEIGHT) by (nonlinear_arith);
        total = total + w as u128;
        i = i + 1;
    }
    assert(b@.take(i as int) =~= b@);
    total
}

/// A sequence of spaces outscores every sequence of the same length made of
/// bytes that are neither letters nor the space, and those score exactly 0.
pub proof fn lemma_spaces_outscore_non_letters(n: nat, other: Seq<u8>)
    requires
        n > 0,
        other.len() == n,
        forall|i: int| 0 <= i < n ==> #[trigger] byte_weight(other[i]) == 0,
    ensures
        score_of(other) == 0,
        score_of(Seq::new(n, |i: int| 32u8)) > score_of(other),
        score_of(Seq::new(n, |i: int| 32u8)) == n * 1918182,
    decreases n,
{
    let spaces = Seq::new(n, |i: int| 32u8);
    assert(byte_weight(other[n - 1]) == 0);
    assert(byte_weight(spaces.last()) == 1918182);
    if n > 1 {
        let m = (n - 1) as nat;
        assert forall|i: int| 0 <= i < m implies #[trigger] byte_weight(other.drop_last()[i]) == 0 by {
            assert(byte_weight(other[i]) == 0);
        }
        lemma_spaces_outscore_non_letters(m, other.drop_last());
        assert(spaces.drop_last() =~= Seq::new(m, |i: int| 32u8));
        assert(m * 1918182 + 1918182 == n * 1918182) by (nonlinear_arith) requires m + 1 == n;
    } else {
        assert(other.drop_last() =~= Seq::<u8>::empty());
        assert(Seq::new(n, |i: int| 32u8).drop_last() =~= Seq::<u8>::empty());
    }
}

} // verus!
