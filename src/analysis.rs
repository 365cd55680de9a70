use vstd::prelude::*;
use crate::cipher::{xor_single, xor_with_key, xor_with_key_spec};
use crate::codec::{hex_decode, hex_decoded, hex_error, is_hex, is_hex_text, FormatError};
use crate::score::{score, score_of};

verus! {

/// Score of the plaintext that key byte `k` gives for ciphertext `c`.
pub open spec fn candidate_score(c: Seq<u8>, k: u8) -> nat {
    score_of(xor_single(c, k))
}

/// The first key byte below `n` (in ascending order) whose candidate score is
/// maximal among the key bytes below `n`.
pub open spec fn best_key_upto(c: Seq<u8>, n: nat) -> u8
    decreases n,
{
    if n <= 1 {
        0
    } else {
        let prev = best_key_upto(c, (n - 1) as nat);
        if candidate_score(c, (n - 1) as u8) > candidate_score(c, prev) {
            (n - 1) as u8
        } else {
            prev
        }
    }
}

/// The key byte that single-byte recovery picks for `c`.
pub open spec fn best_key(c: Seq<u8>) -> u8 {
    best_key_upto(c, 256)
}

proof fn lemma_best_key_upto(c: Seq<u8>, n: nat)
    requires
        1 <= n <= 256,
    ensures
        best_key_upto(c, n) < n,
        forall|k: u8| k < n ==> #[trigger] candidate_score(c, k) <= candidate_score(c, best_key_upto(c, n)),
        forall|k: u8|
            k < best_key_upto(c, n) ==> #[trigger] candidate_score(c, k) < candidate_score(c, best_key_upto(c, n)),
    decreases n,
{
    if n > 1 {
        lemma_best_key_upto(c, (n - 1) as nat);
    }
}

/// The recovered key byte scores at least as high as every other key byte,
/// and strictly higher than every smaller key byte.
pub proof fn lemma_best_key_is_first_maximum(c: Seq<u8>)
    ensures
        forall|k: u8| #[trigger] candidate_score(c, k) <= candidate_score(c, best_key(c)),
        forall|k: u8| k < best_key(c) ==> #[trigger] candidate_score(c, k) < candidate_score(c, best_key(c)),
{
    lemma_best_key_upto(c, 256);
}

/// An empty ciphertext yields key 0 and score 0.
pub proof fn lemma_empty_ciphertext_yields_key_zero(c: Seq<u8>)
    requires
        c.len() == 0,
    ensures
        best_key(c) == 0,
        candidate_score(c, best_key(c)) == 0,
{
    assert forall|k: u8| #[trigger] candidate_score(c, k) == 0 by {
        assert(xor_single(c, k).len() == 0);
    }
    lemma_best_key_upto(c, 256);
    assert(candidate_score(c, 0) == 0);
    assert(candidate_score(c, best_key(c)) == 0);
}

fn xor_byte(data: &[u8], k: u8) -> (r: Vec<u8>)
    ensures
        r@ == xor_single(data@, k),
{
    let key: Vec<u8> = vec![k];
    let r = xor_with_key(data, key.as_slice());
    assert(r@ =~= xor_single(data@, k));
    r
}

/// Tries all 256 key bytes on `ciphertext` and keeps the first one whose
/// plaintext scores highest; gives that plaintext, the key byte and its score.
pub fn single_byte_xor_cipher(ciphertext: &[u8]) -> (r: (Vec<u8>, u8, u128))
    ensures
        r.1 == best_key(ciphertext@),
        r.0@ == xor_single(ciphertext@, r.1),
        r.2 == score_of(r.0@),
{
    let mut best_plain = xor_byte(ciphertext, 0);
    let mut best_k: u8 = 0;
    let mut best_score: u128 = score(best_plain.as_slice());
    let mut k: u16 = 1;
    while k < 256
        invariant
            1 <= k <= 256,
            best_k == best_key_upto(ciphertext@, k as nat),
            best_plain@ == xor_single(ciphertext@, best_k),
            best_score == score_of(best_plain@),
        decreases 256 - k,
    {
        let plain = xor_byte(ciphertext, k as u8);
        let s = score(plain.as_slice());
        if s > best_score {
            best_plain = plain;
            best_k = k as u8;
            best_score = s;
        }
        k = k + 1;
    }
    (best_plain, best_k, best_score)
}

/// Highest candidate score of `c` over all key bytes.
pub open spec fn best_score(c: Seq<u8>) -> nat {
    candidate_score(c, best_key(c))
}

/// Index of the first line, among the first `n`, whose decoded bytes have
/// the highest best score among those lines.
pub open spec fn best_line_upto(lines: Seq<Seq<u8>>, n: nat) -> nat
    decreases n,
{
    if n <= 1 {
        0
    } else {
        let prev = best_line_upto(lines, (n - 1) as nat);
        if best_score(hex_decoded(lines[n - 1])) > best_score(hex_decoded(lines[prev as int])) {
            (n - 1) as nat
        } else {
            prev
        }
    }
}

/// Whether every line is hex of even length.
pub open spec fn all_hex(lines: Seq<Seq<u8>>) -> bool {
    forall|j: int| 0 <= j < lines.len() ==> is_hex_text(#[trigger] lines[j])
}

/// Hex-decodes each line, recovers its single-byte key, and gives the index
/// of the first line whose plaintext scores highest, with that plaintext,
/// key byte and score; fails if any line is not hex of even length.
pub fn detect_single_character_xor(lines: &Vec<Vec<u8>>) -> (r: Result<
    (usize, Vec<u8>, u8, u128),
    FormatError,
>)
    requires
        lines@.len() > 0,
    ensures
        r is Ok <==> all_hex(lines@.map_values(|l: Vec<u8>| l@)),
        r is Err ==> exists|j: int|
            0 <= j < lines@.len() && !is_hex_text(#[trigger] lines@[j]@) && all_hex(
                lines@.map_values(|l: Vec<u8>| l@).take(j),
            ) && r->Err_0 == hex_error(lines@[j]@),
        r is Ok ==> ({
            let (idx, plain, key, sc) = r->Ok_0;
            let views = lines@.map_values(|l: Vec<u8>| l@);
            &&& idx == best_line_upto(views, lines@.len() as nat)
            &&& key == best_key(hex_decoded(views[idx as int]))
            &&& plain@ == xor_single(hex_decoded(views[idx as int]), key)
            &&& sc == score_of(plain@)
        }),
{
    let ghost views = lines@.map_values(|l: Vec<u8>| l@);
    let mut best: Option<(usize, Vec<u8>, u8, u128)> = None;
    let mut i: usize = 0;
    while i < lines.len()
        invariant
            i <= lines@.len(),
            views == lines@.map_values(|l: Vec<u8>| l@),
            forall|j: int| 0 <= j < i ==> is_hex_text(#[trigger] views[j]),
            i == 0 <==> best is None,
            best is Some ==> ({
                let (idx, plain, key, sc) = best->Some_0;
                &&& idx == best_line_upto(views, i as nat)
                &&& key == best_key(hex_decoded(views[idx as int]))
                &&& plain@ == xor_single(hex_decoded(views[idx as int]), key)
                &&& sc == score_of(plain@)
                &&& sc == best_score(hex_decoded(views[idx as int]))
            }),
        decreases lines@.len() - i,
    {
        let line = &lines[i];
        let bytes = match hex_decode(line.as_slice()) {
            Ok(b) => b,
            Err(e) => {
                assert(views[i as int] == lines@[i as int]@);
                assert(!is_hex_text(lines@[i as int]@));
                assert(all_hex(views.take(i as int)));
                return Err(e);
            },
        };
        let (plain, key, sc) = single_byte_xor_cipher(bytes.as_slice());
        let replace = match &best {
            None => true,
            Some(b) => sc > b.3,
        };
        if replace {
            best = Some((i, plain, key, sc));
        }
        i = i + 1;
    }
    assert(all_hex(views));
    match best {
        Some(b) => Ok(b),
        None => Err(FormatError::OddLength),
    }
}

/// Number of set bits of a byte.
pub open spec fn popcount(x: u8) -> nat {
    ((x & 1) + ((x >> 1u8) & 1) + ((x >> 2u8) & 1) + ((x >> 3u8) & 1) + ((x >> 4u8) & 1) + ((x
        >> 5u8) & 1) + ((x >> 6u8) & 1) + ((x >> 7u8) & 1)) as nat
}

/// Bit-level Hamming distance of two sequences of equal length.
pub open spec fn hamming_distance(a: Seq<u8>, b: Seq<u8>) -> nat
    decreases a.len(),
{
    if a.len() == 0 {
        0
    } else {
        hamming_distance(a.drop_last(), b.drop_last()) + popcount(a.last() ^ b.last())
    }
}

/// Block `j` of length `l` of `c`.
pub open spec fn block(c: Seq<u8>, l: nat, j: nat) -> Seq<u8> {
    c.subrange((j * l) as int, (j * l + l) as int)
}

/// Number of blocks of length `l` taken from `n` bytes: at most four.
pub open spec fn block_count(n: nat, l: nat) -> nat {
    if n / l < 4 {
        n / l
    } else {
        4
    }
}

/// Sum of the distances from block `b` to each block before `a`.
pub open spec fn pairs_with(c: Seq<u8>, l: nat, b: nat, a: nat) -> nat
    decreases a,
{
    if a == 0 {
        0
    } else {
        pairs_with(c, l, b, (a - 1) as nat) + hamming_distance(
            block(c, l, (a - 1) as nat),
            block(c, l, b),
        )
    }
}

/// Sum of the distances over all pairs among the first `nb` blocks.
pub open spec fn pair_total(c: Seq<u8>, l: nat, nb: nat) -> nat
    decreases nb,
{
    if nb == 0 {
        0
    } else {
        pair_total(c, l, (nb - 1) as nat) + pairs_with(c, l, (nb - 1) as nat, (nb - 1) as nat)
    }
}

/// Summed pairwise Hamming distance among the first (up to four) blocks of
/// length `l`; divided by `l` it is the normalised distance.
pub open spec fn block_distance(c: Seq<u8>, l: nat) -> nat {
    pair_total(c, l, block_count(c.len(), l))
}

/// Whether at least two whole blocks of length `l` fit in `n` bytes.
pub open spec fn has_pairs(n: nat, l: nat) -> bool {
    l > 0 && 2 * l <= n
}

/// Length `l1` ranks before `l2`: a smaller normalised distance, or an equal
/// one and a smaller length.
pub open spec fn ranks_before(c: Seq<u8>, l1: nat, l2: nat) -> bool {
    let x = block_distance(c, l1) * l2;
    let y = block_distance(c, l2) * l1;
    x < y || (x == y && l1 < l2)
}

/// `r` lists each length in `[min_len, max_len)` with at least two blocks,
/// once, with its summed distance, best ranked first.
pub open spec fn is_ranking(c: Seq<u8>, min_len: nat, max_len: nat, r: Seq<(usize, u128)>) -> bool {
    &&& forall|i: int|
        0 <= i < r.len() ==> {
            &&& min_len <= (#[trigger] r[i]).0 < max_len
            &&& has_pairs(c.len(), r[i].0 as nat)
            &&& r[i].1 == block_distance(c, r[i].0 as nat)
        }
    &&& forall|l: nat|
        min_len <= l < max_len && #[trigger] has_pairs(c.len(), l) ==> exists|i: int|
            0 <= i < r.len() && (#[trigger] r[i]).0 == l
    &&& forall|i: int, j: int|
        0 <= i < j < r.len() ==> ranks_before(c, (#[trigger] r[i]).0 as nat, (#[trigger] r[j]).0 as nat)
}

fn bit_count(x: u8) -> (r: u32)
    ensures
        r == popcount(x),
        r <= 8,
{
    assert(((x & 1) <= 1 && ((x >> 1u8) & 1) <= 1 && ((x >> 2u8) & 1) <= 1 && ((x >> 3u8) & 1)
        <= 1 && ((x >> 4u8) & 1) <= 1 && ((x >> 5u8) & 1) <= 1 && ((x >> 6u8) & 1) <= 1 && ((x
        >> 7u8) & 1) <= 1)) by (bit_vector);
    (x & 1) as u32 + ((x >> 1u8) & 1) as u32 + ((x >> 2u8) & 1) as u32 + ((x >> 3u8) & 1) as u32
        + ((x >> 4u8) & 1) as u32 + ((x >> 5u8) & 1) as u32 + ((x >> 6u8) & 1) as u32 + ((x
        >> 7u8) & 1) as u32
}

fn block_hamming(c: &[u8], l: usize, a: usize, b: usize) -> (r: u128)
    requires
        l > 0,
        a < b,
        (b + 1) * l <= c@.len(),
    ensures
        r == hamming_distance(block(c@, l as nat, a as nat), block(c@, l as nat, b as nat)),
        r <= 8 * l,
{
    let n: usize = c.len();
    proof {
        assert(a * l + l <= b * l + l) by (nonlinear_arith) requires a < b;
        assert((b + 1) * l == b * l + l) by (nonlinear_arith);
    }
    let sa: usize = a * l;
    let sb: usize = b * l;
    let ghost ba = block(c@, l as nat, a as nat);
    let ghost bb = block(c@, l as nat, b as nat);
    let mut acc: u128 = 0;
    let mut t: usize = 0;
    while t < l
        invariant
            t <= l,
            n == c@.len(),
            sa + l <= c@.len(),
            sb + l <= c@.len(),
            sa == a * l,
            sb == b * l,
            ba == block(c@, l as nat, a as nat),
            bb == block(c@, l as nat, b as nat),
            acc == hamming_distance(ba.take(t as int), bb.take(t as int)),
            acc <= 8 * t,
        decreases l - t,
    {
        let bits = bit_count(c[sa + t] ^ c[sb + t]);
        assert(ba.take(t + 1).drop_last() =~= ba.take(t as int));
        assert(bb.take(t + 1).drop_last() =~= bb.take(t as int));
        acc = acc + bits as u128;
        t = t + 1;
    }
    assert(ba.take(l as int) =~= ba);
    assert(bb.take(l as int) =~= bb);
    acc
}

fn blocks_distance(c: &[u8], l: usize) -> (d: u128)
    requires
        l > 0,
    ensures
        d == block_distance(c@, l as nat),
        d <= 128 * l,
{
    let n: usize = c.len();
    let q: usize = n / l;
    let nb: usize = if q < 4 { q } else { 4 };
    proof {
        vstd::arithmetic::div_mod::lemma_fundamental_div_mod(n as int, l as int);
        vstd::arithmetic::div_mod::lemma_mod_bound(n as int, l as int);
        vstd::arithmetic::mul::lemma_mul_inequality(nb as int, q as int, l as int);
        assert(nb * l <= n) by (nonlinear_arith)
            requires n == l * q + n % l, n % l >= 0, nb * l <= q * l;
    }
    let mut total: u128 = 0;
    let mut b: usize = 0;
    while b < nb
        invariant
            b <= nb <= 4,
            nb * l <= c@.len(),
            nb == block_count(c@.len(), l as nat),
            l > 0,
            total == pair_total(c@, l as nat, b as nat),
            total <= 8 * l * (b * b),
        decreases nb - b,
    {
        proof {
            vstd::arithmetic::mul::lemma_mul_inequality((b + 1) as int, nb as int, l as int);
        }
        let mut inner: u128 = 0;
        let mut a: usize = 0;
        while a < b
            invariant
                a <= b < nb,
                nb <= 4,
                (b + 1) * l <= c@.len(),
                l > 0,
                inner == pairs_with(c@, l as nat, b as nat, a as nat),
                inner <= 8 * l * a,
            decreases b - a,
        {
            let h = block_hamming(c, l, a, b);
            proof {
                assert(8 * l * a + 8 * l == 8 * l * (a + 1)) by (nonlinear_arith);
                assert(8 * l * (a + 1) <= 32 * 0xffff_ffff_ffff_ffffu64) by (nonlinear_arith)
                    requires a + 1 <= 4, l <= usize::MAX, usize::MAX <= u64::MAX;
            }
            inner = inner + h;
            a = a + 1;
        }
        proof {
            assert(8 * l * (b * b) + 8 * l * b <= 8 * l * ((b + 1) * (b + 1))) by (nonlinear_arith);
            assert(8 * l * ((b + 1) * (b + 1)) <= 8 * l * 16) by (nonlinear_arith) requires b + 1 <= 4;
            assert(8 * l * 16 <= 128 * 0xffff_ffff_ffff_ffffu64) by (nonlinear_arith)
                requires l <= usize::MAX, usize::MAX <= u64::MAX;
        }
        total = total + inner;
        b = b + 1;
    }
    proof {
        assert(8 * l * (nb * nb) <= 8 * l * 16) by (nonlinear_arith) requires nb <= 4;
    }
    total
}

proof fn lemma_ratio_compare(d1: int, l1: int, d2: int, l2: int)
    requires
        d1 >= 0,
        d2 >= 0,
        l1 > 0,
        l2 > 0,
    ensures
        (d1 * l2 < d2 * l1) == (d1 / l1 < d2 / l2 || (d1 / l1 == d2 / l2 && (d1 % l1) * l2 < (d2
            % l2) * l1)),
        (d1 * l2 == d2 * l1) == (d1 / l1 == d2 / l2 && (d1 % l1) * l2 == (d2 % l2) * l1),
{
    let q1 = d1 / l1;
    let r1 = d1 % l1;
    let q2 = d2 / l2;
    let r2 = d2 % l2;
    vstd::arithmetic::div_mod::lemma_fundamental_div_mod(d1, l1);
    vstd::arithmetic::div_mod::lemma_fundamental_div_mod(d2, l2);
    vstd::arithmetic::div_mod::lemma_mod_bound(d1, l1);
    vstd::arithmetic::div_mod::lemma_mod_bound(d2, l2);
    let p = l1 * l2;
    assert(d1 * l2 == q1 * p + r1 * l2) by (nonlinear_arith)
        requires d1 == l1 * q1 + r1, p == l1 * l2;
    assert(d2 * l1 == q2 * p + r2 * l1) by (nonlinear_arith)
        requires d2 == l2 * q2 + r2, p == l1 * l2;
    assert(0 <= r1 * l2 < p) by (nonlinear_arith)
        requires 0 <= r1 < l1, l2 > 0, p == l1 * l2;
    assert(0 <= r2 * l1 < p) by (nonlinear_arith)
        requires 0 <= r2 < l2, l1 > 0, p == l1 * l2;
    if q1 < q2 {
        assert(q1 * p + p <= q2 * p) by (nonlinear_arith) requires q1 < q2, p > 0;
    } else if q2 < q1 {
        assert(q2 * p + p <= q1 * p) by (nonlinear_arith) requires q2 < q1, p > 0;
    }
}

/// Whether `d1 / l1 < d2 / l2`, compared exactly.
fn ratio_less(d1: u128, l1: usize, d2: u128, l2: usize) -> (r: bool)
    requires
        l1 > 0,
        l2 > 0,
    ensures
        r == (d1 * l2 < d2 * l1),
{
    let q1 = d1 / (l1 as u128);
    let q2 = d2 / (l2 as u128);
    let r1 = d1 % (l1 as u128);
    let r2 = d2 % (l2 as u128);
    proof {
        lemma_ratio_compare(d1 as int, l1 as int, d2 as int, l2 as int);
        assert(r1 * l2 <= u128::MAX) by (nonlinear_arith)
            requires r1 < l1, l1 <= usize::MAX, l2 <= usize::MAX, usize::MAX <= u64::MAX;
        assert(r2 * l1 <= u128::MAX) by (nonlinear_arith)
            requires r2 < l2, l1 <= usize::MAX, l2 <= usize::MAX, usize::MAX <= u64::MAX;
    }
    q1 < q2 || (q1 == q2 && r1 * (l2 as u128) < r2 * (l1 as u128))
}

proof fn lemma_ratio_trans(a: int, x: int, b: int, y: int, e: int, z: int)
    requires
        x > 0,
        y > 0,
        z > 0,
        a * y < b * x,
        b * z <= e * y,
    ensures
        a * z < e * x,
{
    assert(a * y * z < b * x * z) by (nonlinear_arith) requires a * y < b * x, z > 0;
    assert(b * z * x <= e * y * x) by (nonlinear_arith) requires b * z <= e * y, x > 0;
    assert(a * z * y < e * x * y) by (nonlinear_arith)
        requires a * y * z < b * x * z, b * z * x <= e * y * x;
    assert(a * z < e * x) by (nonlinear_arith) requires a * z * y < e * x * y, y > 0;
}

proof fn lemma_insert_keeps_ranking(
    c: Seq<u8>,
    min_len: nat,
    l: usize,
    old_r: Seq<(usize, u128)>,
    p: int,
    d: u128,
)
    requires
        is_ranking(c, min_len, l as nat, old_r),
        min_len <= l,
        has_pairs(c.len(), l as nat),
        d == block_distance(c, l as nat),
        0 <= p <= old_r.len(),
        forall|i: int| 0 <= i < p ==> ranks_before(c, (#[trigger] old_r[i]).0 as nat, l as nat),
        p < old_r.len() ==> d * old_r[p].0 < old_r[p].1 * l,
    ensures
        is_ranking(c, min_len, (l + 1) as nat, old_r.insert(p, (l, d))),
{
    let new_r = old_r.insert(p, (l, d));
    assert forall|lp: nat| min_len <= lp < l + 1 && #[trigger] has_pairs(c.len(), lp) implies exists|
        i: int,
    | 0 <= i < new_r.len() && (#[trigger] new_r[i]).0 == lp by {
        if lp == l {
            assert(new_r[p].0 == lp);
        } else {
            let i = choose|i: int| 0 <= i < old_r.len() && (#[trigger] old_r[i]).0 == lp;
            if i < p {
                assert(new_r[i].0 == lp);
            } else {
                assert(new_r[i + 1].0 == lp);
            }
        }
    }
    assert forall|i: int, j: int| 0 <= i < j < new_r.len() implies ranks_before(
        c,
        (#[trigger] new_r[i]).0 as nat,
        (#[trigger] new_r[j]).0 as nat,
    ) by {
        if j < p {
            assert(ranks_before(c, old_r[i].0 as nat, old_r[j].0 as nat));
        } else if j == p {
            assert(ranks_before(c, old_r[i].0 as nat, l as nat));
        } else if i < p {
            assert(ranks_before(c, old_r[i].0 as nat, old_r[j - 1].0 as nat));
        } else if i == p {
            let e = old_r[j - 1];
            let f = old_r[p];
            assert(e.1 == block_distance(c, e.0 as nat));
            assert(f.1 == block_distance(c, f.0 as nat));
            if j - 1 > p {
                assert(ranks_before(c, f.0 as nat, e.0 as nat));
                lemma_ratio_trans(d as int, l as int, f.1 as int, f.0 as int, e.1 as int, e.0 as int);
            }
        } else {
            assert(ranks_before(c, old_r[i - 1].0 as nat, old_r[j - 1].0 as nat));
        }
    }
}

/// Whether some entry of `r` is for length `l`.
pub open spec fn lists_length(r: Seq<(usize, u128)>, l: nat) -> bool {
    exists|j: int| 0 <= j < r.len() && (#[trigger] r[j]).0 == l
}

/// Every entry holds its length's summed distance, and each entry ranks
/// before every later one.
pub open spec fn sorted_by_rank(c: Seq<u8>, r: Seq<(usize, u128)>) -> bool {
    &&& forall|i: int| 0 <= i < r.len() ==> (#[trigger] r[i]).1 == block_distance(c, r[i].0 as nat)
    &&& forall|i: int, j: int|
        0 <= i < j < r.len() ==> ranks_before(c, (#[trigger] r[i]).0 as nat, (#[trigger] r[j]).0 as nat)
}

proof fn lemma_tail_sorted(c: Seq<u8>, r: Seq<(usize, u128)>)
    requires
        r.len() > 0,
        sorted_by_rank(c, r),
    ensures
        sorted_by_rank(c, r.drop_first()),
        forall|l: nat| #[trigger] lists_length(r.drop_first(), l) ==> lists_length(r, l) && l != r[0].0,
        forall|l: nat| #[trigger] lists_length(r, l) && l != r[0].0 ==> lists_length(r.drop_first(), l),
{
    let t = r.drop_first();
    assert forall|i: int, j: int| 0 <= i < j < t.len() implies ranks_before(c, (#[trigger] t[i]).0 as nat, (#[trigger] t[j]).0 as nat) by {
        assert(ranks_before(c, r[i + 1].0 as nat, r[j + 1].0 as nat));
    }
    assert forall|i: int| 0 <= i < t.len() implies (#[trigger] t[i]).1 == block_distance(c, t[i].0 as nat) by {
        assert(r[i + 1] == t[i]);
    }
    assert forall|l: nat| #[trigger] lists_length(t, l) implies lists_length(r, l) && l != r[0].0 by {
        let j = choose|j: int| 0 <= j < t.len() && (#[trigger] t[j]).0 == l;
        assert(r[j + 1].0 == l);
        assert(ranks_before(c, r[0].0 as nat, r[j + 1].0 as nat));
    }
    assert forall|l: nat| #[trigger] lists_length(r, l) && l != r[0].0 implies lists_length(t, l) by {
        let j = choose|j: int| 0 <= j < r.len() && (#[trigger] r[j]).0 == l;
        assert(t[j - 1].0 == l);
    }
}

proof fn lemma_sorted_by_rank_unique(c: Seq<u8>, r1: Seq<(usize, u128)>, r2: Seq<(usize, u128)>)
    requires
        sorted_by_rank(c, r1),
        sorted_by_rank(c, r2),
        forall|l: nat|
            #![trigger lists_length(r1, l)]
            #![trigger lists_length(r2, l)]
            lists_length(r1, l) <==> lists_length(r2, l),
    ensures
        r1 == r2,
    decreases r1.len(),
{
    if r1.len() == 0 {
        if r2.len() > 0 {
            assert(lists_length(r2, r2[0].0 as nat));
        }
        assert(r1 =~= r2);
    } else {
        assert(lists_length(r1, r1[0].0 as nat));
        assert(r2.len() > 0);
        assert(lists_length(r2, r2[0].0 as nat));
        let j0 = choose|j: int| 0 <= j < r2.len() && (#[trigger] r2[j]).0 == r1[0].0;
        let i0 = choose|i: int| 0 <= i < r1.len() && (#[trigger] r1[i]).0 == r2[0].0;
        if j0 > 0 && i0 > 0 {
            assert(ranks_before(c, r2[0].0 as nat, r2[j0].0 as nat));
            assert(ranks_before(c, r1[0].0 as nat, r1[i0].0 as nat));
        }
        assert(r1[0].0 == r2[0].0);
        assert(r1[0] == r2[0]);
        lemma_tail_sorted(c, r1);
        lemma_tail_sorted(c, r2);
        let t1 = r1.drop_first();
        let t2 = r2.drop_first();
        assert forall|l: nat|
            #![trigger lists_length(t1, l)]
            #![trigger lists_length(t2, l)]
            lists_length(t1, l) <==> lists_length(t2, l) by {
            if lists_length(t1, l) {
                assert(lists_length(r1, l));
            }
            if lists_length(t2, l) {
                assert(lists_length(r2, l));
            }
        }
        lemma_sorted_by_rank_unique(c, t1, t2);
        assert(r1 =~= seq![r1[0]] + t1);
        assert(r2 =~= seq![r2[0]] + t2);
    }
}

/// There is only one ranking of the key lengths of a ciphertext.
pub proof fn lemma_ranking_is_unique(
    c: Seq<u8>,
    min_len: nat,
    max_len: nat,
    r1: Seq<(usize, u128)>,
    r2: Seq<(usize, u128)>,
)
    requires
        is_ranking(c, min_len, max_len, r1),
        is_ranking(c, min_len, max_len, r2),
    ensures
        r1 == r2,
{
    assert forall|l: nat|
        #![trigger lists_length(r1, l)]
        #![trigger lists_length(r2, l)]
        lists_length(r1, l) <==> lists_length(r2, l) by {
        if lists_length(r1, l) {
            let i = choose|i: int| 0 <= i < r1.len() && (#[trigger] r1[i]).0 == l;
            assert(has_pairs(c.len(), r1[i].0 as nat));
        }
        if lists_length(r2, l) {
            let i = choose|i: int| 0 <= i < r2.len() && (#[trigger] r2[i]).0 == l;
            assert(has_pairs(c.len(), r2[i].0 as nat));
        }
    }
    assert(sorted_by_rank(c, r1));
    assert(sorted_by_rank(c, r2));
    lemma_sorted_by_rank_unique(c, r1, r2);
}

/// Ranks every candidate key length in `[min_len, max_len)` that leaves at
/// least two whole blocks by its normalised Hamming distance (summed over
/// all pairs among the first four blocks, divided by the length), best
/// first; equal distances keep the shorter length first. Lengths with fewer
/// than two blocks are left out.
pub fn estimate_key_length(ciphertext: &[u8], min_len: usize, max_len: usize) -> (r: Vec<(usize, u128)>)
    requires
        min_len >= 1,
    ensures
        is_ranking(ciphertext@, min_len as nat, max_len as nat, r@),
{
    let mut ranked: Vec<(usize, u128)> = Vec::new();
    if min_len >= max_len {
        return ranked;
    }
    let n: usize = ciphertext.len();
    let mut l: usize = min_len;
    while l < max_len
        invariant
            1 <= min_len <= l <= max_len,
            n == ciphertext@.len(),
            is_ranking(ciphertext@, min_len as nat, l as nat, ranked@),
        decreases max_len - l,
    {
        if l <= n / 2 {
            let d = blocks_distance(ciphertext, l);
            let mut p: usize = 0;
            let mut found = false;
            while p < ranked.len() && !found
                invariant
                    p <= ranked@.len(),
                    1 <= min_len <= l,
                    d == block_distance(ciphertext@, l as nat),
                    is_ranking(ciphertext@, min_len as nat, l as nat, ranked@),
                    forall|i: int|
                        0 <= i < p ==> ranks_before(
                            ciphertext@,
                            (#[trigger] ranked@[i]).0 as nat,
                            l as nat,
                        ),
                    found ==> p < ranked@.len() && d * ranked@[p as int].0 < ranked@[p as int].1 * l,
                decreases ranked@.len() - p + (if found { 0int } else { 1int }),
            {
                let e = ranked[p];
                assert(e.1 == block_distance(ciphertext@, e.0 as nat));
                let less = ratio_less(d, l, e.1, e.0);
                if less {
                    found = true;
                } else {
                    p = p + 1;
                }
            }
            proof {
                lemma_insert_keeps_ranking(ciphertext@, min_len as nat, l, ranked@, p as int, d);
            }
            ranked.insert(p, (l, d));
        } else {
            assert(!has_pairs(ciphertext@.len(), l as nat));
            assert(is_ranking(ciphertext@, min_len as nat, (l + 1) as nat, ranked@));
        }
        l = l + 1;
    }
    ranked
}

/// Number of positions `p < n` with `p % l == i`, for `i < l`.
pub open spec fn column_len(n: nat, l: nat, i: nat) -> nat {
    if i < n {
        ((n - 1 - i) as nat / l + 1) as nat
    } else {
        0
    }
}

/// The bytes of `c` at positions congruent to `i` modulo `l`, in order.
pub open spec fn column(c: Seq<u8>, l: nat, i: nat) -> Seq<u8> {
    Seq::new(column_len(c.len(), l, i), |t: int| c[i + t * l])
}

/// The key of length `l` assembled from the single-byte key of each column.
pub open spec fn recovered_key(c: Seq<u8>, l: nat) -> Seq<u8> {
    Seq::new(l, |i: int| best_key(column(c, l, i as nat)))
}

/// Score of the whole plaintext under the key recovered for length `l`.
pub open spec fn key_score(c: Seq<u8>, l: nat) -> nat {
    score_of(xor_with_key_spec(c, recovered_key(c, l)))
}

/// Index of the first of the first `n` lengths whose recovered key gives the
/// highest plaintext score among them.
pub open spec fn best_length_upto(c: Seq<u8>, lens: Seq<usize>, n: nat) -> nat
    decreases n,
{
    if n <= 1 {
        0
    } else {
        let prev = best_length_upto(c, lens, (n - 1) as nat);
        if key_score(c, lens[n - 1] as nat) > key_score(c, lens[prev as int] as nat) {
            (n - 1) as nat
        } else {
            prev
        }
    }
}

/// Gathers column `i` of `c` for a key of length `l`.
pub fn transpose_column(c: &[u8], l: usize, i: usize) -> (col: Vec<u8>)
    requires
        0 < l,
        i < l,
    ensures
        col@ == column(c@, l as nat, i as nat),
{
    let n: usize = c.len();
    let mut col: Vec<u8> = Vec::new();
    let mut p: usize = i;
    let mut more: bool = i < n;
    let ghost mut t: nat = 0;
    while more
        invariant
            n == c@.len(),
            0 < l,
            i < l,
            more ==> p == i + t * l && p < n,
            !more ==> (t == 0 && i >= n) || (t > 0 && i + (t - 1) * l < n && i + t * l >= n),
            col@ =~= Seq::new(t, |k: int| c@[i + k * l]),
        decreases n - p + (if more { 1int } else { 0int }),
    {
        col.push(c[p]);
        proof {
            assert((t + 1) * l == t * l + l) by (nonlinear_arith);
            assert(i + (t + 1 - 1) * l == i + t * l);
        }
        if n - p <= l {
            more = false;
        } else {
            p = p + l;
        }
        proof {
            t = t + 1;
            assert(col@ =~= Seq::new(t, |k: int| c@[i + k * l]));
        }
    }
    proof {
        if i < n {
            assert(t > 0);
            let x = (n - 1 - i) as int;
            assert(t * l == (t - 1) * l + l) by (nonlinear_arith) requires t > 0;
            assert(x == (t - 1) * l + (x - (t - 1) * l));
            assert(0 <= x - (t - 1) * l < l);
            vstd::arithmetic::div_mod::lemma_fundamental_div_mod_converse(
                x,
                l as int,
                (t - 1) as int,
                x - (t - 1) * l,
            );
        } else {
            assert(t == 0);
        }
    }
    col
}

/// Assembles the key of length `l` from the single-byte key recovered for
/// each column.
pub fn recover_key(c: &[u8], l: usize) -> (key: Vec<u8>)
    requires
        l > 0,
    ensures
        key@ == recovered_key(c@, l as nat),
{
    let mut key: Vec<u8> = Vec::new();
    let mut i: usize = 0;
    while i < l
        invariant
            i <= l,
            key@ =~= recovered_key(c@, l as nat).take(i as int),
        decreases l - i,
    {
        let col = transpose_column(c, l, i);
        let (_, k, _) = single_byte_xor_cipher(col.as_slice());
        key.push(k);
        assert(key@ =~= recovered_key(c@, l as nat).take(i + 1));
        i = i + 1;
    }
    assert(key@ =~= recovered_key(c@, l as nat));
    key
}

/// Recovers a key for each candidate length, decrypts `c` with it, and keeps
/// the first key whose whole plaintext scores highest; gives that key and
/// plaintext.
pub fn break_with_lengths(c: &[u8], lengths: &[usize]) -> (r: (Vec<u8>, Vec<u8>))
    requires
        lengths@.len() > 0,
        forall|i: int| 0 <= i < lengths@.len() ==> #[trigger] lengths@[i] > 0,
    ensures
        r.0@ == recovered_key(
            c@,
            lengths@[best_length_upto(c@, lengths@, lengths@.len() as nat) as int] as nat,
        ),
        r.1@ == xor_with_key_spec(c@, r.0@),
{
    let mut best_key_bytes = recover_key(c, lengths[0]);
    let mut best_plain = xor_with_key(c, best_key_bytes.as_slice());
    let mut best = score(best_plain.as_slice());
    let ghost mut best_idx: nat = 0;
    let mut j: usize = 1;
    while j < lengths.len()
        invariant
            1 <= j <= lengths@.len(),
            forall|i: int| 0 <= i < lengths@.len() ==> #[trigger] lengths@[i] > 0,
            best_idx == best_length_upto(c@, lengths@, j as nat),
            best_idx < j,
            best_key_bytes@ == recovered_key(c@, lengths@[best_idx as int] as nat),
            best_plain@ == xor_with_key_spec(c@, best_key_bytes@),
            best == key_score(c@, lengths@[best_idx as int] as nat),
        decreases lengths@.len() - j,
    {
        let key = recover_key(c, lengths[j]);
        let plain = xor_with_key(c, key.as_slice());
        let s = score(plain.as_slice());
        if s > best {
            best_key_bytes = key;
            best_plain = plain;
            best = s;
            proof {
                best_idx = j as nat;
            }
        }
        j = j + 1;
    }
    (best_key_bytes, best_plain)
}

/// The ciphertext is too short for any candidate key length.
#[derive(Debug, Clone, Copy, PartialEq, Eq, Structural)]
pub struct InsufficientDataError;

/// Shortest candidate key length tried.
pub const MIN_KEY_LEN: usize = 2;

/// One past the longest candidate key length tried.
pub const MAX_KEY_LEN: usize = 40;

/// Number of best-ranked key lengths for which a key is recovered.
pub const TOP_LENGTHS: usize = 3;

/// The lengths of the first (up to three) entries of a ranking.
pub open spec fn top_lengths(ranking: Seq<(usize, u128)>) -> Seq<usize> {
    let m = if ranking.len() < 3 { ranking.len() } else { 3 };
    Seq::new(m, |i: int| ranking[i].0)
}

/// Breaks repeating-key XOR: ranks key lengths 2 to 39, recovers a key for
/// each of the three best ranked, and keeps the one whose plaintext scores
/// highest (the better ranked on ties); gives that key and plaintext.
pub fn break_repeating_key_xor(ciphertext: &[u8]) -> (r: Result<
    (Vec<u8>, Vec<u8>),
    InsufficientDataError,
>)
    ensures
        r is Err <==> ciphertext@.len() < 4,
        exists|ranking: Seq<(usize, u128)>| #[trigger] is_ranking(ciphertext@, 2, 40, ranking),
        r is Ok ==> forall|ranking: Seq<(usize, u128)>|
            #[trigger] is_ranking(ciphertext@, 2, 40, ranking) ==> {
                let lens = top_lengths(ranking);
                let (key, plain) = r->Ok_0;
                &&& key@ == recovered_key(
                    ciphertext@,
                    lens[best_length_upto(ciphertext@, lens, lens.len()) as int] as nat,
                )
                &&& plain@ == xor_with_key_spec(ciphertext@, key@)
            },
{
    let ranked = estimate_key_length(ciphertext, MIN_KEY_LEN, MAX_KEY_LEN);
    if ranked.len() == 0 {
        proof {
            if ciphertext@.len() >= 4 {
                assert(has_pairs(ciphertext@.len(), 2));
            }
        }
        return Err(InsufficientDataError);
    }
    proof {
        assert(has_pairs(ciphertext@.len(), ranked@[0].0 as nat));
    }
    let mut lens: Vec<usize> = Vec::new();
    let mut i: usize = 0;
    while i < ranked.len() && i < TOP_LENGTHS
        invariant
            i <= ranked@.len(),
            i <= 3,
            is_ranking(ciphertext@, 2, 40, ranked@),
            lens@ =~= Seq::new(i as nat, |k: int| ranked@[k].0),
        decreases 3 - i,
    {
        lens.push(ranked[i].0);
        i = i + 1;
    }
    assert(lens@ =~= top_lengths(ranked@));
    assert forall|k: int| 0 <= k < lens@.len() implies #[trigger] lens@[k] > 0 by {
        assert(ranked@[k].0 >= 2);
    }
    let (key, plain) = break_with_lengths(ciphertext, lens.as_slice());
    assert forall|ranking: Seq<(usize, u128)>|
        #[trigger] is_ranking(ciphertext@, 2, 40, ranking) implies ranking == ranked@ by {
        lemma_ranking_is_unique(ciphertext@, 2, 40, ranking, ranked@);
    }
    Ok((key, plain))
}

} // verus!
