//! Completing a partial assignment: the ciphertext letters that are still free
//! are visited in a cyclic scan of the alphabet, and receive the plaintext
//! letters that come after those of the bound ones, in order.
use crate::mapping::{
    bound_below, cipher_letter, is_cipher_letter, is_plain_letter, lemma_bound_below_range,
    plain_letter, size, Mapping,
};
use vstd::prelude::*;

verus! {

/// The ciphertext letter with number `i` is not bound in `m`.
pub open spec fn is_free(m: Map<u8, u8>, i: int) -> bool {
    !m.dom().contains(cipher_letter(i))
}

/// The number of the letter that a scan from `offset` visits in step `d`.
pub open spec fn scan_letter(offset: int, d: int) -> int {
    (offset + d) % 26
}

/// The step in which a scan from `offset` visits the letter with number `i`.
pub open spec fn scan_step(offset: int, i: int) -> int {
    (i - offset) % 26
}

/// How many free letters a scan from `offset` visits in its first `d` steps.
pub open spec fn free_before(m: Map<u8, u8>, offset: int, d: int) -> int
    decreases d,
{
    if d <= 0 {
        0
    } else {
        free_before(m, offset, d - 1) + if is_free(m, scan_letter(offset, d - 1)) {
            1int
        } else {
            0int
        }
    }
}

/// The plaintext letter of the ciphertext letter `c` once `m` is completed by
/// a scan from `offset`: a bound letter keeps its plaintext letter, and the
/// free ones share out the letters from number `size(m)` on, in scan order.
pub open spec fn completed_letter(m: Map<u8, u8>, offset: int, c: u8) -> u8 {
    if m.dom().contains(c) {
        m[c]
    } else {
        plain_letter(share(m, offset, c))
    }
}

/// The number of the plaintext letter that the free ciphertext letter `c`
/// receives: the bound letters come first, then the free ones in scan order.
pub open spec fn share(m: Map<u8, u8>, offset: int, c: u8) -> int {
    size(m) + free_before(m, offset, scan_step(offset, c - 0x41))
}

/// The completion gives the plaintext letter `l` to a ciphertext letter that
/// was free in `m`.
pub open spec fn is_given_out(m: Map<u8, u8>, offset: int, l: u8) -> bool {
    exists|c: u8|
        is_cipher_letter(c) && !m.dom().contains(c) && #[trigger] completion(m, offset)[c] == l
}

/// A full substitution alphabet: every ciphertext letter stands for a
/// plaintext letter, no two for the same, and every plaintext letter is stood
/// for.
pub open spec fn is_cipher_disk(m: Map<u8, u8>) -> bool {
    &&& forall|c: u8| m.dom().contains(c) <==> is_cipher_letter(c)
    &&& forall|c: u8| is_cipher_letter(c) ==> is_plain_letter(#[trigger] m[c])
    &&& forall|a: u8, b: u8|
        is_cipher_letter(a) && is_cipher_letter(b) && #[trigger] m[a] == #[trigger] m[b] ==> a == b
    &&& forall|l: u8|
        is_plain_letter(l) ==> exists|c: u8| is_cipher_letter(c) && #[trigger] m[c] == l
}

/// `m` completed by a scan from `offset`: every ciphertext letter is bound.
pub open spec fn completion(m: Map<u8, u8>, offset: int) -> Map<u8, u8> {
    Map::new(|c: u8| is_cipher_letter(c), |c: u8| completed_letter(m, offset, c))
}

/// The completion as it stands after `d` steps of the scan.
pub open spec fn completion_upto(m: Map<u8, u8>, offset: int, d: int) -> Map<u8, u8> {
    Map::new(
        |c: u8| is_cipher_letter(c) && (m.dom().contains(c) || scan_step(offset, c - 0x41) < d),
        |c: u8| completed_letter(m, offset, c),
    )
}

/// How many letters with a number in `lo..hi` are free.
pub open spec fn free_range(m: Map<u8, u8>, lo: int, hi: int) -> int
    decreases hi - lo,
{
    if hi <= lo {
        0
    } else {
        free_range(m, lo, hi - 1) + if is_free(m, hi - 1) {
            1int
        } else {
            0int
        }
    }
}

proof fn lemma_free_range_split(m: Map<u8, u8>, lo: int, mid: int, hi: int)
    requires
        lo <= mid <= hi,
    ensures
        free_range(m, lo, hi) == free_range(m, lo, mid) + free_range(m, mid, hi),
    decreases hi - mid,
{
    if mid < hi {
        lemma_free_range_split(m, lo, mid, hi - 1);
    }
}

proof fn lemma_free_plus_bound(m: Map<u8, u8>, n: int)
    requires
        0 <= n,
    ensures
        free_range(m, 0, n) + bound_below(m, n) == n,
    decreases n,
{
    if n > 0 {
        lemma_free_plus_bound(m, n - 1);
    }
}

proof fn lemma_free_before_window(m: Map<u8, u8>, offset: int, d: int)
    requires
        0 <= offset < 26,
        0 <= d <= 26,
    ensures
        free_before(m, offset, d) == (if offset + d <= 26 {
            free_range(m, offset, offset + d)
        } else {
            free_range(m, offset, 26) + free_range(m, 0, offset + d - 26)
        }),
    decreases d,
{
    if d > 0 {
        lemma_free_before_window(m, offset, d - 1);
        if offset + d <= 26 {
            assert(scan_letter(offset, d - 1) == offset + d - 1);
        } else {
            assert(scan_letter(offset, d - 1) == offset + d - 1 - 26);
        }
    }
}

/// A full scan visits every free letter once: with the bound letters they are
/// the whole alphabet.
pub proof fn lemma_free_total(m: Map<u8, u8>, offset: int)
    requires
        0 <= offset < 26,
    ensures
        free_before(m, offset, 26) + size(m) == 26,
{
    lemma_free_before_window(m, offset, 26);
    lemma_free_range_split(m, 0, offset, 26);
    lemma_free_plus_bound(m, 26);
}

/// The count of free letters visited never falls, and rises at a free letter.
pub proof fn lemma_free_before_grows(m: Map<u8, u8>, offset: int, d1: int, d2: int)
    requires
        0 <= d1 <= d2,
    ensures
        free_before(m, offset, d1) <= free_before(m, offset, d2),
        d1 < d2 && is_free(m, scan_letter(offset, d1)) ==> free_before(m, offset, d1)
            < free_before(m, offset, d2),
    decreases d2 - d1,
{
    if d1 < d2 {
        lemma_free_before_grows(m, offset, d1, d2 - 1);
    }
}

/// Steps and letters of a scan correspond one to one.
pub proof fn lemma_scan_round_trip(offset: int, i: int)
    requires
        0 <= offset < 26,
        0 <= i < 26,
    ensures
        0 <= scan_step(offset, i) < 26,
        0 <= scan_letter(offset, i) < 26,
        scan_letter(offset, scan_step(offset, i)) == i,
        scan_step(offset, scan_letter(offset, i)) == i,
{
    if i >= offset {
        assert(scan_step(offset, i) == i - offset);
    } else {
        assert(scan_step(offset, i) == i - offset + 26);
    }
    if offset + i < 26 {
        assert(scan_letter(offset, i) == offset + i);
    } else {
        assert(scan_letter(offset, i) == offset + i - 26);
    }
}

/// A free letter receives a plaintext letter that comes after those of the
/// bound letters, and within the alphabet.
pub proof fn lemma_share_range(m: Map<u8, u8>, offset: int, c: u8)
    requires
        0 <= offset < 26,
        is_cipher_letter(c),
        !m.dom().contains(c),
    ensures
        0 <= size(m) <= share(m, offset, c) < 26,
{
    lemma_bound_below_range(m, 26);
    let d = scan_step(offset, c - 0x41);
    lemma_scan_round_trip(offset, c - 0x41);
    lemma_free_before_grows(m, offset, 0, d);
    lemma_free_before_grows(m, offset, d, 26);
    lemma_free_total(m, offset);
}

/// Two free letters never receive the same plaintext letter.
pub proof fn lemma_share_injective(m: Map<u8, u8>, offset: int, a: u8, b: u8)
    requires
        0 <= offset < 26,
        is_cipher_letter(a),
        is_cipher_letter(b),
        !m.dom().contains(a),
        !m.dom().contains(b),
        a != b,
    ensures
        share(m, offset, a) != share(m, offset, b),
{
    let da = scan_step(offset, a - 0x41);
    let db = scan_step(offset, b - 0x41);
    lemma_scan_round_trip(offset, a - 0x41);
    lemma_scan_round_trip(offset, b - 0x41);
    if da < db {
        lemma_free_before_grows(m, offset, da, db);
    } else {
        lemma_free_before_grows(m, offset, db, da);
    }
}

proof fn lemma_find_step(m: Map<u8, u8>, offset: int, rank: int, limit: int) -> (d: int)
    requires
        0 <= rank < free_before(m, offset, limit),
    ensures
        0 <= d < limit,
        is_free(m, scan_letter(offset, d)),
        free_before(m, offset, d) == rank,
    decreases limit,
{
    if free_before(m, offset, limit - 1) > rank {
        lemma_find_step(m, offset, rank, limit - 1)
    } else {
        limit - 1
    }
}

/// Every plaintext letter that comes after those of the bound letters is
/// received by some free letter.
pub proof fn lemma_share_onto(m: Map<u8, u8>, offset: int, i: int) -> (c: u8)
    requires
        0 <= offset < 26,
        size(m) <= i < 26,
    ensures
        is_cipher_letter(c),
        !m.dom().contains(c),
        share(m, offset, c) == i,
{
    lemma_free_total(m, offset);
    let d = lemma_find_step(m, offset, i - size(m), 26);
    let c = cipher_letter(scan_letter(offset, d));
    lemma_scan_round_trip(offset, d);
    c
}

/// Completing shares the remaining plaintext letters out among the free
/// ciphertext letters, each to exactly one: the completion binds every
/// ciphertext letter, leaves the bound ones as they were, and is a one-to-one
/// correspondence between the free letters and the plaintext letters from
/// number `size(m)` on.
pub proof fn lemma_completion_shares_out(m: Map<u8, u8>, offset: int)
    requires
        0 <= offset < 26,
    ensures
        forall|c: u8| completion(m, offset).dom().contains(c) <==> is_cipher_letter(c),
        forall|c: u8|
            is_cipher_letter(c) && m.dom().contains(c) ==> #[trigger] completion(m, offset)[c]
                == m[c],
        forall|c: u8|
            is_cipher_letter(c) && !m.dom().contains(c) ==> #[trigger] completion(m, offset)[c]
                == plain_letter(share(m, offset, c)) && size(m) <= share(m, offset, c) < 26,
        forall|a: u8, b: u8|
            is_cipher_letter(a) && is_cipher_letter(b) && !m.dom().contains(a) && !m.dom().contains(
                b,
            ) && #[trigger] completion(m, offset)[a] == #[trigger] completion(m, offset)[b] ==> a
                == b,
        forall|i: int| size(m) <= i < 26 ==> is_given_out(m, offset, #[trigger] plain_letter(i)),
{
    let done = completion(m, offset);
    assert forall|c: u8| is_cipher_letter(c) && !m.dom().contains(c) implies #[trigger] done[c]
        == plain_letter(share(m, offset, c)) && size(m) <= share(m, offset, c) < 26 by {
        lemma_share_range(m, offset, c);
    }
    assert forall|a: u8, b: u8|
        is_cipher_letter(a) && is_cipher_letter(b) && !m.dom().contains(a) && !m.dom().contains(b)
            && #[trigger] done[a] == #[trigger] done[b] implies a == b by {
        if a != b {
            lemma_share_range(m, offset, a);
            lemma_share_range(m, offset, b);
            lemma_share_injective(m, offset, a, b);
        }
    }
    assert forall|i: int| size(m) <= i < 26 implies is_given_out(
        m,
        offset,
        #[trigger] plain_letter(i),
    ) by {
        let c = lemma_share_onto(m, offset, i);
        assert(done[c] == plain_letter(i));
    }
}

/// One step of the scan: the letter visited in step `d` is bound to the next
/// plaintext letter if it was free, and nothing else changes.
proof fn lemma_completion_step(m: Map<u8, u8>, offset: int, d: int)
    requires
        0 <= offset < 26,
        0 <= d < 26,
    ensures
        ({
            let c = cipher_letter(scan_letter(offset, d));
            let so_far = completion_upto(m, offset, d);
            let number = size(m) + free_before(m, offset, d);
            if m.dom().contains(c) {
                completion_upto(m, offset, d + 1) == so_far
            } else {
                &&& !so_far.dom().contains(c)
                &&& 0 <= number < 26
                &&& completion_upto(m, offset, d + 1) == so_far.insert(c, plain_letter(number))
            }
        }),
{
    let c = cipher_letter(scan_letter(offset, d));
    let so_far = completion_upto(m, offset, d);
    let next = completion_upto(m, offset, d + 1);
    lemma_scan_round_trip(offset, d);
    assert(is_cipher_letter(c) && c - 0x41 == scan_letter(offset, d));
    assert forall|b: u8| is_cipher_letter(b) implies (scan_step(offset, b - 0x41) == d <==> b
        == c) by {
        lemma_scan_round_trip(offset, b - 0x41);
    }
    if m.dom().contains(c) {
        assert(next =~= so_far);
    } else {
        lemma_share_range(m, offset, c);
        assert(next =~= so_far.insert(c, plain_letter(size(m) + free_before(m, offset, d))));
    }
}

/// Completes `mapping` by a scan that starts at the letter with number
/// `offset`.
pub fn complete(mapping: &Mapping, offset: u8) -> (r: Mapping)
    requires
        mapping.wf(),
        offset < 26,
    ensures
        r.wf(),
        r@ == completion(mapping@, offset as int),
{
    let ghost m = mapping@;
    let k: u8 = mapping.len();
    let mut result: Mapping = *mapping;
    let mut next: u8 = k;
    let mut d: u8 = 0;
    proof {
        mapping.lemma_dom();
        assert forall|b: u8| is_cipher_letter(b) implies scan_step(offset as int, b - 0x41)
            >= 0 by {
            lemma_scan_round_trip(offset as int, b - 0x41);
        }
        assert(result@ =~= completion_upto(m, offset as int, 0));
    }
    while d < 26
        invariant
            d <= 26,
            offset < 26,
            m == mapping@,
            result.wf(),
            k == size(m),
            next == k + free_before(m, offset as int, d as int),
            result@ == completion_upto(m, offset as int, d as int),
        decreases 26 - d,
    {
        let i: u8 = (offset + d) % 26;
        let c: u8 = 0x41 + i;
        proof {
            lemma_completion_step(m, offset as int, d as int);
            lemma_scan_round_trip(offset as int, d as int);
        }
        if mapping.get(c).is_none() {
            result = result.set(c, 0x61 + next).unwrap();
            next += 1;
        }
        d += 1;
    }
    proof {
        assert forall|b: u8| is_cipher_letter(b) implies scan_step(offset as int, b - 0x41)
            < 26 by {
            lemma_scan_round_trip(offset as int, b - 0x41);
        }
        assert(result@ =~= completion(m, offset as int));
    }
    result
}

} // verus!
