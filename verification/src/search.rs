//! The search: candidate assignments are tried by increasing prefix size, all
//! prefixes of one size in parallel, and the first one whose completion decodes
//! every token to a dictionary word is the answer.
use crate::completion::{
    complete, completion, is_cipher_disk, lemma_completion_shares_out, lemma_share_onto,
};
use crate::mapping::{
    cipher_letter, decode, is_cipher_letter, is_plain_letter, lemma_bound_below_empty,
    lemma_bound_below_insert, plain_letter, size, Mapping,
};
use crate::text::{split_spaces, split_tokens, views, SPACE};
use crate::words::{in_index, WordIndex};
use itertools::structs::Permutations;
use itertools::Itertools;
use rayon::iter::{ParallelBridge, ParallelIterator};
use std::ops::Range;
use vstd::prelude::*;

verus! {

/// A selection from the numbers `lo..hi`: none of them occurs twice.
pub open spec fn is_selection(p: Seq<u8>, lo: u8, hi: u8) -> bool {
    &&& forall|i: int| 0 <= i < p.len() ==> lo <= #[trigger] p[i] < hi
    &&& forall|i: int, j: int| 0 <= i < j < p.len() ==> p[i] != p[j]
}

/// A prefix: numbers of ciphertext letters, none of them twice. The letter at
/// position `i` stands for the plaintext letter with number `i`.
pub open spec fn is_arrangement(p: Seq<u8>) -> bool {
    p.len() <= 26 && is_selection(p, 0, 26)
}

/// The assignment that a prefix stands for: the ciphertext letter with number
/// `p[i]` is bound to the plaintext letter with number `i`.
pub open spec fn prefix_map(p: Seq<u8>) -> Map<u8, u8> {
    Map::new(
        |c: u8| exists|i: int| 0 <= i < p.len() && cipher_letter(#[trigger] p[i] as int) == c,
        |c: u8| plain_letter(choose|i: int| 0 <= i < p.len() && cipher_letter(#[trigger] p[i] as int) == c),
    )
}

/// Every token, decoded with `m`, is in the dictionary bucket for its length.
pub open spec fn solves(m: Map<u8, u8>, tokens: Seq<Seq<u8>>, index: Seq<Set<Seq<u8>>>) -> bool {
    forall|i: int|
        0 <= i < tokens.len() ==> in_index(index, decode(m, #[trigger] tokens[i]))
}

/// Each token decoded on its own.
pub open spec fn decode_each(m: Map<u8, u8>, tokens: Seq<Seq<u8>>) -> Seq<Seq<u8>> {
    Seq::new(tokens.len(), |i: int| decode(m, tokens[i]))
}

/// Decoding and cutting at the spaces can be done in either order, as long as
/// no ciphertext letter is bound to a space (none is in a well-formed
/// [`Mapping`]): the tokens of the decoded text are the decoded tokens of the
/// text.
pub proof fn lemma_decode_then_split(m: Map<u8, u8>, text: Seq<u8>)
    requires
        forall|c: u8| m.dom().contains(c) ==> m[c] != SPACE,
    ensures
        split_spaces(decode(m, text)) == decode_each(m, split_spaces(text)),
    decreases text.len(),
{
    let plain = decode(m, text);
    if text.len() == 0 {
        assert(decode(m, Seq::<u8>::empty()) =~= Seq::<u8>::empty());
        assert(split_spaces(plain) =~= decode_each(m, split_spaces(text)));
    } else {
        let front = text.drop_last();
        lemma_decode_then_split(m, front);
        assert(plain.drop_last() =~= decode(m, front));
        assert(plain.last() == crate::mapping::decode_byte(m, text.last()));
        let head = split_spaces(front);
        crate::text::lemma_split_nonempty(front);
        if text.last() == SPACE {
            assert(plain.last() == SPACE);
            assert(decode(m, Seq::<u8>::empty()) =~= Seq::<u8>::empty());
            assert(split_spaces(plain) =~~= decode_each(m, split_spaces(text)));
        } else {
            assert(plain.last() != SPACE);
            assert(decode(m, head.last().push(text.last())) =~= decode(m, head.last()).push(
                plain.last(),
            ));
            assert(split_spaces(plain) =~~= decode_each(m, split_spaces(text)));
        }
    }
}

/// The completion of `base` by the first scan offset from `from` on that
/// solves the tokens, if there is one.
pub open spec fn first_solution(
    base: Map<u8, u8>,
    tokens: Seq<Seq<u8>>,
    index: Seq<Set<Seq<u8>>>,
    from: int,
) -> Option<Map<u8, u8>>
    decreases 26 - from,
{
    if from >= 26 {
        None
    } else if solves(completion(base, from), tokens, index) {
        Some(completion(base, from))
    } else {
        first_solution(base, tokens, index, from + 1)
    }
}

/// What trying the prefix `p` yields: the first of its 26 completions that
/// solves the tokens.
pub open spec fn prefix_solution(p: Seq<u8>, tokens: Seq<Seq<u8>>, index: Seq<Set<Seq<u8>>>) -> Option<
    Map<u8, u8>,
> {
    first_solution(prefix_map(p), tokens, index, 0)
}

/// Some prefix of `k` letters has a completion that solves the tokens.
pub open spec fn solvable_at(k: int, tokens: Seq<Seq<u8>>, index: Seq<Set<Seq<u8>>>) -> bool {
    exists|p: Seq<u8>|
        p.len() == k && is_arrangement(p) && (#[trigger] prefix_solution(p, tokens, index)) is Some
}

/// `m` is what some prefix of `k` letters yields.
pub open spec fn found_at(k: int, m: Map<u8, u8>, tokens: Seq<Seq<u8>>, index: Seq<Set<Seq<u8>>>) -> bool {
    exists|p: Seq<u8>|
        p.len() == k && is_arrangement(p) && (#[trigger] prefix_solution(p, tokens, index)) == Some(m)
}

proof fn lemma_prefix_map_step(p: Seq<u8>, n: int)
    requires
        is_arrangement(p),
        0 <= n < p.len(),
    ensures
        !prefix_map(p.take(n)).dom().contains(cipher_letter(p[n] as int)),
        prefix_map(p.take(n + 1)) == prefix_map(p.take(n)).insert(
            cipher_letter(p[n] as int),
            plain_letter(n),
        ),
{
    let before = p.take(n);
    let after = p.take(n + 1);
    let c = cipher_letter(p[n] as int);
    let target = prefix_map(before).insert(c, plain_letter(n));
    assert forall|b: u8| prefix_map(after).dom().contains(b) <==> target.dom().contains(b) by {
        if prefix_map(after).dom().contains(b) {
            let i = choose|i: int| 0 <= i < after.len() && cipher_letter(#[trigger] after[i] as int) == b;
            if i < n {
                assert(cipher_letter(before[i] as int) == b);
            }
        }
        if prefix_map(before).dom().contains(b) {
            let i = choose|i: int| 0 <= i < before.len() && cipher_letter(#[trigger] before[i] as int) == b;
            assert(cipher_letter(after[i] as int) == b);
        }
        if b == c {
            assert(cipher_letter(after[n] as int) == b);
        }
    }
    assert forall|b: u8| prefix_map(after).dom().contains(b) implies prefix_map(after)[b] == target[b] by {
        let i = choose|i: int| 0 <= i < after.len() && cipher_letter(#[trigger] after[i] as int) == b;
        if b == c {
            assert(p[i] == p[n]);
        } else {
            let j = choose|j: int| 0 <= j < before.len() && cipher_letter(#[trigger] before[j] as int) == b;
            assert(cipher_letter(after[j] as int) == b);
            assert(p[i] == p[j]);
        }
    }
    assert(prefix_map(after) =~= target);
    if prefix_map(before).dom().contains(c) {
        let i = choose|i: int| 0 <= i < before.len() && cipher_letter(#[trigger] before[i] as int) == c;
        assert(p[i] == p[n]);
    }
}

/// A prefix binds the ciphertext letter at each of its positions to the
/// plaintext letter with the number of that position.
pub proof fn lemma_prefix_map_binds(p: Seq<u8>, i: int)
    requires
        is_arrangement(p),
        0 <= i < p.len(),
    ensures
        prefix_map(p).dom().contains(cipher_letter(p[i] as int)),
        prefix_map(p)[cipher_letter(p[i] as int)] == plain_letter(i),
{
    let c = cipher_letter(p[i] as int);
    let j = choose|j: int| 0 <= j < p.len() && cipher_letter(#[trigger] p[j] as int) == c;
    assert(p[j] == p[i]);
}

/// A prefix binds as many ciphertext letters as it is long.
pub proof fn lemma_prefix_map_size(p: Seq<u8>, n: int)
    requires
        is_arrangement(p),
        0 <= n <= p.len(),
    ensures
        size(prefix_map(p.take(n))) == n,
    decreases n,
{
    if n == 0 {
        lemma_bound_below_empty(prefix_map(p.take(0)), 26);
    } else {
        lemma_prefix_map_size(p, n - 1);
        lemma_prefix_map_step(p, n - 1);
        lemma_bound_below_insert(
            prefix_map(p.take(n - 1)),
            cipher_letter(p[n - 1] as int),
            plain_letter(n - 1),
            26,
        );
    }
}

/// Every completion of a prefix is a full substitution alphabet: the 26
/// plaintext letters are given out, each to exactly one ciphertext letter.
pub proof fn lemma_prefix_completion_is_disk(p: Seq<u8>, offset: int)
    requires
        is_arrangement(p),
        0 <= offset < 26,
    ensures
        is_cipher_disk(completion(prefix_map(p), offset)),
{
    let m = prefix_map(p);
    let done = completion(m, offset);
    lemma_prefix_map_size(p, p.len() as int);
    assert(p.take(p.len() as int) =~= p);
    lemma_completion_shares_out(m, offset);
    assert forall|c: u8| m.dom().contains(c) implies is_cipher_letter(c) && exists|i: int|
        0 <= i < p.len() && c == cipher_letter(#[trigger] p[i] as int) && m[c] == plain_letter(i) by {
        let i = choose|i: int| 0 <= i < p.len() && cipher_letter(#[trigger] p[i] as int) == c;
        lemma_prefix_map_binds(p, i);
    }
    assert forall|c: u8| is_cipher_letter(c) implies is_plain_letter(#[trigger] done[c]) by {
        if m.dom().contains(c) {
            let i = choose|i: int|
                0 <= i < p.len() && c == cipher_letter(#[trigger] p[i] as int) && m[c]
                    == plain_letter(i);
        }
    }
    assert forall|a: u8, b: u8|
        is_cipher_letter(a) && is_cipher_letter(b) && #[trigger] done[a] == #[trigger] done[b] implies a
        == b by {
        if m.dom().contains(a) {
            let i = choose|i: int|
                0 <= i < p.len() && a == cipher_letter(#[trigger] p[i] as int) && m[a]
                    == plain_letter(i);
            if m.dom().contains(b) {
                let j = choose|j: int|
                    0 <= j < p.len() && b == cipher_letter(#[trigger] p[j] as int) && m[b]
                        == plain_letter(j);
                assert(i == j);
            }
        } else if m.dom().contains(b) {
            let j = choose|j: int|
                0 <= j < p.len() && b == cipher_letter(#[trigger] p[j] as int) && m[b]
                    == plain_letter(j);
        }
    }
    assert forall|l: u8| is_plain_letter(l) implies exists|c: u8|
        is_cipher_letter(c) && #[trigger] done[c] == l by {
        let i = l - 0x61;
        if i < p.len() {
            lemma_prefix_map_binds(p, i);
            let c = cipher_letter(p[i] as int);
            assert(is_cipher_letter(c) && done[c] == l);
        } else {
            let c = lemma_share_onto(m, offset, i);
            assert(is_cipher_letter(c) && done[c] == l);
        }
    }
}

/// What [`first_solution`] picks: a completion that solves the tokens, by the
/// least scan offset from `from` on for which there is one.
pub proof fn lemma_first_solution(
    base: Map<u8, u8>,
    tokens: Seq<Seq<u8>>,
    index: Seq<Set<Seq<u8>>>,
    from: int,
)
    requires
        0 <= from,
    ensures
        match first_solution(base, tokens, index, from) {
            Some(m) => exists|offset: int|
                {
                    &&& from <= offset < 26
                    &&& m == #[trigger] completion(base, offset)
                    &&& solves(m, tokens, index)
                    &&& forall|o: int|
                        from <= o < offset ==> !solves(#[trigger] completion(base, o), tokens, index)
                },
            None => forall|o: int|
                from <= o < 26 ==> !solves(#[trigger] completion(base, o), tokens, index),
        },
    decreases 26 - from,
{
    if from < 26 && !solves(completion(base, from), tokens, index) {
        lemma_first_solution(base, tokens, index, from + 1);
        match first_solution(base, tokens, index, from) {
            Some(m) => {
                let offset = choose|offset: int|
                    {
                        &&& from + 1 <= offset < 26
                        &&& m == #[trigger] completion(base, offset)
                        &&& solves(m, tokens, index)
                        &&& forall|o: int|
                            from + 1 <= o < offset ==> !solves(
                                #[trigger] completion(base, o),
                                tokens,
                                index,
                            )
                    };
                assert(from <= offset < 26 && m == completion(base, offset));
            },
            None => {},
        }
    } else if from < 26 {
        assert(completion(base, from) == completion(base, from));
    }
}

/// Whatever the search finds is valid: it decodes every token to a word of
/// the dictionary bucket for its length, and it is a full substitution
/// alphabet.
pub proof fn lemma_found_is_solution(
    k: int,
    m: Map<u8, u8>,
    tokens: Seq<Seq<u8>>,
    index: Seq<Set<Seq<u8>>>,
)
    requires
        found_at(k, m, tokens, index),
    ensures
        solves(m, tokens, index),
        is_cipher_disk(m),
{
    let p = choose|p: Seq<u8>|
        p.len() == k && is_arrangement(p) && (#[trigger] prefix_solution(p, tokens, index))
            == Some(m);
    lemma_first_solution(prefix_map(p), tokens, index, 0);
    let offset = choose|offset: int|
        {
            &&& 0 <= offset < 26
            &&& m == #[trigger] completion(prefix_map(p), offset)
            &&& solves(m, tokens, index)
        };
    lemma_prefix_completion_is_disk(p, offset);
}

/// The dictionary has no word of `n` bytes.
pub open spec fn no_word_of_length(index: Seq<Set<Seq<u8>>>, n: nat) -> bool {
    n >= index.len() || forall|w: Seq<u8>| !index[n as int].contains(w)
}

/// Some token has a length of which the dictionary has no word.
pub open spec fn has_hopeless_token(tokens: Seq<Seq<u8>>, index: Seq<Set<Seq<u8>>>) -> bool {
    exists|i: int| 0 <= i < tokens.len() && no_word_of_length(index, (#[trigger] tokens[i]).len())
}

/// A token of a length of which the dictionary has no word cannot be decoded
/// to a word, whatever the assignment: nothing solves such tokens, and no
/// prefix of any size yields a solution.
pub proof fn lemma_hopeless_token(tokens: Seq<Seq<u8>>, index: Seq<Set<Seq<u8>>>)
    requires
        has_hopeless_token(tokens, index),
    ensures
        forall|m: Map<u8, u8>| !solves(m, tokens, index),
        forall|k: int| !solvable_at(k, tokens, index),
{
    let i = choose|i: int|
        0 <= i < tokens.len() && no_word_of_length(index, (#[trigger] tokens[i]).len());
    assert forall|m: Map<u8, u8>| !solves(m, tokens, index) by {
        assert(decode(m, tokens[i]).len() == tokens[i].len());
        assert(!in_index(index, decode(m, tokens[i])));
    }
    assert forall|k: int| !solvable_at(k, tokens, index) by {
        if solvable_at(k, tokens, index) {
            let p = choose|p: Seq<u8>|
                p.len() == k && is_arrangement(p) && (#[trigger] prefix_solution(
                    p,
                    tokens,
                    index,
                )) is Some;
            lemma_first_solution(prefix_map(p), tokens, index, 0);
        }
    }
}

/// The assignment that the prefix stands for.
pub fn prefix_mapping(prefix: &[u8]) -> (r: Mapping)
    requires
        is_arrangement(prefix@),
    ensures
        r.wf(),
        r@ == prefix_map(prefix@),
{
    let mut mapping = Mapping::new();
    let mut i: usize = 0;
    assert(mapping@ =~= prefix_map(prefix@.take(0)));
    while i < prefix.len()
        invariant
            i <= prefix.len(),
            is_arrangement(prefix@),
            mapping.wf(),
            mapping@ == prefix_map(prefix@.take(i as int)),
        decreases prefix.len() - i,
    {
        proof {
            lemma_prefix_map_step(prefix@, i as int);
        }
        let c: u8 = 0x41 + prefix[i];
        let l: u8 = 0x61 + (i as u8);
        mapping = mapping.set(c, l).unwrap();
        i += 1;
    }
    assert(prefix@.take(i as int) =~= prefix@);
    mapping
}

/// Whether `mapping` decodes every token to a word of the dictionary.
pub fn is_solution(mapping: &Mapping, tokens: &Vec<&[u8]>, index: &WordIndex) -> (r: bool)
    ensures
        r == solves(mapping@, views(tokens@), index@),
{
    let mut i: usize = 0;
    while i < tokens.len()
        invariant
            i <= tokens.len(),
            forall|j: int|
                0 <= j < i ==> in_index(
                    index@,
                    decode(mapping@, #[trigger] views(tokens@)[j]),
                ),
        decreases tokens.len() - i,
    {
        let word = mapping.apply(tokens[i]);
        if !index.contains(word.as_slice()) {
            assert(views(tokens@)[i as int] == tokens@[i as int]@);
            return false;
        }
        assert(views(tokens@)[i as int] == tokens@[i as int]@);
        i += 1;
    }
    true
}

/// Tries one prefix: its completions are checked by increasing scan offset,
/// and the first one that solves the tokens is returned.
pub fn try_prefix(prefix: &[u8], tokens: &Vec<&[u8]>, index: &WordIndex) -> (r: Option<Mapping>)
    requires
        is_arrangement(prefix@),
    ensures
        match r {
            Some(m) => m.wf() && prefix_solution(prefix@, views(tokens@), index@) == Some(m@),
            None => prefix_solution(prefix@, views(tokens@), index@) is None,
        },
{
    let mapping = prefix_mapping(prefix);
    let mut offset: u8 = 0;
    while offset < 26
        invariant
            offset <= 26,
            mapping.wf(),
            mapping@ == prefix_map(prefix@),
            prefix_solution(prefix@, views(tokens@), index@) == first_solution(
                mapping@,
                views(tokens@),
                index@,
                offset as int,
            ),
        decreases 26 - offset,
    {
        let candidate = complete(&mapping, offset);
        if is_solution(&candidate, tokens, index) {
            return Some(candidate);
        }
        offset += 1;
    }
    None
}

/// Declares `itertools::structs::Permutations`, the lazy enumeration that
/// `Itertools::permutations` returns, so that it can be named in contracts.
/// Nothing inside it is visible.
#[verifier::external_type_specification]
#[verifier::external_body]
#[verifier::reject_recursive_types(I)]
pub struct ExPermutations<I: Iterator>(Permutations<I>);

/// The prefixes that an enumeration hands out when it is run to its end.
/// Trusted: nothing is known of it but what [`selections`] and [`find_any`]
/// state.
pub uninterp spec fn pending(perms: Permutations<Range<u8>>) -> Set<Seq<u8>>;

/// Calls `itertools::Itertools::permutations` on a range of numbers. Trusted:
/// the enumeration hands out every sequence of `k` numbers of the range
/// without a repetition, and nothing else (none at all when the range holds
/// fewer than `k` numbers, and the empty sequence alone when `k` is 0).
#[verifier::external_body]
fn selections(letters: Range<u8>, k: usize) -> (r: Permutations<Range<u8>>)
    ensures
        pending(r) == Set::new(
            |p: Seq<u8>| p.len() == k && is_selection(p, letters.start, letters.end),
        ),
{
    letters.permutations(k)
}

/// Hands the prefixes to `rayon::iter::ParallelBridge::par_bridge` and
/// `rayon::iter::ParallelIterator::find_map_any`, which call [`try_prefix`] on
/// them from the worker threads. Trusted: a result is what `try_prefix`
/// returned for one of the prefixes, whichever thread came first; and there is
/// no result only when `try_prefix` returned none for every prefix.
#[verifier::external_body]
fn find_any(perms: Permutations<Range<u8>>, tokens: &Vec<&[u8]>, index: &WordIndex) -> (r: Option<
    Mapping,
>)
    requires
        forall|p: Seq<u8>| pending(perms).contains(p) ==> is_arrangement(p),
    ensures
        match r {
            Some(m) => m.wf() && exists|p: Seq<u8>|
                pending(perms).contains(p) && (#[trigger] prefix_solution(
                    p,
                    views(tokens@),
                    index@,
                )) == Some(m@),
            None => forall|p: Seq<u8>|
                pending(perms).contains(p) ==> (#[trigger] prefix_solution(
                    p,
                    views(tokens@),
                    index@,
                )) is None,
        },
{
    perms.par_bridge().find_map_any(|prefix| try_prefix(&prefix, tokens, index))
}

/// Tries every prefix of `k` letters, in parallel, and returns what one of
/// them yields. Which one is left open when several yield a solution.
pub fn search_prefixes(k: usize, tokens: &Vec<&[u8]>, index: &WordIndex) -> (r: Option<Mapping>)
    ensures
        match r {
            Some(m) => m.wf() && found_at(k as int, m@, views(tokens@), index@),
            None => !solvable_at(k as int, views(tokens@), index@),
        },
{
    if k > 26 {
        return None;
    }
    let perms = selections(0..26, k);
    find_any(perms, tokens, index)
}

/// Recovers an assignment under which every token of `cipher` is a word of the
/// dictionary. Prefix sizes are tried in increasing order, so the assignment
/// returned comes from a prefix of the least size that yields one at all;
/// there is none exactly when no prefix of fewer than 26 letters yields one.
///
/// An assignment that is returned is a full substitution alphabet. That
/// [`Mapping::set`] would let two ciphertext letters share a plaintext letter
/// does not show here: the search only ever completes prefixes.
pub fn crack(cipher: &[u8], index: &WordIndex) -> (r: Option<Mapping>)
    ensures
        match r {
            Some(m) => {
                &&& m.wf()
                &&& solves(m@, split_spaces(cipher@), index@)
                &&& is_cipher_disk(m@)
                &&& exists|k: int|
                    0 <= k < 26 && #[trigger] found_at(k, m@, split_spaces(cipher@), index@)
                        && forall|j: int|
                        0 <= j < k ==> !#[trigger] solvable_at(j, split_spaces(cipher@), index@)
            },
            None => forall|k: int|
                0 <= k < 26 ==> !#[trigger] solvable_at(k, split_spaces(cipher@), index@),
        },
        has_hopeless_token(split_spaces(cipher@), index@) ==> r is None,
{
    proof {
        if has_hopeless_token(split_spaces(cipher@), index@) {
            lemma_hopeless_token(split_spaces(cipher@), index@);
        }
    }
    let tokens = split_tokens(cipher);
    let mut k: usize = 0;
    while k < 26
        invariant
            k <= 26,
            views(tokens@) == split_spaces(cipher@),
            forall|j: int| 0 <= j < k ==> !#[trigger] solvable_at(j, split_spaces(cipher@), index@),
        decreases 26 - k,
    {
        match search_prefixes(k, &tokens, index) {
            Some(m) => {
                proof {
                    lemma_found_is_solution(k as int, m@, split_spaces(cipher@), index@);
                }
                return Some(m);
            },
            None => {},
        }
        k += 1;
    }
    None
}

} // verus!
