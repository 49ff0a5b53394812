//! Ciphertexts as sequences of tokens separated by single spaces.
use vstd::prelude::*;

verus! {

/// The byte that separates tokens.
pub const SPACE: u8 = 0x20;

/// The tokens of a text: the maximal runs of bytes between spaces. A text
/// without a space is one token; two spaces in a row enclose an empty token.
pub open spec fn split_spaces(s: Seq<u8>) -> Seq<Seq<u8>>
    decreases s.len(),
{
    if s.len() == 0 {
        seq![Seq::<u8>::empty()]
    } else {
        let head = split_spaces(s.drop_last());
        if s.last() == SPACE {
            head.push(Seq::<u8>::empty())
        } else {
            head.drop_last().push(head.last().push(s.last()))
        }
    }
}

/// Tokens written out with one space between neighbours.
pub open spec fn join_spaces(tokens: Seq<Seq<u8>>) -> Seq<u8>
    decreases tokens.len(),
{
    if tokens.len() == 0 {
        Seq::<u8>::empty()
    } else if tokens.len() == 1 {
        tokens[0]
    } else {
        join_spaces(tokens.drop_last()) + seq![SPACE] + tokens.last()
    }
}

/// `tokens` is a way of cutting `text` at its spaces.
pub open spec fn is_tokenization(tokens: Seq<Seq<u8>>, text: Seq<u8>) -> bool {
    &&& tokens.len() >= 1
    &&& join_spaces(tokens) == text
    &&& forall|i: int, j: int|
        0 <= i < tokens.len() && 0 <= j < tokens[i].len() ==> tokens[i][j] != SPACE
}

/// The contents of a list of byte slices.
pub open spec fn views(v: Seq<&[u8]>) -> Seq<Seq<u8>> {
    Seq::new(v.len(), |i: int| v[i]@)
}

/// `n` is the length of a longest token in `tokens`.
pub open spec fn is_longest(tokens: Seq<Seq<u8>>, n: nat) -> bool {
    &&& forall|i: int| 0 <= i < tokens.len() ==> (#[trigger] tokens[i]).len() <= n
    &&& exists|i: int| 0 <= i < tokens.len() && (#[trigger] tokens[i]).len() == n
}

/// Splitting never yields an empty list.
pub proof fn lemma_split_nonempty(s: Seq<u8>)
    ensures
        split_spaces(s).len() >= 1,
    decreases s.len(),
{
    if s.len() > 0 {
        lemma_split_nonempty(s.drop_last());
    }
}

/// Splitting cuts at the spaces and nowhere else: joining the tokens gives the
/// text back, and no token holds a space.
pub proof fn lemma_split_is_tokenization(s: Seq<u8>)
    ensures
        is_tokenization(split_spaces(s), s),
    decreases s.len(),
{
    if s.len() == 0 {
        assert(join_spaces(split_spaces(s)) =~= s);
    } else {
        let prev = s.drop_last();
        let head = split_spaces(prev);
        lemma_split_is_tokenization(prev);
        let tokens = split_spaces(s);
        if s.last() == SPACE {
            assert(tokens.drop_last() =~= head);
            assert(join_spaces(tokens) =~= s);
        } else {
            let body = head.drop_last();
            let tail = head.last().push(s.last());
            assert(tokens.drop_last() =~= body);
            if head.len() == 1 {
                assert(head[0] == prev);
                assert(tokens.len() == 1 && tokens[0] == tail);
                assert(tail =~= s);
            } else {
                assert(join_spaces(head) == join_spaces(body) + seq![SPACE] + head.last());
                assert(join_spaces(tokens) == join_spaces(body) + seq![SPACE] + tail);
                assert(s =~= prev.push(s.last()));
                assert(join_spaces(body) + seq![SPACE] + tail =~= (join_spaces(body) + seq![SPACE]
                    + head.last()).push(s.last()));
            }
        }
    }
}

/// Cuts `text` at its spaces. The tokens borrow from `text`.
pub fn split_tokens<'a>(text: &'a [u8]) -> (r: Vec<&'a [u8]>)
    ensures
        views(r@) == split_spaces(text@),
{
    let mut tokens: Vec<&'a [u8]> = Vec::new();
    let mut start: usize = 0;
    let mut i: usize = 0;
    assert(text@.take(0) =~= Seq::<u8>::empty());
    assert(views(tokens@).push(text@.subrange(0, 0)) =~= seq![Seq::<u8>::empty()]);
    while i < text.len()
        invariant
            start <= i <= text.len(),
            views(tokens@).push(text@.subrange(start as int, i as int)) == split_spaces(
                text@.take(i as int),
            ),
        decreases text.len() - i,
    {
        let ghost before = text@.take(i as int);
        let ghost after = text@.take(i + 1);
        assert(after.drop_last() =~= before);
        assert(after.last() == text@[i as int]);
        let ghost head = views(tokens@).push(text@.subrange(start as int, i as int));
        if text[i] == SPACE {
            tokens.push(&text[start..i]);
            start = i + 1;
            assert(views(tokens@) =~= head);
            assert(text@.subrange(start as int, i + 1) =~= Seq::<u8>::empty());
        } else {
            assert(head.drop_last() =~= views(tokens@));
            assert(head.last().push(text@[i as int]) =~= text@.subrange(start as int, i + 1));
        }
        i += 1;
    }
    assert(text@.take(i as int) =~= text@);
    let ghost head = views(tokens@).push(text@.subrange(start as int, i as int));
    tokens.push(&text[start..i]);
    assert(views(tokens@) =~= head);
    tokens
}

/// The length of a longest token of `text`.
pub fn longest_token(text: &[u8]) -> (r: usize)
    ensures
        is_longest(split_spaces(text@), r as nat),
{
    let tokens = split_tokens(text);
    proof {
        lemma_split_nonempty(text@);
    }
    let mut best: usize = tokens[0].len();
    let mut i: usize = 1;
    while i < tokens.len()
        invariant
            1 <= i <= tokens.len(),
            forall|j: int| 0 <= j < i ==> (#[trigger] tokens[j])@.len() <= best,
            exists|j: int| 0 <= j < i && (#[trigger] tokens[j])@.len() == best,
        decreases tokens.len() - i,
    {
        if tokens[i].len() > best {
            best = tokens[i].len();
        }
        i += 1;
    }
    proof {
        let ts = split_spaces(text@);
        assert forall|j: int| 0 <= j < ts.len() implies (#[trigger] ts[j]).len() <= best by {
            assert(ts[j] == tokens[j]@);
        }
        let w = choose|j: int| 0 <= j < i && (#[trigger] tokens[j])@.len() == best;
        assert(ts[w] == tokens[w]@);
    }
    best
}

} // verus!
