//! Partial assignments of ciphertext letters to plaintext letters.
use vstd::prelude::*;

verus! {

/// Ciphertext letters are the upper-case ASCII letters `A..=Z`.
pub open spec fn is_cipher_letter(c: u8) -> bool {
    0x41 <= c <= 0x5a
}

/// Plaintext letters are the lower-case ASCII letters `a..=z`.
pub open spec fn is_plain_letter(l: u8) -> bool {
    0x61 <= l <= 0x7a
}

/// The ciphertext letter with number `i`, counting `A` as 0.
pub open spec fn cipher_letter(i: int) -> u8 {
    (0x41 + i) as u8
}

/// The plaintext letter with number `i`, counting `a` as 0.
pub open spec fn plain_letter(i: int) -> u8 {
    (0x61 + i) as u8
}

/// How many of the first `n` ciphertext letters are bound in `m`.
pub open spec fn bound_below(m: Map<u8, u8>, n: int) -> int
    decreases n,
{
    if n <= 0 {
        0
    } else {
        bound_below(m, n - 1) + if m.dom().contains(cipher_letter(n - 1)) {
            1int
        } else {
            0int
        }
    }
}

/// How many ciphertext letters are bound in `m`.
pub open spec fn size(m: Map<u8, u8>) -> int {
    bound_below(m, 26)
}

/// No more letters are bound than were looked at.
pub proof fn lemma_bound_below_range(m: Map<u8, u8>, n: int)
    requires
        0 <= n,
    ensures
        0 <= bound_below(m, n) <= n,
    decreases n,
{
    if n > 0 {
        lemma_bound_below_range(m, n - 1);
    }
}

/// Where nothing is bound, nothing is counted.
pub proof fn lemma_bound_below_empty(m: Map<u8, u8>, n: int)
    requires
        forall|c: u8| !m.dom().contains(c),
    ensures
        bound_below(m, n) == 0,
    decreases n,
{
    if n > 0 {
        lemma_bound_below_empty(m, n - 1);
    }
}

/// Binding a free ciphertext letter adds one to the count from that letter on.
pub proof fn lemma_bound_below_insert(m: Map<u8, u8>, c: u8, l: u8, n: int)
    requires
        is_cipher_letter(c),
        !m.dom().contains(c),
        0 <= n <= 26,
    ensures
        bound_below(m.insert(c, l), n) == bound_below(m, n) + if c - 0x41 < n {
            1int
        } else {
            0int
        },
    decreases n,
{
    if n > 0 {
        lemma_bound_below_insert(m, c, l, n - 1);
    }
}

/// The bound ciphertext letters with a number below `n`.
pub open spec fn bound_letters_below(m: Map<u8, u8>, n: int) -> Set<u8> {
    Set::new(|c: u8| m.dom().contains(c) && is_cipher_letter(c) && c - 0x41 < n)
}

proof fn lemma_bound_letters_below(m: Map<u8, u8>, n: int)
    requires
        0 <= n <= 26,
    ensures
        bound_letters_below(m, n).finite(),
        bound_letters_below(m, n).len() == bound_below(m, n),
    decreases n,
{
    if n == 0 {
        assert(bound_letters_below(m, 0) =~= Set::<u8>::empty());
    } else {
        lemma_bound_letters_below(m, n - 1);
        let c = cipher_letter(n - 1);
        let before = bound_letters_below(m, n - 1);
        if m.dom().contains(c) {
            assert(bound_letters_below(m, n) =~= before.insert(c));
        } else {
            assert(bound_letters_below(m, n) =~= before);
        }
    }
}

/// Where only ciphertext letters are bound, as in every [`Mapping`], the size
/// is the number of elements of the domain.
pub proof fn lemma_size_is_cardinality(m: Map<u8, u8>)
    requires
        forall|c: u8| m.dom().contains(c) ==> is_cipher_letter(c),
    ensures
        m.dom().finite(),
        m.dom().len() == size(m),
{
    lemma_bound_letters_below(m, 26);
    assert(bound_letters_below(m, 26) =~= m.dom());
}

/// What binding `c` to `l` does to an assignment: it succeeds when `c` is free
/// or already bound to `l`, and is a conflict otherwise.
pub open spec fn bind(m: Map<u8, u8>, c: u8, l: u8) -> Option<Map<u8, u8>> {
    if !m.dom().contains(c) || m[c] == l {
        Some(m.insert(c, l))
    } else {
        None
    }
}

/// The plaintext byte that stands for `b`: the letter bound to it when `b` is a
/// bound ciphertext letter, and `b` itself in every other case.
pub open spec fn decode_byte(m: Map<u8, u8>, b: u8) -> u8 {
    if is_cipher_letter(b) && m.dom().contains(b) {
        m[b]
    } else {
        b
    }
}

/// A text decoded byte by byte.
pub open spec fn decode(m: Map<u8, u8>, text: Seq<u8>) -> Seq<u8> {
    Seq::new(text.len(), |i: int| decode_byte(m, text[i]))
}

/// The byte that stands for "no ciphertext letter" in a disk line.
pub const UNBOUND: u8 = 0x3f;

/// `c` is the first ciphertext letter that is bound to `l`.
pub open spec fn is_first_preimage(m: Map<u8, u8>, l: u8, c: u8) -> bool {
    &&& m.dom().contains(c)
    &&& m[c] == l
    &&& forall|b: u8| b < c && m.dom().contains(b) ==> m[b] != l
}

/// `b` is the entry of a disk line for the plaintext letter `l`.
pub open spec fn is_disk_entry(m: Map<u8, u8>, l: u8, b: u8) -> bool {
    if image(m).contains(l) {
        is_first_preimage(m, l, b)
    } else {
        b == UNBOUND
    }
}

/// The plaintext letters that some ciphertext letter is bound to.
pub open spec fn image(m: Map<u8, u8>) -> Set<u8> {
    Set::new(|l: u8| exists|c: u8| m.dom().contains(c) && m[c] == l)
}

/// A ciphertext letter keeps its first plaintext letter: once `c` is bound
/// to `l1`, binding it to another letter is refused. A refusal needs no
/// undoing, for [`Mapping::set`] reads the value it is called on and builds
/// another.
pub proof fn lemma_conflict_rejected(m: Map<u8, u8>, c: u8, l1: u8, l2: u8)
    requires
        l1 != l2,
    ensures
        bind(m, c, l1) matches Some(bound) ==> bind(bound, c, l2) is None,
        bind(m, c, l1) is None ==> m.dom().contains(c) && m[c] != l1,
{
}

/// Binding the same letter twice is binding it once: the second call succeeds
/// as the first did, with the same assignment.
pub proof fn lemma_bind_idempotent(m: Map<u8, u8>, c: u8, l: u8)
    ensures
        bind(m, c, l) matches Some(bound) ==> bind(bound, c, l) == Some(bound),
{
    if bind(m, c, l) is Some {
        assert(m.insert(c, l).insert(c, l) =~= m.insert(c, l));
    }
}

/// Decoding keeps the length of the text, copies every byte that is not a
/// ciphertext letter and every ciphertext letter that is not bound, and
/// replaces a bound ciphertext letter by its plaintext letter.
pub proof fn lemma_decode_bytes(m: Map<u8, u8>, text: Seq<u8>)
    ensures
        decode(m, text).len() == text.len(),
        forall|i: int|
            0 <= i < text.len() && !is_cipher_letter(text[i]) ==> #[trigger] decode(m, text)[i]
                == text[i],
        forall|i: int|
            0 <= i < text.len() && !m.dom().contains(text[i]) ==> #[trigger] decode(m, text)[i]
                == text[i],
        forall|i: int|
            0 <= i < text.len() && is_cipher_letter(text[i]) && m.dom().contains(text[i])
                ==> #[trigger] decode(m, text)[i] == m[text[i]],
{
}

/// Bit `i` of a 32-bit word.
pub open spec fn bit_at(word: u32, i: u32) -> bool {
    (word >> i) & 1 == 1
}

proof fn lemma_bit_or(word: u32, i: u32, j: u32)
    by (bit_vector)
    requires
        i < 32,
        j < 32,
    ensures
        bit_at(word | (1u32 << j), i) == (i == j || bit_at(word, i)),
{
}

proof fn lemma_bit_or_bound(word: u32, j: u32)
    by (bit_vector)
    requires
        j < 26,
        word < 0x400_0000,
    ensures
        (word | (1u32 << j)) < 0x400_0000,
{
}

proof fn lemma_bit_zero(i: u32)
    by (bit_vector)
    requires
        i < 32,
    ensures
        !bit_at(0u32, i),
{
}

/// A partial assignment of ciphertext letters to plaintext letters, together
/// with the set of plaintext letters in use.
///
/// Values are never updated in place: [`Mapping::set`] hands back a new value.
#[derive(Clone, Copy, Debug, PartialEq, Eq)]
pub struct Mapping {
    map: [Option<u8>; 26],
    members: u32,
}

impl View for Mapping {
    type V = Map<u8, u8>;

    /// The assignment as a partial map from ciphertext letter to plaintext
    /// letter.
    closed spec fn view(&self) -> Map<u8, u8> {
        Map::new(
            |c: u8| is_cipher_letter(c) && self.map@[c - 0x41] is Some,
            |c: u8| self.map@[c - 0x41].unwrap(),
        )
    }
}

impl Mapping {
    /// The plaintext letters recorded as in use.
    pub closed spec fn used(&self) -> Set<u8> {
        Set::new(|l: u8| is_plain_letter(l) && bit_at(self.members, (l - 0x61) as u32))
    }

    /// Only plaintext letters are bound, and the record of letters in use is
    /// exactly the image of the assignment.
    pub closed spec fn wf(&self) -> bool {
        &&& forall|i: int| 0 <= i < 26 && self.map@[i] is Some ==> is_plain_letter(#[trigger] self.map@[i].unwrap())
        &&& forall|l: u8|
            is_plain_letter(l) ==> (bit_at(self.members, (l - 0x61) as u32) <==> exists|i: int|
                0 <= i < 26 && #[trigger] self.map@[i] == Some(l))
        &&& self.members < 0x400_0000
    }

    /// What well-formedness means for the view.
    pub proof fn lemma_wf(&self)
        requires
            self.wf(),
        ensures
            forall|c: u8| #[trigger] self@.dom().contains(c) ==> is_cipher_letter(c) && is_plain_letter(self@[c]),
            self.used() == image(self@),
    {
        assert forall|l: u8| self.used().contains(l) == image(self@).contains(l) by {
            if self.used().contains(l) {
                let i = choose|i: int| 0 <= i < 26 && #[trigger] self.map@[i] == Some(l);
                let c = (i + 0x41) as u8;
                assert(self@.dom().contains(c) && self@[c] == l);
            }
            if image(self@).contains(l) {
                let c = choose|c: u8| self@.dom().contains(c) && self@[c] == l;
                assert(self.map@[c - 0x41] == Some(l));
            }
        }
    }

    /// Only ciphertext letters are ever bound.
    pub proof fn lemma_dom(&self)
        ensures
            forall|c: u8| #[trigger] self@.dom().contains(c) ==> is_cipher_letter(c),
    {
    }

    /// Two well-formed values with the same view are the same value.
    pub proof fn lemma_view_injective(&self, other: &Mapping)
        requires
            self.wf(),
            other.wf(),
            self@ == other@,
        ensures
            *self == *other,
    {
        assert forall|i: int| 0 <= i < 26 implies self.map@[i] == other.map@[i] by {
            let c = (i + 0x41) as u8;
            assert(c - 0x41 == i);
            assert(self@.dom().contains(c) == other@.dom().contains(c));
            if self@.dom().contains(c) {
                assert(self@[c] == self.map@[c - 0x41].unwrap());
                assert(other@[c] == other.map@[c - 0x41].unwrap());
            } else {
                assert(self.map@[i] is None);
                assert(other.map@[i] is None);
            }
        }
        assert(self.map =~= other.map);
        self.lemma_wf();
        other.lemma_wf();
        assert forall|i: u32| i < 26 implies bit_at(self.members, i) == bit_at(other.members, i) by {
            let l = (i + 0x61) as u8;
            assert((l - 0x61) as u32 == i);
            assert(self.used().contains(l) == other.used().contains(l));
        }
        lemma_bits_equal(self.members, other.members);
    }

    /// Binding a letter a second time gives the same value a second time: if
    /// `first` is what binding `c` to `l` makes of `self`, and `second` what it
    /// makes of `first`, the two are equal.
    pub proof fn lemma_set_idempotent(&self, first: &Mapping, second: &Mapping, c: u8, l: u8)
        requires
            first.wf(),
            second.wf(),
            bind(self@, c, l) == Some(first@),
            bind(first@, c, l) == Some(second@),
        ensures
            *first == *second,
    {
        lemma_bind_idempotent(self@, c, l);
        first.lemma_view_injective(second);
    }

    /// The assignment in which no letter is bound.
    pub fn new() -> (r: Mapping)
        ensures
            r.wf(),
            r@ == Map::<u8, u8>::empty(),
            r.used() == Set::<u8>::empty(),
    {
        let r = Mapping { map: [None; 26], members: 0 };
        proof {
            assert forall|l: u8| is_plain_letter(l) implies !bit_at(0u32, (l - 0x61) as u32) by {
                lemma_bit_zero((l - 0x61) as u32);
            }
            assert(r@ =~= Map::<u8, u8>::empty());
            assert(r.used() =~= Set::<u8>::empty());
        }
        r
    }

    /// The plaintext letter bound to the ciphertext letter `c`, if any.
    pub fn get(&self, c: u8) -> (r: Option<u8>)
        requires
            is_cipher_letter(c),
        ensures
            r == (if self@.dom().contains(c) {
                Some(self@[c])
            } else {
                None
            }),
    {
        self.map[(c - 0x41) as usize]
    }

    /// The number of ciphertext letters that are bound.
    pub fn len(&self) -> (r: u8)
        ensures
            r == size(self@),
            r <= 26,
    {
        let mut count: u8 = 0;
        let mut i: usize = 0;
        while i < 26
            invariant
                i <= 26,
                count <= i,
                count == bound_below(self@, i as int),
            decreases 26 - i,
        {
            assert(self@.dom().contains(cipher_letter(i as int)) == (self.map@[i as int] is Some));
            if self.map[i].is_some() {
                count += 1;
            }
            i += 1;
        }
        count
    }

    /// The first ciphertext letter that is bound to the plaintext letter `l`,
    /// if there is one.
    pub fn preimage(&self, l: u8) -> (r: Option<u8>)
        requires
            is_plain_letter(l),
        ensures
            match r {
                Some(c) => is_first_preimage(self@, l, c),
                None => !image(self@).contains(l),
            },
    {
        let mut i: u8 = 0;
        while i < 26
            invariant
                i <= 26,
                forall|b: u8| b < 0x41 + i && self@.dom().contains(b) ==> self@[b] != l,
            decreases 26 - i,
        {
            let c: u8 = 0x41 + i;
            match self.get(c) {
                Some(x) => {
                    if x == l {
                        return Some(c);
                    }
                },
                None => {},
            }
            i += 1;
        }
        assert forall|c: u8| self@.dom().contains(c) implies self@[c] != l by {
            assert(c < 0x41 + 26);
        }
        None
    }

    /// The assignment read backwards, as a line of 26 bytes: for each
    /// plaintext letter from `a` to `z`, the first ciphertext letter that is
    /// bound to it, or `?` where there is none.
    pub fn disk(&self) -> (r: Vec<u8>)
        ensures
            r@.len() == 26,
            forall|i: int| 0 <= i < 26 ==> is_disk_entry(self@, plain_letter(i), #[trigger] r@[i]),
    {
        let mut line: Vec<u8> = Vec::with_capacity(26);
        let mut i: u8 = 0;
        while i < 26
            invariant
                i <= 26,
                line@.len() == i,
                forall|j: int| 0 <= j < i ==> is_disk_entry(self@, plain_letter(j), #[trigger] line@[j]),
            decreases 26 - i,
        {
            let entry: u8 = match self.preimage(0x61 + i) {
                Some(c) => c,
                None => UNBOUND,
            };
            line.push(entry);
            i += 1;
        }
        line
    }

    /// Binds the ciphertext letter `c` to the plaintext letter `l` in a new
    /// value. The binding is refused when `c` is already bound to another
    /// letter; that `l` may already stand for another ciphertext letter is not
    /// looked at.
    pub fn set(&self, c: u8, l: u8) -> (r: Result<Mapping, ()>)
        requires
            self.wf(),
            is_cipher_letter(c),
            is_plain_letter(l),
        ensures
            match r {
                Ok(m) => m.wf() && bind(self@, c, l) == Some(m@) && m.used() == self.used().insert(l),
                Err(_) => bind(self@, c, l) is None,
            },
    {
        let idx_c: usize = (c - 0x41) as usize;
        let free = match self.map[idx_c] {
            None => true,
            Some(bound) => bound == l,
        };
        if free {
            let mut map = self.map;
            map[idx_c] = Some(l);
            let idx_l: u32 = (l - 0x61) as u32;
            let members: u32 = self.members | (1u32 << idx_l);
            let result = Mapping { map, members };
            proof {
                lemma_bit_or_bound(self.members, idx_l);
                assert forall|x: u8| is_plain_letter(x) implies (bit_at(members, (x - 0x61) as u32)
                    <==> exists|i: int| 0 <= i < 26 && #[trigger] result.map@[i] == Some(x)) by {
                    lemma_bit_or(self.members, (x - 0x61) as u32, idx_l);
                    if x == l {
                        assert(result.map@[idx_c as int] == Some(x));
                    } else if bit_at(self.members, (x - 0x61) as u32) {
                        let i = choose|i: int| 0 <= i < 26 && #[trigger] self.map@[i] == Some(x);
                        assert(result.map@[i] == Some(x));
                    } else if exists|i: int| 0 <= i < 26 && #[trigger] result.map@[i] == Some(x) {
                        let i = choose|i: int| 0 <= i < 26 && #[trigger] result.map@[i] == Some(x);
                        assert(self.map@[i] == Some(x));
                    }
                }
                assert(result@ =~= self@.insert(c, l));
                assert forall|x: u8| result.used().contains(x) == self.used().insert(l).contains(x) by {
                    if is_plain_letter(x) {
                        lemma_bit_or(self.members, (x - 0x61) as u32, idx_l);
                    }
                }
                assert(result.used() =~= self.used().insert(l));
            }
            Ok(result)
        } else {
            Err(())
        }
    }

    /// Decodes `text`: every bound ciphertext letter is replaced by its
    /// plaintext letter, and every other byte is copied.
    pub fn apply(&self, text: &[u8]) -> (r: Vec<u8>)
        ensures
            r@ == decode(self@, text@),
    {
        let mut out: Vec<u8> = Vec::with_capacity(text.len());
        let mut i: usize = 0;
        while i < text.len()
            invariant
                i <= text.len(),
                out.len() == i,
                forall|j: int| 0 <= j < i ==> out[j] == decode_byte(self@, #[trigger] text[j]),
            decreases text.len() - i,
        {
            let b: u8 = text[i];
            let d: u8 = if 0x41 <= b && b <= 0x5a {
                match self.get(b) {
                    Some(l) => l,
                    None => b,
                }
            } else {
                b
            };
            out.push(d);
            i += 1;
        }
        assert(out@ =~= decode(self@, text@));
        out
    }
}

impl Default for Mapping {
    /// The assignment in which no letter is bound.
    fn default() -> (r: Mapping)
        ensures
            r.wf(),
            r@ == Map::<u8, u8>::empty(),
    {
        Mapping::new()
    }
}

/// The low `n` bits of a word.
spec fn low_bits(word: u32, n: u32) -> u32 {
    word & !(0xffff_ffffu32 << n)
}

proof fn lemma_low_bits_none(a: u32)
    by (bit_vector)
    ensures
        low_bits(a, 0) == 0,
{
}

proof fn lemma_low_bits_step(a: u32, b: u32, n: u32, m: u32)
    by (bit_vector)
    requires
        n < 26,
        m == n + 1,
        low_bits(a, n) == low_bits(b, n),
        bit_at(a, n) == bit_at(b, n),
    ensures
        low_bits(a, m) == low_bits(b, m),
{
}

proof fn lemma_low_bits_all(a: u32)
    by (bit_vector)
    requires
        a < 0x400_0000,
    ensures
        low_bits(a, 26) == a,
{
}

proof fn lemma_low_bits_equal(a: u32, b: u32, n: u32)
    requires
        n <= 26,
        forall|i: u32| i < 26 ==> bit_at(a, i) == bit_at(b, i),
    ensures
        low_bits(a, n) == low_bits(b, n),
    decreases n,
{
    if n == 0 {
        lemma_low_bits_none(a);
        lemma_low_bits_none(b);
    } else {
        let p = (n - 1) as u32;
        lemma_low_bits_equal(a, b, p);
        lemma_low_bits_step(a, b, p, n);
    }
}

/// Two words below `2^26` that agree on their low 26 bits are equal.
proof fn lemma_bits_equal(a: u32, b: u32)
    requires
        a < 0x400_0000,
        b < 0x400_0000,
        forall|i: u32| i < 26 ==> bit_at(a, i) == bit_at(b, i),
    ensures
        a == b,
{
    lemma_low_bits_equal(a, b, 26);
    lemma_low_bits_all(a);
    lemma_low_bits_all(b);
}

} // verus!
