//! Packing lists of cards into 128-bit words, six bits per card.
//!
//! Card `k` of a list sits at bits `6k..6k+6` of the first word for the first
//! twenty-one cards; later cards go to the second word, card `21 + k` at bits
//! `6(k mod 21)`. No card has code 0, so the packed cards read back until the
//! first empty six-bit chunk.

use vstd::prelude::*;

use crate::card::{lemma_code_roundtrip, Card};

verus! {

/// The number of cards that one 128-bit word holds.
pub open spec fn word_cards() -> int {
    21
}

/// Where the chunk of the card at position `k` of a word's list starts.
pub open spec fn chunk_shift(k: int) -> usize {
    ((6 * k) % 126) as usize
}

/// The word that results from or-ing each card's code, shifted to its chunk,
/// into zero.
pub open spec fn or_pack(s: Seq<Card>) -> u128
    decreases s.len(),
{
    if s.len() == 0 {
        0
    } else {
        or_pack(s.drop_last()) | ((s.last().code() as u128) << chunk_shift(s.len() - 1))
    }
}

/// The cards that the first word of an encoding holds.
pub open spec fn first_word_cards(s: Seq<Card>) -> Seq<Card> {
    if s.len() <= word_cards() {
        s
    } else {
        s.take(word_cards())
    }
}

/// The cards that the second word of an encoding holds.
pub open spec fn second_word_cards(s: Seq<Card>) -> Seq<Card> {
    if s.len() <= word_cards() {
        Seq::empty()
    } else {
        s.skip(word_cards())
    }
}

/// The six-bit chunk `j` of a word.
pub open spec fn chunk(x: u128, j: int) -> u128 {
    (x >> ((6 * j) as usize)) & 63u128
}

/// The cards that a word holds, lowest chunk first, up to the first empty chunk.
pub open spec fn unpack(x: u128) -> Seq<Card>
    decreases x,
{
    if x == 0 {
        Seq::empty()
    } else {
        proof {
            lemma_shift_decreases(x);
        }
        seq![Card::of_code((x & 63u128) as u8)] + unpack(x >> 6usize)
    }
}

/// Whether every chunk of a word, up to the first empty one, is a card's code.
pub open spec fn valid_pack(x: u128) -> bool
    decreases x,
{
    if x == 0 {
        true
    } else {
        proof {
            lemma_shift_decreases(x);
        }
        Card::valid_code((x & 63u128) as u8) && valid_pack(x >> 6usize)
    }
}

/// What decoding two words gives: nothing when the first is zero, else the
/// cards of the first followed by those of the second.
pub open spec fn decoded(cds1: u128, cds2: u128) -> Seq<Card> {
    if cds1 == 0 {
        Seq::empty()
    } else {
        unpack(cds1) + unpack(cds2)
    }
}

/// Dropping the low six bits of a nonzero word makes it smaller.
pub proof fn lemma_shift_decreases(x: u128)
    requires
        x != 0,
    ensures
        x >> 6usize < x,
{
    assert(x >> 6usize < x) by (bit_vector)
        requires
            x != 0,
    ;
}

proof fn lemma_low_chunks_kept(p: u128, b: u128, sj: usize, sk: usize)
    requires
        sj + 6 <= sk,
        sk <= 120,
        b < 64,
    ensures
        ((p | (b << sk)) >> sj) & 63u128 == (p >> sj) & 63u128,
{
    assert(((p | (b << sk)) >> sj) & 63u128 == (p >> sj) & 63u128) by (bit_vector)
        requires
            sj + 6 <= sk,
            sk <= 120,
            b < 64,
    ;
}

proof fn lemma_top_chunk(p: u128, b: u128, sk: usize)
    requires
        p >> sk == 0,
        sk <= 120,
        b < 64,
    ensures
        ((p | (b << sk)) >> sk) & 63u128 == b,
        (p | (b << sk)) >> ((sk + 6) as usize) == 0,
{
    assert(((p | (b << sk)) >> sk) & 63u128 == b && (p | (b << sk)) >> ((sk + 6) as usize) == 0)
        by (bit_vector)
        requires
            p >> sk == 0,
            sk <= 120,
            b < 64,
    ;
}

proof fn lemma_shift_compose(x: u128, s: usize)
    requires
        s <= 120,
    ensures
        (x >> s) >> 6usize == x >> ((s + 6) as usize),
{
    assert((x >> s) >> 6usize == x >> ((s + 6) as usize)) by (bit_vector)
        requires
            s <= 120,
    ;
}

proof fn lemma_chunk_nonzero(x: u128, s: usize)
    requires
        (x >> s) & 63u128 != 0,
    ensures
        x >> s != 0,
{
    assert(x >> s != 0) by (bit_vector)
        requires
            (x >> s) & 63u128 != 0,
    ;
}

proof fn lemma_shift_zero(x: u128)
    ensures
        x >> 0usize == x,
{
    assert(x >> 0usize == x) by (bit_vector);
}

proof fn lemma_low_byte(x: u128)
    ensures
        (x as u8) & 63u8 == (x & 63u128) as u8,
        x & 63u128 < 64,
{
    assert((x as u8) & 63u8 == (x & 63u128) as u8 && x & 63u128 < 64) by (bit_vector);
}

/// The chunks of a packed list of at most twenty-one cards hold the cards'
/// codes in order, and nothing lies above them.
proof fn lemma_or_pack_chunks(s: Seq<Card>)
    requires
        s.len() <= word_cards(),
    ensures
        forall|j: int| 0 <= j < s.len() ==> #[trigger] chunk(or_pack(s), j) == s[j].code() as u128,
        or_pack(s) >> ((6 * s.len()) as usize) == 0,
    decreases s.len(),
{
    if s.len() == 0 {
        assert(0u128 >> 0usize == 0) by (bit_vector);
    } else {
        let t = s.drop_last();
        let k = s.len() - 1;
        lemma_or_pack_chunks(t);
        let p = or_pack(t);
        let b = s.last().code() as u128;
        lemma_code_roundtrip(s.last());
        let sk = chunk_shift(k);
        assert(sk == 6 * k);
        lemma_top_chunk(p, b, sk);
        assert forall|j: int| 0 <= j < s.len() implies #[trigger] chunk(or_pack(s), j)
            == s[j].code() as u128 by {
            if j < k {
                lemma_low_chunks_kept(p, b, (6 * j) as usize, sk);
                assert(chunk(p, j) == t[j].code() as u128);
            }
        }
    }
}

/// Reading back the chunks of a packed list from chunk `j` on gives the
/// cards from position `j` on, and every chunk read is a card's code.
proof fn lemma_unpack_from(s: Seq<Card>, j: int)
    requires
        s.len() <= word_cards(),
        0 <= j <= s.len(),
    ensures
        unpack(or_pack(s) >> ((6 * j) as usize)) == s.subrange(j, s.len() as int),
        valid_pack(or_pack(s) >> ((6 * j) as usize)),
    decreases s.len() - j,
{
    lemma_or_pack_chunks(s);
    let x = or_pack(s) >> ((6 * j) as usize);
    if j == s.len() {
        assert(x == 0);
        assert(s.subrange(j, s.len() as int) =~= Seq::<Card>::empty());
    } else {
        lemma_unpack_from(s, j + 1);
        assert(chunk(or_pack(s), j) == s[j].code() as u128);
        lemma_code_roundtrip(s[j]);
        lemma_chunk_nonzero(or_pack(s), (6 * j) as usize);
        assert(x != 0);
        lemma_shift_compose(or_pack(s), (6 * j) as usize);
        assert(x >> 6usize == or_pack(s) >> ((6 * (j + 1)) as usize));
        assert(x & 63u128 == s[j].code() as u128);
        assert((x & 63u128) as u8 == s[j].code());
        assert(unpack(x) == seq![Card::of_code((x & 63u128) as u8)] + unpack(x >> 6usize));
        assert(s.subrange(j, s.len() as int) =~= seq![s[j]] + s.subrange(j + 1, s.len() as int));
    }
}

/// A packed list of at most twenty-one cards reads back as the same list.
pub proof fn lemma_unpack_or_pack(s: Seq<Card>)
    requires
        s.len() <= word_cards(),
    ensures
        unpack(or_pack(s)) == s,
        valid_pack(or_pack(s)),
        (or_pack(s) == 0) <==> (s.len() == 0),
{
    lemma_unpack_from(s, 0);
    lemma_shift_zero(or_pack(s));
    assert(s.subrange(0, s.len() as int) =~= s);
    if s.len() > 0 {
        lemma_or_pack_chunks(s);
        assert(chunk(or_pack(s), 0) == s[0].code() as u128);
        lemma_code_roundtrip(s[0]);
        lemma_chunk_nonzero(or_pack(s), 0usize);
    }
}

proof fn lemma_or_pack_push(s: Seq<Card>, c: Card)
    ensures
        or_pack(s.push(c)) == or_pack(s) | ((c.code() as u128) << chunk_shift(s.len() as int)),
{
    assert(s.push(c).drop_last() =~= s);
}

impl Card {
    /// Packs a list of cards into two words: the first twenty-one cards into
    /// the first word, the rest into the second.
    #[verifier::rlimit(60)]
    pub fn encode_vec(v: &Vec<Card>) -> (r: (u128, u128))
        requires
            v.len() <= usize::MAX / 6,
        ensures
            r.0 == or_pack(first_word_cards(v@)),
            r.1 == or_pack(second_word_cards(v@)),
    {
        let mut shift: usize = 0;
        let mut cds1: u128 = 0;
        let mut cds2: u128 = 0;
        let mut i: usize = 0;
        while i < v.len()
            invariant
                i <= v.len(),
                v.len() <= usize::MAX / 6,
                shift == 6 * i,
                cds1 == or_pack(first_word_cards(v@.take(i as int))),
                cds2 == or_pack(second_word_cards(v@.take(i as int))),
            decreases v.len() - i,
        {
            let c = v[i];
            let ghost prev = v@.take(i as int);
            let ghost next = v@.take(i + 1);
            assert(next =~= prev.push(c));
            if shift < 126 {
                proof {
                    lemma_or_pack_push(first_word_cards(prev), c);
                    assert(first_word_cards(next) =~= first_word_cards(prev).push(c));
                    assert(second_word_cards(next) =~= Seq::<Card>::empty());
                    assert(second_word_cards(prev) =~= Seq::<Card>::empty());
                }
                cds1 = cds1 | ((c.bitmask() as u128) << shift);
            } else {
                let sh = shift % 126;
                proof {
                    lemma_or_pack_push(second_word_cards(prev), c);
                    assert(first_word_cards(next) =~= first_word_cards(prev));
                    assert(second_word_cards(next) =~= second_word_cards(prev).push(c));
                    assert(chunk_shift(second_word_cards(prev).len() as int) == sh);
                }
                cds2 = cds2 | ((c.bitmask() as u128) << sh);
            }
            shift = shift + 6;
            i = i + 1;
        }
        assert(v@.take(v.len() as int) =~= v@);
        (cds1, cds2)
    }

    /// Reads back the cards of two words; nothing when the first is zero.
    pub fn decode(cds1: u128, cds2: u128) -> (r: Vec<Card>)
        requires
            valid_pack(cds1),
            cds1 != 0 ==> valid_pack(cds2),
        ensures
            r@ == decoded(cds1, cds2),
    {
        let mut res: Vec<Card> = Vec::new();
        if cds1 == 0 {
            return res;
        }
        let mut x = cds1;
        while x != 0
            invariant
                valid_pack(x),
                res@ + unpack(x) == unpack(cds1),
            decreases x,
        {
            proof {
                lemma_shift_decreases(x);
                lemma_low_byte(x);
            }
            let m: u8 = (x as u8) & 0b00111111;
            let c = Card::decode_bitmask(m);
            let ghost before = res@;
            res.push(c);
            assert(res@ + unpack(x >> 6usize) =~= before + unpack(x));
            x = x >> 6;
        }
        let mut y = cds2;
        while y != 0
            invariant
                valid_pack(y),
                res@ + unpack(y) == unpack(cds1) + unpack(cds2),
            decreases y,
        {
            proof {
                lemma_shift_decreases(y);
                lemma_low_byte(y);
            }
            let m: u8 = (y as u8) & 0b00111111;
            let c = Card::decode_bitmask(m);
            let ghost before = res@;
            res.push(c);
            assert(res@ + unpack(y >> 6usize) =~= before + unpack(y));
            y = y >> 6;
        }
        res
    }
}

/// Decoding the two words that `encode_vec` gives for a list of at most
/// forty-two cards yields that list again.
pub proof fn lemma_decode_encode(s: Seq<Card>)
    requires
        s.len() <= 2 * word_cards(),
    ensures
        valid_pack(or_pack(first_word_cards(s))),
        valid_pack(or_pack(second_word_cards(s))),
        decoded(or_pack(first_word_cards(s)), or_pack(second_word_cards(s))) == s,
{
    let a = first_word_cards(s);
    let b = second_word_cards(s);
    lemma_unpack_or_pack(a);
    lemma_unpack_or_pack(b);
    if s.len() > 0 {
        assert(a.len() > 0);
        if s.len() <= word_cards() {
            assert(b =~= Seq::<Card>::empty());
            assert(s =~= a + b);
        } else {
            assert(s =~= a + b);
        }
    } else {
        assert(s =~= Seq::<Card>::empty());
    }
}

} // verus!
