//! Ordering lists of cards: by value, then by suit.

use vstd::prelude::*;

use vstd::multiset::Multiset;

use crate::card::Card;

verus! {

broadcast use vstd::seq_lib::group_to_multiset_ensures;

impl Card {
    /// Position of the card when cards are ordered by value, then suit.
    pub open spec fn sort_key(self) -> int {
        (self.val.points() - 1) * 4 + self.suit.index()
    }

    /// Position of the card when cards are ordered by value, then suit.
    pub fn order_key(&self) -> (r: u8)
        ensures
            r == self.sort_key(),
    {
        (self.val.number() - 1) * 4 + (self.suit.number() - 1)
    }
}

/// Two cards in the same position of the order are the same card.
pub proof fn lemma_sort_key_injective(a: Card, b: Card)
    ensures
        0 <= a.sort_key() < 40,
        a.sort_key() == b.sort_key() ==> a == b,
{
}

/// `s` with `c` put before the first card that does not come before it.
pub open spec fn insert_sorted(s: Seq<Card>, c: Card) -> Seq<Card>
    decreases s.len(),
{
    if s.len() == 0 {
        seq![c]
    } else if c.sort_key() <= s[0].sort_key() {
        seq![c] + s
    } else {
        seq![s[0]] + insert_sorted(s.drop_first(), c)
    }
}

/// The cards of `s`, ordered by value, then suit (insertion order).
pub open spec fn sorted_cards(s: Seq<Card>) -> Seq<Card>
    decreases s.len(),
{
    if s.len() == 0 {
        s
    } else {
        insert_sorted(sorted_cards(s.drop_last()), s.last())
    }
}

/// Whether the cards of `s` come in order of value, then suit.
pub open spec fn is_sorted(s: Seq<Card>) -> bool {
    forall|i: int, j: int| 0 <= i < j < s.len() ==> s[i].sort_key() <= s[j].sort_key()
}

/// Where `insert_sorted` puts `c` in `s`: before the first card that does not
/// come before it.
pub open spec fn insert_position(s: Seq<Card>, c: Card, p: int) -> bool {
    &&& 0 <= p <= s.len()
    &&& forall|j: int| 0 <= j < p ==> s[j].sort_key() < c.sort_key()
    &&& p < s.len() ==> c.sort_key() <= s[p].sort_key()
}

proof fn lemma_insert_sorted_at(s: Seq<Card>, c: Card, p: int)
    requires
        insert_position(s, c, p),
    ensures
        insert_sorted(s, c) == s.insert(p, c),
    decreases s.len(),
{
    if s.len() == 0 {
        assert(s.insert(p, c) =~= seq![c]);
    } else if c.sort_key() <= s[0].sort_key() {
        assert(p == 0);
        assert(s.insert(p, c) =~= seq![c] + s);
    } else {
        let rest = s.drop_first();
        assert(insert_position(rest, c, p - 1));
        lemma_insert_sorted_at(rest, c, p - 1);
        assert(s.insert(p, c) =~= seq![s[0]] + rest.insert(p - 1, c));
    }
}

proof fn lemma_insert_sorted_keeps_order(s: Seq<Card>, c: Card)
    requires
        is_sorted(s),
    ensures
        is_sorted(insert_sorted(s, c)),
        insert_sorted(s, c).to_multiset() == s.to_multiset().insert(c),
    decreases s.len(),
{
    if s.len() == 0 {
        assert(seq![c] =~= Seq::<Card>::empty().push(c));
        assert(Seq::<Card>::empty().to_multiset() =~= Multiset::<Card>::empty());
    } else {
        let rest = s.drop_first();
        lemma_first_multiset(s);
        if c.sort_key() <= s[0].sort_key() {
            lemma_first_multiset(seq![c] + s);
            assert((seq![c] + s).drop_first() =~= s);
        } else {
            lemma_insert_sorted_keeps_order(rest, c);
            let t = insert_sorted(rest, c);
            lemma_first_multiset(seq![s[0]] + t);
            assert((seq![s[0]] + t).drop_first() =~= t);
            assert forall|k: int| 0 <= k < t.len() implies s[0].sort_key() <= #[trigger] t[k].sort_key() by {
                assert(t.to_multiset().count(t[k]) > 0);
                assert(t.contains(t[k]));
                if t[k] != c {
                    assert(rest.to_multiset().count(t[k]) > 0);
                    assert(rest.contains(t[k]));
                    let m = choose|m: int| 0 <= m < rest.len() && rest[m] == t[k];
                    assert(s[m + 1] == t[k]);
                }
            }
        }
    }
}

/// A list and the list with its first card split off hold the same cards.
proof fn lemma_first_multiset(s: Seq<Card>)
    requires
        s.len() > 0,
    ensures
        s.to_multiset() == s.drop_first().to_multiset().insert(s[0]),
{
    let r = s.drop_first();
    assert(s.remove(0) =~= r);
    assert(s.remove(0).to_multiset() == s.to_multiset().remove(s[0]));
    assert(s.to_multiset().count(s[0]) > 0) by {
        assert(s.contains(s[0]));
    }
    assert(s.to_multiset() =~= s.to_multiset().remove(s[0]).insert(s[0]));
}

/// The ordered list holds the same cards as the original, in order of
/// value, then suit.
pub proof fn lemma_sorted_cards(s: Seq<Card>)
    ensures
        is_sorted(sorted_cards(s)),
        sorted_cards(s).to_multiset() == s.to_multiset(),
        sorted_cards(s).len() == s.len(),
    decreases s.len(),
{
    if s.len() == 0 {
    } else {
        lemma_sorted_cards(s.drop_last());
        lemma_insert_sorted_keeps_order(sorted_cards(s.drop_last()), s.last());
        assert(s.drop_last().push(s.last()) =~= s);
        assert(sorted_cards(s).to_multiset().len() == sorted_cards(s).len());
        assert(s.to_multiset().len() == s.len());
    }
}

/// Orders the cards of `v` by value, then suit.
pub fn sort_cards(v: &mut Vec<Card>)
    ensures
        final(v)@ == sorted_cards(old(v)@),
{
    let mut out: Vec<Card> = Vec::new();
    let mut i: usize = 0;
    let n = v.len();
    while i < n
        invariant
            n == v.len(),
            i <= n,
            v@ == old(v)@,
            out@ == sorted_cards(v@.take(i as int)),
        decreases n - i,
    {
        let c = v[i];
        let key = c.order_key();
        let mut p: usize = 0;
        while p < out.len() && out[p].order_key() < key
            invariant
                p <= out.len(),
                key == c.sort_key(),
                forall|j: int| 0 <= j < p ==> out@[j].sort_key() < c.sort_key(),
            decreases out.len() - p,
        {
            p = p + 1;
        }
        proof {
            lemma_insert_sorted_at(out@, c, p as int);
            assert(v@.take(i + 1).drop_last() =~= v@.take(i as int));
        }
        out.insert(p, c);
        i = i + 1;
    }
    proof {
        assert(v@.take(n as int) =~= v@);
    }
    *v = out;
}

/// A reordering of a list without repeated cards holds the same cards, none
/// twice.
pub proof fn lemma_permutation_keeps_cards(a: Seq<Card>, b: Seq<Card>)
    requires
        a.to_multiset() == b.to_multiset(),
        a.no_duplicates(),
    ensures
        b.no_duplicates(),
        b.len() == a.len(),
        forall|c: Card| a.contains(c) <==> b.contains(c),
{
    broadcast use vstd::seq_lib::group_to_multiset_ensures;

    a.lemma_multiset_has_no_duplicates();
    assert forall|x: Card| b.to_multiset().contains(x) implies b.to_multiset().count(x) == 1 by {
        assert(a.to_multiset().count(x) == 1);
    }
    b.lemma_multiset_has_no_duplicates_conv();
    assert forall|c: Card| a.contains(c) <==> b.contains(c) by {
        assert(a.contains(c) <==> a.to_multiset().count(c) > 0);
        assert(b.contains(c) <==> b.to_multiset().count(c) > 0);
    }
    assert(a.to_multiset().len() == a.len());
    assert(b.to_multiset().len() == b.len());
}


/// Two ordered lists that hold the same cards are the same list.
pub proof fn lemma_sorted_unique(x: Seq<Card>, y: Seq<Card>)
    requires
        is_sorted(x),
        is_sorted(y),
        x.to_multiset() == y.to_multiset(),
    ensures
        x == y,
    decreases x.len(),
{
    assert(x.to_multiset().len() == x.len());
    assert(y.to_multiset().len() == y.len());
    if x.len() > 0 {
        lemma_first_multiset(x);
        lemma_first_multiset(y);
        assert(x.to_multiset().count(x[0]) > 0) by {
            assert(x.contains(x[0]));
        }
        assert(y.to_multiset().count(y[0]) > 0) by {
            assert(y.contains(y[0]));
        }
        assert(y.contains(x[0]));
        assert(x.contains(y[0]));
        let i = choose|i: int| 0 <= i < y.len() && y[i] == x[0];
        let j = choose|j: int| 0 <= j < x.len() && x[j] == y[0];
        assert(y[0].sort_key() <= y[i].sort_key());
        assert(x[0].sort_key() <= x[j].sort_key());
        lemma_sort_key_injective(x[0], y[0]);
        assert(x[0] == y[0]);
        let xs = x.drop_first();
        let ys = y.drop_first();
        assert(xs.to_multiset() =~= ys.to_multiset()) by {
            assert(x.to_multiset() == xs.to_multiset().insert(x[0]));
            assert(y.to_multiset() == ys.to_multiset().insert(x[0]));
            assert forall|c: Card| xs.to_multiset().count(c) == ys.to_multiset().count(c) by {
                broadcast use vstd::multiset::group_multiset_axioms;

                assert(x.to_multiset().count(c) == y.to_multiset().count(c));
                assert(x.to_multiset().count(c) == xs.to_multiset().insert(x[0]).count(c));
                assert(y.to_multiset().count(c) == ys.to_multiset().insert(x[0]).count(c));
            }
        }
        lemma_sorted_unique(xs, ys);
        assert(x =~= seq![x[0]] + xs);
        assert(y =~= seq![y[0]] + ys);
    } else {
        assert(x =~= y);
    }
}

/// Ordering two lists that hold the same cards gives the same list.
pub proof fn lemma_sorted_cards_order_free(a: Seq<Card>, b: Seq<Card>)
    requires
        a.to_multiset() == b.to_multiset(),
    ensures
        sorted_cards(a) == sorted_cards(b),
{
    lemma_sorted_cards(a);
    lemma_sorted_cards(b);
    lemma_sorted_unique(sorted_cards(a), sorted_cards(b));
}

} // verus!
