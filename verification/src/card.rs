//! Suits, values and cards of the forty-card Italian deck.

use vstd::prelude::*;
use vstd::std_specs::ops::AddSpecImpl;
use vstd::string::{StrSliceExecFns, StringSliceAdditionalSpecFns};
use vstd::utf8::{encode_scalar, encode_utf8, has_width_1_encoding};

use crate::text::{join2, wrap_char};

verus! {

/// The four suits, in their natural order.
#[derive(Copy, Clone, Debug, PartialEq, Eq, Structural, Hash, PartialOrd, Ord)]
pub enum Suit {
    Spades,
    Clubs,
    Diamonds,
    Hearts,
}

impl Suit {
    /// The order in which suits are laid out when a deck is built.
    pub const ALL: [Suit; 4] = [Suit::Diamonds, Suit::Hearts, Suit::Spades, Suit::Clubs];

    /// Position of the suit in its natural order, from 0 (spades) to 3 (hearts).
    pub open spec fn index(self) -> int {
        match self {
            Suit::Spades => 0,
            Suit::Clubs => 1,
            Suit::Diamonds => 2,
            Suit::Hearts => 3,
        }
    }

    /// The suit at position `i` of the natural order.
    pub open spec fn at_index(i: int) -> Suit {
        if i == 0 {
            Suit::Spades
        } else if i == 1 {
            Suit::Clubs
        } else if i == 2 {
            Suit::Diamonds
        } else {
            Suit::Hearts
        }
    }

    /// The suit that a letter names (upper or lower case `S`, `C`, `D`, `H`).
    pub open spec fn of_char(c: char) -> Option<Suit> {
        if c == 'S' || c == 's' {
            Some(Suit::Spades)
        } else if c == 'C' || c == 'c' {
            Some(Suit::Clubs)
        } else if c == 'D' || c == 'd' {
            Some(Suit::Diamonds)
        } else if c == 'H' || c == 'h' {
            Some(Suit::Hearts)
        } else {
            None
        }
    }

    /// The message given for a character that names no suit.
    pub open spec fn char_error(c: char) -> Seq<char> {
        "Coult not convert '"@ + seq![c] + "' to suit"@
    }

    /// The two low bits of a card's six-bit code.
    pub open spec fn code(self) -> u8 {
        self.index() as u8
    }

    /// Reads a suit from its letter.
    pub fn from_char(c: char) -> (r: Result<Suit, String>)
        ensures
            match r {
                Ok(s) => Suit::of_char(c) == Some(s),
                Err(e) => Suit::of_char(c).is_none() && e@ == Suit::char_error(c),
            },
    {
        match c {
            'S' | 's' => Ok(Suit::Spades),
            'C' | 'c' => Ok(Suit::Clubs),
            'D' | 'd' => Ok(Suit::Diamonds),
            'H' | 'h' => Ok(Suit::Hearts),
            _ => Err(wrap_char("Coult not convert '", c, "' to suit")),
        }
    }

    /// The suit's part of a card code.
    pub fn bitmask(&self) -> (r: u8)
        ensures
            r == self.code(),
    {
        match self {
            Suit::Spades => 0b00000000,
            Suit::Clubs => 0b00000001,
            Suit::Diamonds => 0b00000010,
            Suit::Hearts => 0b00000011,
        }
    }

    /// Reads the suit from the two low bits of `val`; the other bits are ignored.
    pub fn decode_bitmask(val: u8) -> (r: Suit)
        ensures
            r == Suit::at_index((val & 3u8) as int),
            r.code() == val & 3u8,
    {
        let v = val & 0b00000011;
        assert(v < 4) by (bit_vector)
            requires
                v == val & 3u8,
        ;
        if v == 0 {
            Suit::Spades
        } else if v == 1 {
            Suit::Clubs
        } else if v == 2 {
            Suit::Diamonds
        } else {
            Suit::Hearts
        }
    }

    /// The suit at position `val` (0 to 3) of the natural order.
    pub fn from_num(val: usize) -> (r: Suit)
        requires
            val < 4,
        ensures
            r == Suit::at_index(val as int),
            r.index() == val,
    {
        if val == 0 {
            Suit::Spades
        } else if val == 1 {
            Suit::Clubs
        } else if val == 2 {
            Suit::Diamonds
        } else {
            Suit::Hearts
        }
    }

    /// Position of the suit in its natural order counted from 1, as the
    /// game's arithmetic uses it.
    pub fn number(&self) -> (r: u8)
        ensures
            r == self.index() + 1,
    {
        match self {
            Suit::Spades => 1,
            Suit::Clubs => 2,
            Suit::Diamonds => 3,
            Suit::Hearts => 4,
        }
    }

    /// The suit's English name.
    pub fn to_string(&self) -> (r: String)
        ensures
            r@ == self.name(),
    {
        match self {
            Suit::Spades => String::from_str("Spades"),
            Suit::Clubs => String::from_str("Clubs"),
            Suit::Diamonds => String::from_str("Diamonds"),
            Suit::Hearts => String::from_str("Hearts"),
        }
    }

    /// The suit's English name.
    pub open spec fn name(self) -> Seq<char> {
        match self {
            Suit::Spades => "Spades"@,
            Suit::Clubs => "Clubs"@,
            Suit::Diamonds => "Diamonds"@,
            Suit::Hearts => "Hearts"@,
        }
    }
}

/// The ten values of a suit; jack, queen and king count 8, 9 and 10.
#[derive(Copy, Clone, Debug, PartialEq, Eq, Structural, Hash, PartialOrd, Ord)]
pub enum Value {
    One,
    Two,
    Three,
    Four,
    Five,
    Six,
    Seven,
    Jack,
    Queen,
    King,
}

impl Value {
    /// All values, lowest first.
    pub const ALL: [Value; 10] = [
        Value::One,
        Value::Two,
        Value::Three,
        Value::Four,
        Value::Five,
        Value::Six,
        Value::Seven,
        Value::Jack,
        Value::Queen,
        Value::King,
    ];

    /// The value's points, from 1 (ace) to 10 (king).
    pub open spec fn points(self) -> int {
        match self {
            Value::One => 1,
            Value::Two => 2,
            Value::Three => 3,
            Value::Four => 4,
            Value::Five => 5,
            Value::Six => 6,
            Value::Seven => 7,
            Value::Jack => 8,
            Value::Queen => 9,
            Value::King => 10,
        }
    }

    /// The value worth `p` points, if any.
    pub open spec fn of_points(p: int) -> Option<Value> {
        if p == 1 {
            Some(Value::One)
        } else if p == 2 {
            Some(Value::Two)
        } else if p == 3 {
            Some(Value::Three)
        } else if p == 4 {
            Some(Value::Four)
        } else if p == 5 {
            Some(Value::Five)
        } else if p == 6 {
            Some(Value::Six)
        } else if p == 7 {
            Some(Value::Seven)
        } else if p == 8 {
            Some(Value::Jack)
        } else if p == 9 {
            Some(Value::Queen)
        } else if p == 10 {
            Some(Value::King)
        } else {
            None
        }
    }

    /// The value that a character names: `1`-`7`, `a`/`A` for the ace,
    /// `j`/`J`, `q`/`Q`, `k`/`K`.
    pub open spec fn of_char(c: char) -> Option<Value> {
        if c == '1' || c == 'a' || c == 'A' {
            Some(Value::One)
        } else if c == '2' {
            Some(Value::Two)
        } else if c == '3' {
            Some(Value::Three)
        } else if c == '4' {
            Some(Value::Four)
        } else if c == '5' {
            Some(Value::Five)
        } else if c == '6' {
            Some(Value::Six)
        } else if c == '7' {
            Some(Value::Seven)
        } else if c == 'J' || c == 'j' {
            Some(Value::Jack)
        } else if c == 'Q' || c == 'q' {
            Some(Value::Queen)
        } else if c == 'K' || c == 'k' {
            Some(Value::King)
        } else {
            None
        }
    }

    /// The message given for a character that names no value.
    pub open spec fn char_error(c: char) -> Seq<char> {
        "Could not convert '"@ + seq![c] + "' to a value"@
    }

    /// Bits 2 to 5 of a card's six-bit code.
    pub open spec fn code(self) -> u8 {
        match self {
            Value::One => 4,
            Value::Two => 8,
            Value::Three => 12,
            Value::Four => 16,
            Value::Five => 20,
            Value::Six => 24,
            Value::Seven => 28,
            Value::Jack => 32,
            Value::Queen => 36,
            Value::King => 44,
        }
    }

    /// The value whose code is `m`, if any.
    pub open spec fn of_code(m: u8) -> Option<Value> {
        if m == 4 {
            Some(Value::One)
        } else if m == 8 {
            Some(Value::Two)
        } else if m == 12 {
            Some(Value::Three)
        } else if m == 16 {
            Some(Value::Four)
        } else if m == 20 {
            Some(Value::Five)
        } else if m == 24 {
            Some(Value::Six)
        } else if m == 28 {
            Some(Value::Seven)
        } else if m == 32 {
            Some(Value::Jack)
        } else if m == 36 {
            Some(Value::Queen)
        } else if m == 44 {
            Some(Value::King)
        } else {
            None
        }
    }

    /// Reads a value from its character.
    pub fn from_char(c: char) -> (r: Result<Value, String>)
        ensures
            match r {
                Ok(v) => Value::of_char(c) == Some(v),
                Err(e) => Value::of_char(c).is_none() && e@ == Value::char_error(c),
            },
    {
        match c {
            '1' | 'a' | 'A' => Ok(Value::One),
            '2' => Ok(Value::Two),
            '3' => Ok(Value::Three),
            '4' => Ok(Value::Four),
            '5' => Ok(Value::Five),
            '6' => Ok(Value::Six),
            '7' => Ok(Value::Seven),
            'J' | 'j' => Ok(Value::Jack),
            'Q' | 'q' => Ok(Value::Queen),
            'K' | 'k' => Ok(Value::King),
            _ => Err(wrap_char("Could not convert '", c, "' to a value")),
        }
    }

    /// The value's part of a card code.
    pub fn bitmask(&self) -> (r: u8)
        ensures
            r == self.code(),
    {
        match self {
            Value::One => 0b00000100,
            Value::Two => 0b00001000,
            Value::Three => 0b00001100,
            Value::Four => 0b00010000,
            Value::Five => 0b00010100,
            Value::Six => 0b00011000,
            Value::Seven => 0b00011100,
            Value::Jack => 0b00100000,
            Value::Queen => 0b00100100,
            Value::King => 0b00101100,
        }
    }

    /// Reads the value from bits 2 to 5 of `val`; the other bits are ignored.
    /// Those bits must hold the code of a value.
    pub fn decode_bitmask(val: u8) -> (r: Value)
        requires
            Value::of_code(val & 0b00111100u8).is_some(),
        ensures
            Value::of_code(val & 0b00111100u8) == Some(r),
    {
        let v = val & 0b00111100;
        if v == 0b00000100 {
            Value::One
        } else if v == 0b00001000 {
            Value::Two
        } else if v == 0b00001100 {
            Value::Three
        } else if v == 0b00010000 {
            Value::Four
        } else if v == 0b00010100 {
            Value::Five
        } else if v == 0b00011000 {
            Value::Six
        } else if v == 0b00011100 {
            Value::Seven
        } else if v == 0b00100000 {
            Value::Jack
        } else if v == 0b00100100 {
            Value::Queen
        } else {
            Value::King
        }
    }

    /// The value at position `val` (0 to 9), that is the one worth `val + 1` points.
    pub fn from_num(val: usize) -> (r: Value)
        requires
            val < 10,
        ensures
            r.points() == val + 1,
    {
        if val == 0 {
            Value::One
        } else if val == 1 {
            Value::Two
        } else if val == 2 {
            Value::Three
        } else if val == 3 {
            Value::Four
        } else if val == 4 {
            Value::Five
        } else if val == 5 {
            Value::Six
        } else if val == 6 {
            Value::Seven
        } else if val == 7 {
            Value::Jack
        } else if val == 8 {
            Value::Queen
        } else {
            Value::King
        }
    }

    /// The value's points, from 1 (ace) to 10 (king).
    pub fn number(&self) -> (r: u8)
        ensures
            r == self.points(),
    {
        match self {
            Value::One => 1,
            Value::Two => 2,
            Value::Three => 3,
            Value::Four => 4,
            Value::Five => 5,
            Value::Six => 6,
            Value::Seven => 7,
            Value::Jack => 8,
            Value::Queen => 9,
            Value::King => 10,
        }
    }

    /// The value's English name.
    pub open spec fn name(self) -> Seq<char> {
        match self {
            Value::One => "Ace"@,
            Value::Two => "Two"@,
            Value::Three => "Three"@,
            Value::Four => "Four"@,
            Value::Five => "Five"@,
            Value::Six => "Six"@,
            Value::Seven => "Seven"@,
            Value::Jack => "Jack"@,
            Value::Queen => "Queen"@,
            Value::King => "King"@,
        }
    }

    /// The value's English name.
    pub fn to_string(&self) -> (r: String)
        ensures
            r@ == self.name(),
    {
        match self {
            Value::One => String::from_str("Ace"),
            Value::Two => String::from_str("Two"),
            Value::Three => String::from_str("Three"),
            Value::Four => String::from_str("Four"),
            Value::Five => String::from_str("Five"),
            Value::Six => String::from_str("Six"),
            Value::Seven => String::from_str("Seven"),
            Value::Jack => String::from_str("Jack"),
            Value::Queen => String::from_str("Queen"),
            Value::King => String::from_str("King"),
        }
    }
}

/// Adding two values gives the value worth the sum of their points, or
/// `None` when the sum is above ten.
impl core::ops::Add for Value {
    type Output = Option<Value>;

    fn add(self, other: Value) -> (r: Option<Value>) {
        let res: u8 = self.number() + other.number();
        if res == 1 {
            Some(Value::One)
        } else if res == 2 {
            Some(Value::Two)
        } else if res == 3 {
            Some(Value::Three)
        } else if res == 4 {
            Some(Value::Four)
        } else if res == 5 {
            Some(Value::Five)
        } else if res == 6 {
            Some(Value::Six)
        } else if res == 7 {
            Some(Value::Seven)
        } else if res == 8 {
            Some(Value::Jack)
        } else if res == 9 {
            Some(Value::Queen)
        } else if res == 10 {
            Some(Value::King)
        } else {
            None
        }
    }
}

impl AddSpecImpl for Value {
    open spec fn obeys_add_spec() -> bool {
        true
    }

    open spec fn add_req(self, rhs: Value) -> bool {
        true
    }

    open spec fn add_spec(self, rhs: Value) -> Option<Value> {
        Value::of_points(self.points() + rhs.points())
    }
}

/// A card: a value of a suit.
#[derive(Copy, Clone, Debug, PartialEq, Eq, Structural, Hash, PartialOrd, Ord)]
pub struct Card {
    pub val: Value,
    pub suit: Suit,
}

impl Card {
    /// The number of cards in a deck.
    pub const NUM_CARDS: usize = 40;

    /// The card's number from 0 to 39: ten per suit, suits in their natural
    /// order, values lowest first within a suit.
    pub open spec fn index(self) -> int {
        self.suit.index() * 10 + (self.val.points() - 1)
    }

    /// The card whose number is `n` (0 to 39).
    pub open spec fn at_index(n: int) -> Card {
        Card { val: Value::of_points(n % 10 + 1).unwrap(), suit: Suit::at_index(n / 10) }
    }

    /// The card's six-bit code: the value's code in bits 2 to 5, the
    /// suit's in bits 0 and 1. No card has code 0.
    pub open spec fn code(self) -> u8 {
        (self.val.code() | self.suit.code()) as u8
    }

    /// The card that a six-bit code stands for, where the code names a value.
    pub open spec fn of_code(m: u8) -> Card {
        Card {
            val: Value::of_code(m & 0b00111100u8).unwrap(),
            suit: Suit::at_index((m & 3u8) as int),
        }
    }

    /// Whether bits 2 to 5 of `m` hold the code of a value.
    pub open spec fn valid_code(m: u8) -> bool {
        Value::of_code(m & 0b00111100u8).is_some()
    }

    /// The card that a two-character text names: its value, then its suit.
    pub open spec fn of_text(s: Seq<char>) -> Option<Card> {
        if s.len() == 2 && Value::of_char(s[0]).is_some() && Suit::of_char(s[1]).is_some() {
            Some(Card { val: Value::of_char(s[0]).unwrap(), suit: Suit::of_char(s[1]).unwrap() })
        } else {
            None
        }
    }

    /// The message that `parse` gives for a text that names no card.
    pub open spec fn text_error(s: Seq<char>, nbytes: int) -> Seq<char> {
        if nbytes != 2 {
            "string must be of length two: "@ + s
        } else if Value::of_char(s[0]).is_none() {
            Value::char_error(s[0])
        } else {
            Suit::char_error(s[1])
        }
    }

    pub fn new(val: Value, suit: Suit) -> (c: Card)
        ensures
            c == (Card { val, suit }),
    {
        Card { val, suit }
    }

    /// Reads a card from two characters, value first (`"7d"` is the seven of
    /// diamonds). The text must be two bytes long; the value is read before
    /// the suit, and a text whose value is wrong names no card whatever
    /// follows it.
    pub fn parse(s: &str) -> (r: Result<Card, String>)
        requires
            s.spec_bytes().len() <= usize::MAX,
        ensures
            match r {
                Ok(c) => s.spec_bytes().len() == 2 && Card::of_text(s@) == Some(c),
                Err(e) => (s.spec_bytes().len() != 2 || Card::of_text(s@).is_none())
                    && e@ == Card::text_error(s@, s.spec_bytes().len() as int),
            },
    {
        if s.len() != 2 {
            return Err(join2("string must be of length two: ", s));
        }
        proof {
            lemma_two_bytes(s@);
        }
        let vr = Value::from_char(s.get_char(0));
        match vr {
            Err(e) => Err(e),
            Ok(v) => {
                let sr = Suit::from_char(s.get_char(1));
                match sr {
                    Err(e) => Err(e),
                    Ok(st) => Ok(Card::new(v, st)),
                }
            },
        }
    }

    /// The card's six-bit code.
    pub fn bitmask(&self) -> (r: u8)
        ensures
            r == self.code(),
            0 < r < 64,
            Card::valid_code(r),
            Card::of_code(r) == *self,
    {
        let r = self.val.bitmask() | self.suit.bitmask();
        proof {
            lemma_code_roundtrip(*self);
        }
        r
    }

    /// The card that the low six bits of `val` stand for.
    pub fn decode_bitmask(val: u8) -> (c: Card)
        requires
            Card::valid_code(val),
        ensures
            c == Card::of_code(val),
    {
        let v = Value::decode_bitmask(val);
        let s = Suit::decode_bitmask(val);
        Card::new(v, s)
    }

    /// The card's number from 0 to 39.
    pub fn num(&self) -> (r: usize)
        ensures
            r == self.index(),
            r < 40,
    {
        ((self.suit.number() - 1) as usize) * 10 + ((self.val.number() - 1) as usize)
    }

    /// The card whose number is `c`.
    pub fn from_num(c: usize) -> (r: Card)
        requires
            c < 40,
        ensures
            r == Card::at_index(c as int),
            r.index() == c,
    {
        Card { val: Value::from_num(c % 10), suit: Suit::from_num(c / 10) }
    }

    /// All forty cards, ordered by their number.
    pub fn all_cards() -> (r: Vec<Card>)
        ensures
            r.len() == 40,
            forall|i: int| 0 <= i < 40 ==> #[trigger] r@[i] == Card::at_index(i),
            forall|i: int| 0 <= i < 40 ==> (#[trigger] r@[i]).index() == i,
    {
        let mut r: Vec<Card> = Vec::new();
        let mut i: usize = 0;
        while i < 40
            invariant
                i <= 40,
                r.len() == i,
                forall|j: int| 0 <= j < i ==> #[trigger] r@[j] == Card::at_index(j),
                forall|j: int| 0 <= j < i ==> (#[trigger] r@[j]).index() == j,
            decreases 40 - i,
        {
            r.push(Card::from_num(i));
            i = i + 1;
        }
        r
    }

    /// How the card is shown to players, such as `(Seven of Diamonds)`.
    pub fn to_string(&self) -> (r: String)
        ensures
            r@ == "("@ + self.val.name() + " of "@ + self.suit.name() + ")"@,
    {
        let mut r = String::from_str("(");
        let v = self.val.to_string();
        r.append(v.as_str());
        r.append(" of ");
        let s = self.suit.to_string();
        r.append(s.as_str());
        r.append(")");
        r
    }
}

/// The character of the decimal digit `p`.
pub open spec fn digit_char(p: int) -> char {
    ((48 + p) as u32) as char
}

/// Every value can be typed: the digit of its points for the ace to the
/// seven, `a` or `A` for the ace, and `j`, `q`, `k` in either case for the
/// jack, queen and king each read back as that value, and a value read
/// from a digit is worth that many points.
pub proof fn lemma_values_typed()
    ensures
        forall|v: Value| #[trigger] v.points() <= 7 ==> Value::of_char(digit_char(v.points())) == Some(v),
        forall|p: int|
            1 <= p <= 7 ==> #[trigger] Value::of_char(digit_char(p)) == Value::of_points(p)
                && Value::of_points(p).unwrap().points() == p,
        Value::of_char('a') == Some(Value::One) && Value::of_char('A') == Some(Value::One),
        Value::of_char('j') == Some(Value::Jack) && Value::of_char('J') == Some(Value::Jack),
        Value::of_char('q') == Some(Value::Queen) && Value::of_char('Q') == Some(Value::Queen),
        Value::of_char('k') == Some(Value::King) && Value::of_char('K') == Some(Value::King),
{
    assert(digit_char(1) == '1');
    assert(digit_char(2) == '2');
    assert(digit_char(3) == '3');
    assert(digit_char(4) == '4');
    assert(digit_char(5) == '5');
    assert(digit_char(6) == '6');
    assert(digit_char(7) == '7');
}

/// Every suit can be typed by its initial, in either case: `s`, `c`, `d`
/// and `h` read back as spades, clubs, diamonds and hearts, and no other
/// letter names a suit.
pub proof fn lemma_suits_typed()
    ensures
        Suit::of_char('s') == Some(Suit::Spades) && Suit::of_char('S') == Some(Suit::Spades),
        Suit::of_char('c') == Some(Suit::Clubs) && Suit::of_char('C') == Some(Suit::Clubs),
        Suit::of_char('d') == Some(Suit::Diamonds) && Suit::of_char('D') == Some(Suit::Diamonds),
        Suit::of_char('h') == Some(Suit::Hearts) && Suit::of_char('H') == Some(Suit::Hearts),
        forall|c: char|
            #![trigger Suit::of_char(c)]
            !(c == 's' || c == 'S' || c == 'c' || c == 'C' || c == 'd' || c == 'D' || c == 'h'
                || c == 'H') ==> Suit::of_char(c).is_none(),
{
}

/// A text is at least as many bytes long as it has characters.
proof fn lemma_bytes_at_least_chars(s: Seq<char>)
    ensures
        encode_utf8(s).len() >= s.len(),
    decreases s.len(),
{
    if s.len() > 0 {
        lemma_bytes_at_least_chars(s.drop_first());
    }
}

/// A text of two bytes holds a character, and when that character is a
/// value, which is written in one byte, it holds exactly one more.
proof fn lemma_two_bytes(s: Seq<char>)
    requires
        encode_utf8(s).len() == 2,
    ensures
        s.len() >= 1,
        Value::of_char(s[0]).is_some() ==> s.len() == 2,
{
    if s.len() == 0 {
        assert(encode_utf8(s) == Seq::<u8>::empty());
    } else if Value::of_char(s[0]).is_some() {
        let c = s[0];
        assert(c as u32 <= 0x7F);
        assert(has_width_1_encoding(c as u32));
        assert(encode_scalar(c as u32).len() == 1);
        let rest = s.drop_first();
        assert(encode_utf8(rest).len() == 1);
        lemma_bytes_at_least_chars(rest);
        if rest.len() == 0 {
            assert(encode_utf8(rest) == Seq::<u8>::empty());
        }
        if rest.len() > 1 {
            lemma_bytes_at_least_chars(rest);
        }
    }
}

/// A card's code names it: the code is nonzero, fits in six bits, and reads
/// back as the same card.
pub proof fn lemma_code_roundtrip(c: Card)
    ensures
        0 < c.code() < 64,
        Card::valid_code(c.code()),
        Card::of_code(c.code()) == c,
{
    let v = c.val.code();
    let s = c.suit.code();
    assert(s < 4);
    assert((v | s) & 0b00111100u8 == v && (v | s) & 3u8 == s && 0 < (v | s) < 64) by (bit_vector)
        requires
            s < 4,
            v == 4 || v == 8 || v == 12 || v == 16 || v == 20 || v == 24 || v == 28 || v == 32
                || v == 36 || v == 44,
    ;
}

/// A card's number names it, and every number below forty names a card.
pub proof fn lemma_index_roundtrip(c: Card, n: int)
    ensures
        0 <= c.index() < 40,
        Card::at_index(c.index()) == c,
        0 <= n < 40 ==> Card::at_index(n).index() == n,
{
}

} // verus!
