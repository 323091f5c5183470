//! Card, Suit, Rank: the primitive types of a 45s game, their wire codes,
//! and the canonical 52-card deck.

use vstd::prelude::*;
use vstd::utf8::is_ascii_chars;
use vstd::string::StringSliceAdditionalSpecFns;
use crate::text::{
    all_white_space, ascii_upper, ascii_upper_char, lemma_trim_printable, lemma_trim_surrounding, printable_ascii,
    trim_str, trimmed, uppercase_str, uppercased,
};

verus! {

/// The four suits, in canonical order.
#[derive(Copy, Clone, PartialEq, Eq, Structural, Hash, Debug, PartialOrd, Ord)]
pub enum Suit {
    Clubs,
    Diamonds,
    Hearts,
    Spades,
}

impl Suit {
    pub const ALL: [Suit; 4] = [Suit::Clubs, Suit::Diamonds, Suit::Hearts, Suit::Spades];

    /// Hearts and Diamonds are red.
    pub open spec fn red(self) -> bool {
        self == Suit::Hearts || self == Suit::Diamonds
    }

    /// Red suits rank their non-trump number cards high-to-low;
    /// black suits rank them low-to-high.
    pub fn is_red(self) -> (r: bool)
        ensures
            r == self.red(),
    {
        match self {
            Suit::Hearts | Suit::Diamonds => true,
            _ => false,
        }
    }

    pub fn is_black(self) -> (r: bool)
        ensures
            r == !self.red(),
    {
        !self.is_red()
    }

    /// The one-letter wire code: C, D, H or S.
    pub open spec fn code_char(self) -> char {
        match self {
            Suit::Clubs => 'C',
            Suit::Diamonds => 'D',
            Suit::Hearts => 'H',
            Suit::Spades => 'S',
        }
    }

    pub fn code(self) -> (c: char)
        ensures
            c == self.code_char(),
    {
        match self {
            Suit::Clubs => 'C',
            Suit::Diamonds => 'D',
            Suit::Hearts => 'H',
            Suit::Spades => 'S',
        }
    }

    /// The suit's code as a one-character string.
    pub fn code_str(self) -> (s: &'static str)
        ensures
            s@ == seq![self.code_char()],
    {
        match self {
            Suit::Clubs => {
                proof {
                    reveal_strlit("C");
                }
                "C"
            },
            Suit::Diamonds => {
                proof {
                    reveal_strlit("D");
                }
                "D"
            },
            Suit::Hearts => {
                proof {
                    reveal_strlit("H");
                }
                "H"
            },
            Suit::Spades => {
                proof {
                    reveal_strlit("S");
                }
                "S"
            },
        }
    }

    /// Position in canonical order: Clubs 0, Diamonds 1, Hearts 2, Spades 3.
    pub open spec fn ordinal(self) -> int {
        match self {
            Suit::Clubs => 0,
            Suit::Diamonds => 1,
            Suit::Hearts => 2,
            Suit::Spades => 3,
        }
    }

    pub fn index(self) -> (i: u8)
        ensures
            i == self.ordinal(),
    {
        match self {
            Suit::Clubs => 0,
            Suit::Diamonds => 1,
            Suit::Hearts => 2,
            Suit::Spades => 3,
        }
    }

    /// The suit at a canonical position.
    pub open spec fn at(i: int) -> Suit {
        if i == 0 {
            Suit::Clubs
        } else if i == 1 {
            Suit::Diamonds
        } else if i == 2 {
            Suit::Hearts
        } else {
            Suit::Spades
        }
    }

    pub fn from_index(i: u8) -> (s: Suit)
        requires
            i < 4,
        ensures
            s == Suit::at(i as int),
            s.ordinal() == i,
    {
        if i == 0 {
            Suit::Clubs
        } else if i == 1 {
            Suit::Diamonds
        } else if i == 2 {
            Suit::Hearts
        } else {
            Suit::Spades
        }
    }
}

/// The thirteen ranks. `value` gives the face value, with Ace high at 14.
#[derive(Copy, Clone, PartialEq, Eq, Structural, Hash, Debug, PartialOrd, Ord)]
pub enum Rank {
    Two,
    Three,
    Four,
    Five,
    Six,
    Seven,
    Eight,
    Nine,
    Ten,
    Jack,
    Queen,
    King,
    Ace,
}

impl Rank {
    pub const ALL: [Rank; 13] = [
        Rank::Two,
        Rank::Three,
        Rank::Four,
        Rank::Five,
        Rank::Six,
        Rank::Seven,
        Rank::Eight,
        Rank::Nine,
        Rank::Ten,
        Rank::Jack,
        Rank::Queen,
        Rank::King,
        Rank::Ace,
    ];

    /// Face value: 2..=10 for number cards, J 11, Q 12, K 13, A 14.
    pub open spec fn face(self) -> int {
        match self {
            Rank::Two => 2,
            Rank::Three => 3,
            Rank::Four => 4,
            Rank::Five => 5,
            Rank::Six => 6,
            Rank::Seven => 7,
            Rank::Eight => 8,
            Rank::Nine => 9,
            Rank::Ten => 10,
            Rank::Jack => 11,
            Rank::Queen => 12,
            Rank::King => 13,
            Rank::Ace => 14,
        }
    }

    pub fn value(self) -> (v: u8)
        ensures
            v == self.face(),
    {
        match self {
            Rank::Two => 2,
            Rank::Three => 3,
            Rank::Four => 4,
            Rank::Five => 5,
            Rank::Six => 6,
            Rank::Seven => 7,
            Rank::Eight => 8,
            Rank::Nine => 9,
            Rank::Ten => 10,
            Rank::Jack => 11,
            Rank::Queen => 12,
            Rank::King => 13,
            Rank::Ace => 14,
        }
    }

    /// The rank whose face value is `v` (for `v` in 2..=14).
    pub open spec fn of_face(v: int) -> Rank {
        if v == 2 {
            Rank::Two
        } else if v == 3 {
            Rank::Three
        } else if v == 4 {
            Rank::Four
        } else if v == 5 {
            Rank::Five
        } else if v == 6 {
            Rank::Six
        } else if v == 7 {
            Rank::Seven
        } else if v == 8 {
            Rank::Eight
        } else if v == 9 {
            Rank::Nine
        } else if v == 10 {
            Rank::Ten
        } else if v == 11 {
            Rank::Jack
        } else if v == 12 {
            Rank::Queen
        } else if v == 13 {
            Rank::King
        } else {
            Rank::Ace
        }
    }

    pub fn from_value(v: u8) -> (r: Rank)
        requires
            2 <= v <= 14,
        ensures
            r == Rank::of_face(v as int),
            r.face() == v,
    {
        if v == 2 {
            Rank::Two
        } else if v == 3 {
            Rank::Three
        } else if v == 4 {
            Rank::Four
        } else if v == 5 {
            Rank::Five
        } else if v == 6 {
            Rank::Six
        } else if v == 7 {
            Rank::Seven
        } else if v == 8 {
            Rank::Eight
        } else if v == 9 {
            Rank::Nine
        } else if v == 10 {
            Rank::Ten
        } else if v == 11 {
            Rank::Jack
        } else if v == 12 {
            Rank::Queen
        } else if v == 13 {
            Rank::King
        } else {
            Rank::Ace
        }
    }

    /// Display code: "2".."10", "J", "Q", "K", "A".
    pub open spec fn code_chars(self) -> Seq<char> {
        match self {
            Rank::Two => seq!['2'],
            Rank::Three => seq!['3'],
            Rank::Four => seq!['4'],
            Rank::Five => seq!['5'],
            Rank::Six => seq!['6'],
            Rank::Seven => seq!['7'],
            Rank::Eight => seq!['8'],
            Rank::Nine => seq!['9'],
            Rank::Ten => seq!['1', '0'],
            Rank::Jack => seq!['J'],
            Rank::Queen => seq!['Q'],
            Rank::King => seq!['K'],
            Rank::Ace => seq!['A'],
        }
    }

    pub fn code(self) -> (s: &'static str)
        ensures
            s@ == self.code_chars(),
    {
        match self {
            Rank::Two => {
                proof {
                    reveal_strlit("2");
                }
                "2"
            },
            Rank::Three => {
                proof {
                    reveal_strlit("3");
                }
                "3"
            },
            Rank::Four => {
                proof {
                    reveal_strlit("4");
                }
                "4"
            },
            Rank::Five => {
                proof {
                    reveal_strlit("5");
                }
                "5"
            },
            Rank::Six => {
                proof {
                    reveal_strlit("6");
                }
                "6"
            },
            Rank::Seven => {
                proof {
                    reveal_strlit("7");
                }
                "7"
            },
            Rank::Eight => {
                proof {
                    reveal_strlit("8");
                }
                "8"
            },
            Rank::Nine => {
                proof {
                    reveal_strlit("9");
                }
                "9"
            },
            Rank::Ten => {
                proof {
                    reveal_strlit("10");
                }
                "10"
            },
            Rank::Jack => {
                proof {
                    reveal_strlit("J");
                }
                "J"
            },
            Rank::Queen => {
                proof {
                    reveal_strlit("Q");
                }
                "Q"
            },
            Rank::King => {
                proof {
                    reveal_strlit("K");
                }
                "K"
            },
            Rank::Ace => {
                proof {
                    reveal_strlit("A");
                }
                "A"
            },
        }
    }
}

/// A playing card. Two cards are equal exactly when suit and rank are.
#[derive(Copy, Clone, PartialEq, Eq, Structural, Hash, Debug)]
pub struct Card {
    pub suit: Suit,
    pub rank: Rank,
}

impl Card {
    pub fn new(suit: Suit, rank: Rank) -> (c: Card)
        ensures
            c == (Card { suit, rank }),
    {
        Card { suit, rank }
    }

    /// The wire code: rank code followed by suit code ("AH", "10D", "5S").
    pub open spec fn code_chars(self) -> Seq<char> {
        self.rank.code_chars().push(self.suit.code_char())
    }

    pub fn code(self) -> (s: String)
        ensures
            s@ == self.code_chars(),
    {
        let mut s = String::from_str(self.rank.code());
        s.append(self.suit.code_str());
        s
    }

    /// Position of the card in the canonical deck (0..52): suit-major,
    /// ranks ascending from Two to Ace within a suit.
    pub open spec fn position(self) -> int {
        self.suit.ordinal() * 13 + self.rank.face() - 2
    }

    /// The card at canonical position `i`.
    pub open spec fn at(i: int) -> Card {
        Card { suit: Suit::at(i / 13), rank: Rank::of_face(i % 13 + 2) }
    }
}

/// The three ways a card code like "AH" can be malformed.
#[derive(Debug, PartialEq, Eq, Structural, Clone, Copy)]
pub enum CardParseError {
    TooShort,
    BadRank,
    BadSuit,
}

/// The human-readable description of a card parse error.
pub open spec fn parse_error_text(e: CardParseError) -> Seq<char> {
    match e {
        CardParseError::TooShort => "card code too short (need rank+suit)"@,
        CardParseError::BadRank => "unknown rank"@,
        CardParseError::BadSuit => "unknown suit"@,
    }
}

impl CardParseError {
    /// Human-readable description of the error.
    pub fn message(&self) -> (m: &'static str)
        ensures
            m@ == parse_error_text(*self),
    {
        match self {
            CardParseError::TooShort => "card code too short (need rank+suit)",
            CardParseError::BadRank => "unknown rank",
            CardParseError::BadSuit => "unknown suit",
        }
    }
}

/// The rank whose one-character code is `x` ('2'..'9', 'J', 'Q', 'K', 'A').
pub open spec fn rank_of_char(x: char) -> Option<Rank> {
    if x == '2' {
        Some(Rank::Two)
    } else if x == '3' {
        Some(Rank::Three)
    } else if x == '4' {
        Some(Rank::Four)
    } else if x == '5' {
        Some(Rank::Five)
    } else if x == '6' {
        Some(Rank::Six)
    } else if x == '7' {
        Some(Rank::Seven)
    } else if x == '8' {
        Some(Rank::Eight)
    } else if x == '9' {
        Some(Rank::Nine)
    } else if x == 'J' {
        Some(Rank::Jack)
    } else if x == 'Q' {
        Some(Rank::Queen)
    } else if x == 'K' {
        Some(Rank::King)
    } else if x == 'A' {
        Some(Rank::Ace)
    } else {
        None
    }
}

/// The rank whose code is `r`: one of the one-character codes, or "10".
pub open spec fn rank_of_code(r: Seq<char>) -> Option<Rank> {
    if r.len() == 1 {
        rank_of_char(r[0])
    } else if r.len() == 2 && r[0] == '1' && r[1] == '0' {
        Some(Rank::Ten)
    } else {
        None
    }
}

/// The suit whose code is `x`: 'C', 'D', 'H' or 'S'.
pub open spec fn suit_of_code(x: char) -> Option<Suit> {
    if x == 'C' {
        Some(Suit::Clubs)
    } else if x == 'D' {
        Some(Suit::Diamonds)
    } else if x == 'H' {
        Some(Suit::Hearts)
    } else if x == 'S' {
        Some(Suit::Spades)
    } else {
        None
    }
}

/// Decoding of an already trimmed and upper-cased code: the last character
/// is the suit, the characters before it the rank. Fewer than two characters
/// are too short; else an unknown rank part is a bad rank; else an unknown
/// suit character is a bad suit.
pub open spec fn decode_code(t: Seq<char>) -> Result<Card, CardParseError> {
    if t.len() < 2 {
        Err(CardParseError::TooShort)
    } else {
        match rank_of_code(t.drop_last()) {
            None => Err(CardParseError::BadRank),
            Some(rank) => match suit_of_code(t.last()) {
                None => Err(CardParseError::BadSuit),
                Some(suit) => Ok(Card { suit, rank }),
            },
        }
    }
}

/// Decoding of a raw code: trim, upper-case, then `decode_code`.
pub open spec fn parse_code(s: Seq<char>) -> Result<Card, CardParseError> {
    decode_code(uppercased(trimmed(s)))
}

fn rank_of_chars(t: &str, len: usize) -> (r: Option<Rank>)
    requires
        len <= t@.len(),
    ensures
        r == rank_of_code(t@.subrange(0, len as int)),
{
    if len == 1 {
        let x = t.get_char(0);
        if x == '2' {
            Some(Rank::Two)
        } else if x == '3' {
            Some(Rank::Three)
        } else if x == '4' {
            Some(Rank::Four)
        } else if x == '5' {
            Some(Rank::Five)
        } else if x == '6' {
            Some(Rank::Six)
        } else if x == '7' {
            Some(Rank::Seven)
        } else if x == '8' {
            Some(Rank::Eight)
        } else if x == '9' {
            Some(Rank::Nine)
        } else if x == 'J' {
            Some(Rank::Jack)
        } else if x == 'Q' {
            Some(Rank::Queen)
        } else if x == 'K' {
            Some(Rank::King)
        } else if x == 'A' {
            Some(Rank::Ace)
        } else {
            None
        }
    } else if len == 2 && t.get_char(0) == '1' && t.get_char(1) == '0' {
        Some(Rank::Ten)
    } else {
        None
    }
}

fn suit_of_char(x: char) -> (r: Option<Suit>)
    ensures
        r == suit_of_code(x),
{
    if x == 'C' {
        Some(Suit::Clubs)
    } else if x == 'D' {
        Some(Suit::Diamonds)
    } else if x == 'H' {
        Some(Suit::Hearts)
    } else if x == 'S' {
        Some(Suit::Spades)
    } else {
        None
    }
}

/// Decodes a code that has already been trimmed and upper-cased.
pub fn decode_normalized(t: &str) -> (r: Result<Card, CardParseError>)
    ensures
        r == decode_code(t@),
{
    let n = t.unicode_len();
    if n < 2 {
        return Err(CardParseError::TooShort);
    }
    assert(t@.subrange(0, (n - 1) as int) =~= t@.drop_last());
    match rank_of_chars(t, n - 1) {
        None => Err(CardParseError::BadRank),
        Some(rank) => match suit_of_char(t.get_char(n - 1)) {
            None => Err(CardParseError::BadSuit),
            Some(suit) => Ok(Card { suit, rank }),
        },
    }
}

/// If the ASCII upper-case mapping of `t` is all ASCII, `t` is all ASCII.
proof fn lemma_ascii_upper_ascii(t: Seq<char>, u: Seq<char>)
    requires
        ascii_upper(t) == u,
        is_ascii_chars(u),
    ensures
        is_ascii_chars(t),
{
    assert forall|i: int| 0 <= i < t.len() implies '\0' <= #[trigger] t[i] <= '\u{7f}' by {
        assert(ascii_upper(t)[i] == ascii_upper_char(t[i]));
        assert(u[i] <= '\u{7f}');
    }
}

/// Surrounding white space does not change how a card code parses.
pub proof fn lemma_parse_ignores_white_space(pre: Seq<char>, s: Seq<char>, post: Seq<char>)
    requires
        all_white_space(pre),
        all_white_space(post),
    ensures
        parse_code(pre + s + post) == parse_code(s),
{
    lemma_trim_surrounding(pre, s, post);
}

impl Card {
    /// Parses a card code: surrounding whitespace is ignored and letters may
    /// be lower case ("  ah  ", "10d").
    pub fn parse(s: &str) -> (r: Result<Card, CardParseError>)
        ensures
            r == parse_code(s@),
            is_ascii_chars(trimmed(s@)) ==> r == decode_code(ascii_upper(trimmed(s@))),
            forall|c: Card| #[trigger] c.code_chars() == ascii_upper(trimmed(s@)) ==> r == Ok::<Card, CardParseError>(c),
            forall|c: Card| #[trigger] c.code_chars() == s@ ==> r == Ok::<Card, CardParseError>(c),
    {
        let t = trim_str(s);
        let u = uppercase_str(t);
        let r = decode_normalized(u.as_str());
        proof {
            assert forall|c: Card| #[trigger] c.code_chars() == ascii_upper(trimmed(s@)) implies r == Ok::<
                Card,
                CardParseError,
            >(c) by {
                lemma_code_chars_decode(c);
                lemma_ascii_upper_ascii(t@, c.code_chars());
            }
            assert forall|c: Card| #[trigger] c.code_chars() == s@ implies r == Ok::<Card, CardParseError>(c) by {
                lemma_code_chars_decode(c);
                lemma_trim_printable(s@);
            }
        }
        r
    }
}

impl core::str::FromStr for Card {
    type Err = CardParseError;

    fn from_str(s: &str) -> (r: Result<Card, CardParseError>)
        ensures
            r == parse_code(s@),
            is_ascii_chars(trimmed(s@)) ==> r == decode_code(ascii_upper(trimmed(s@))),
            forall|c: Card| #[trigger] c.code_chars() == ascii_upper(trimmed(s@)) ==> r == Ok::<Card, CardParseError>(c),
            forall|c: Card| #[trigger] c.code_chars() == s@ ==> r == Ok::<Card, CardParseError>(c),
    {
        Card::parse(s)
    }
}

/// The 52-card deck in canonical order: Clubs 2..A, Diamonds 2..A,
/// Hearts 2..A, Spades 2..A.
pub open spec fn canonical_deck() -> Seq<Card> {
    Seq::new(52, |i: int| Card::at(i))
}

fn card_at_position(i: u8) -> (c: Card)
    requires
        i < 52,
    ensures
        c == Card::at(i as int),
{
    Card { suit: Suit::from_index(i / 13), rank: Rank::from_value(i % 13 + 2) }
}

/// The 52-card standard deck in a stable canonical order
/// (Clubs 2..A, Diamonds 2..A, Hearts 2..A, Spades 2..A).
pub fn standard_deck() -> (deck: Vec<Card>)
    ensures
        deck@ == canonical_deck(),
{
    let mut deck: Vec<Card> = Vec::with_capacity(52);
    let mut i: u8 = 0;
    while i < 52
        invariant
            i <= 52,
            deck@ == canonical_deck().take(i as int),
        decreases 52 - i,
    {
        deck.push(card_at_position(i));
        assert(canonical_deck().take(i as int + 1) =~= canonical_deck().take(i as int).push(
            Card::at(i as int),
        ));
        i = i + 1;
    }
    assert(canonical_deck().take(52) =~= canonical_deck());
    deck
}

/// Every card has a position in 0..52, and the card at that position is itself.
pub proof fn lemma_card_position(c: Card)
    ensures
        0 <= c.position() < 52,
        Card::at(c.position()) == c,
{
    match c.suit {
        Suit::Clubs => {},
        Suit::Diamonds => {},
        Suit::Hearts => {},
        Suit::Spades => {},
    }
    match c.rank {
        Rank::Two => {},
        Rank::Three => {},
        Rank::Four => {},
        Rank::Five => {},
        Rank::Six => {},
        Rank::Seven => {},
        Rank::Eight => {},
        Rank::Nine => {},
        Rank::Ten => {},
        Rank::Jack => {},
        Rank::Queen => {},
        Rank::King => {},
        Rank::Ace => {},
    }
}

/// The card at each position 0..52 sits at that position.
pub proof fn lemma_position_of_at(i: int)
    requires
        0 <= i < 52,
    ensures
        Card::at(i).position() == i,
{
}

/// The standard deck holds 52 cards, each card exactly once.
pub proof fn lemma_standard_deck_complete()
    ensures
        canonical_deck().len() == 52,
        canonical_deck().no_duplicates(),
        forall|c: Card| #[trigger] canonical_deck().contains(c),
        forall|c: Card| #[trigger] canonical_deck()[c.position()] == c,
{
    assert forall|i: int, j: int| 0 <= i < 52 && 0 <= j < 52 && i != j implies canonical_deck()[i]
        != canonical_deck()[j] by {
        lemma_position_of_at(i);
        lemma_position_of_at(j);
    }
    assert forall|c: Card| #[trigger] canonical_deck().contains(c) by {
        lemma_card_position(c);
        assert(canonical_deck()[c.position()] == c);
    }
    assert forall|c: Card| #[trigger] canonical_deck()[c.position()] == c by {
        lemma_card_position(c);
    }
}

/// A card's code is printable upper-case ASCII, and it decodes back to the card.
pub proof fn lemma_code_chars_decode(c: Card)
    ensures
        printable_ascii(c.code_chars()),
        is_ascii_chars(c.code_chars()),
        ascii_upper(c.code_chars()) == c.code_chars(),
        decode_code(c.code_chars()) == Ok::<Card, CardParseError>(c),
{
    let s = c.code_chars();
    assert(is_ascii_chars(s));
    assert(ascii_upper(s) =~= s);
    assert(s.drop_last() =~= c.rank.code_chars());
}

/// Character-wise equality of two strings.
fn same_chars(a: &str, b: &str) -> (r: bool)
    ensures
        r == (a@ == b@),
{
    let n = a.unicode_len();
    if n != b.unicode_len() {
        return false;
    }
    let mut i: usize = 0;
    while i < n
        invariant
            n == a@.len(),
            n == b@.len(),
            i <= n,
            forall|j: int| 0 <= j < i ==> a@[j] == b@[j],
        decreases n - i,
    {
        if a.get_char(i) != b.get_char(i) {
            return false;
        }
        i = i + 1;
    }
    assert(a@ =~= b@);
    true
}

/// The suit named by an already trimmed, upper-cased label: its letter or its
/// full name ("C" or "CLUBS", "D" or "DIAMONDS", "H" or "HEARTS", "S" or "SPADES").
pub open spec fn suit_of_label(u: Seq<char>) -> Option<Suit> {
    if u == seq!['C'] || u == seq!['C', 'L', 'U', 'B', 'S'] {
        Some(Suit::Clubs)
    } else if u == seq!['D'] || u == seq!['D', 'I', 'A', 'M', 'O', 'N', 'D', 'S'] {
        Some(Suit::Diamonds)
    } else if u == seq!['H'] || u == seq!['H', 'E', 'A', 'R', 'T', 'S'] {
        Some(Suit::Hearts)
    } else if u == seq!['S'] || u == seq!['S', 'P', 'A', 'D', 'E', 'S'] {
        Some(Suit::Spades)
    } else {
        None
    }
}

impl Suit {
    /// Parses a suit label, ignoring surrounding whitespace and letter case:
    /// "s", "Spades", " HEARTS ", ... `None` for anything else.
    pub fn parse_label(s: &str) -> (r: Option<Suit>)
        ensures
            r == suit_of_label(uppercased(trimmed(s@))),
            is_ascii_chars(trimmed(s@)) ==> r == suit_of_label(ascii_upper(trimmed(s@))),
    {
        let t = trim_str(s);
        let u = uppercase_str(t);
        let u = u.as_str();
        proof {
            reveal_strlit("C");
            reveal_strlit("CLUBS");
            reveal_strlit("D");
            reveal_strlit("DIAMONDS");
            reveal_strlit("H");
            reveal_strlit("HEARTS");
            reveal_strlit("S");
            reveal_strlit("SPADES");
            assert("C"@ =~= seq!['C']);
            assert("CLUBS"@ =~= seq!['C', 'L', 'U', 'B', 'S']);
            assert("D"@ =~= seq!['D']);
            assert("DIAMONDS"@ =~= seq!['D', 'I', 'A', 'M', 'O', 'N', 'D', 'S']);
            assert("H"@ =~= seq!['H']);
            assert("HEARTS"@ =~= seq!['H', 'E', 'A', 'R', 'T', 'S']);
            assert("S"@ =~= seq!['S']);
            assert("SPADES"@ =~= seq!['S', 'P', 'A', 'D', 'E', 'S']);
        }
        if same_chars(u, "C") || same_chars(u, "CLUBS") {
            Some(Suit::Clubs)
        } else if same_chars(u, "D") || same_chars(u, "DIAMONDS") {
            Some(Suit::Diamonds)
        } else if same_chars(u, "H") || same_chars(u, "HEARTS") {
            Some(Suit::Hearts)
        } else if same_chars(u, "S") || same_chars(u, "SPADES") {
            Some(Suit::Spades)
        } else {
            None
        }
    }
}

} // verus!
