//! Reading hands from text: a hand is five tokens separated by single spaces,
//! and a token is a rank character followed by a suit character.

use vstd::prelude::*;
use vstd::string::*;

use crate::card::{card_of_chars, map_card_value, Card, HAND_SIZE};

verus! {

/// Why a text could not be read as a hand.
#[derive(Debug, PartialEq, Eq)]
pub enum ParseError {
    /// A token is not a rank character followed by a suit character. Holds
    /// the token.
    InvalidCardToken(String),
    /// The hand does not have five tokens. Holds the number it has.
    InvalidHandSize(usize),
}

/// What a `ParseError` says: the text of the token that was refused, or the
/// number of tokens that were found.
pub enum ParseErrorView {
    InvalidCardToken(Seq<char>),
    InvalidHandSize(nat),
}

impl Clone for ParseError {
    fn clone(&self) -> (copy: Self)
        ensures
            copy@ == self@,
    {
        match self {
            ParseError::InvalidCardToken(token) => ParseError::InvalidCardToken(token.clone()),
            ParseError::InvalidHandSize(found) => ParseError::InvalidHandSize(*found),
        }
    }
}

impl View for ParseError {
    type V = ParseErrorView;

    open spec fn view(&self) -> ParseErrorView {
        match self {
            ParseError::InvalidCardToken(token) => ParseErrorView::InvalidCardToken(token@),
            ParseError::InvalidHandSize(found) => ParseErrorView::InvalidHandSize(*found as nat),
        }
    }
}

/// The tokens of a text: the pieces between its spaces. Every space separates
/// two tokens, so a text with `n` spaces has `n + 1` tokens, some of them
/// empty where the text starts or ends with a space or has two spaces in a
/// row.
pub open spec fn tokens_of(text: Seq<char>) -> Seq<Seq<char>>
    decreases text.len(),
{
    if text.len() == 0 {
        seq![Seq::<char>::empty()]
    } else {
        let before = tokens_of(text.drop_last());
        if text.last() == ' ' {
            before.push(Seq::<char>::empty())
        } else {
            before.drop_last().push(before.last().push(text.last()))
        }
    }
}

/// The card that a token denotes: the token has exactly two characters, the
/// first a rank character and the second a suit character.
pub open spec fn card_of_token(token: Seq<char>) -> Option<Card> {
    if token.len() == 2 {
        card_of_chars(token[0], token[1])
    } else {
        None
    }
}

/// Every token denotes a card.
pub open spec fn all_tokens_valid(tokens: Seq<Seq<char>>) -> bool {
    forall|i: int| 0 <= i < tokens.len() ==> card_of_token(#[trigger] tokens[i]) is Some
}

/// The token at `i` denotes no card, and every token before it denotes one.
pub open spec fn is_first_invalid(tokens: Seq<Seq<char>>, i: int) -> bool {
    &&& 0 <= i < tokens.len()
    &&& card_of_token(tokens[i]) is None
    &&& forall|j: int| 0 <= j < i ==> card_of_token(#[trigger] tokens[j]) is Some
}

/// The place of the first token that denotes no card.
pub open spec fn first_invalid(tokens: Seq<Seq<char>>) -> int {
    choose|i: int| is_first_invalid(tokens, i)
}

/// The cards that a sequence of valid tokens denotes, in the order of the
/// tokens.
pub open spec fn cards_of_tokens(tokens: Seq<Seq<char>>) -> Seq<Card> {
    tokens.map_values(|token: Seq<char>| card_of_token(token).unwrap())
}

/// What reading a hand from its tokens gives. A number of tokens other than
/// five is refused first; then the first token that denotes no card is
/// refused; five valid tokens give their five cards.
pub open spec fn hand_of_tokens(tokens: Seq<Seq<char>>) -> Result<Seq<Card>, ParseErrorView> {
    if tokens.len() != HAND_SIZE {
        Err(ParseErrorView::InvalidHandSize(tokens.len()))
    } else if !all_tokens_valid(tokens) {
        Err(ParseErrorView::InvalidCardToken(tokens[first_invalid(tokens)]))
    } else {
        Ok(cards_of_tokens(tokens))
    }
}

/// The texts of a sequence of string slices.
pub open spec fn token_texts(tokens: Seq<&str>) -> Seq<Seq<char>> {
    tokens.map_values(|token: &str| token@)
}

/// The first invalid token is the only one of its kind.
pub proof fn lemma_first_invalid_unique(tokens: Seq<Seq<char>>, i: int)
    requires
        is_first_invalid(tokens, i),
    ensures
        first_invalid(tokens) == i,
        !all_tokens_valid(tokens),
{
    let j = first_invalid(tokens);
    assert(is_first_invalid(tokens, j));
    if j < i {
        assert(card_of_token(tokens[j]) is Some);
    }
    if i < j {
        assert(card_of_token(tokens[i]) is Some);
    }
}

/// A text always has a token, if only an empty one.
pub proof fn lemma_tokens_nonempty(text: Seq<char>)
    ensures
        tokens_of(text).len() >= 1,
    decreases text.len(),
{
    if text.len() > 0 {
        lemma_tokens_nonempty(text.drop_last());
    }
}

/// The text that a sequence of tokens stands for: the tokens in their order
/// with one space between each two.
pub open spec fn join_tokens(tokens: Seq<Seq<char>>) -> Seq<char>
    decreases tokens.len(),
{
    if tokens.len() == 0 {
        Seq::<char>::empty()
    } else if tokens.len() == 1 {
        tokens[0]
    } else {
        join_tokens(tokens.drop_last()) + seq![' '] + tokens.last()
    }
}

/// No token holds a space.
pub open spec fn tokens_without_spaces(tokens: Seq<Seq<char>>) -> bool {
    forall|i: int, j: int|
        0 <= i < tokens.len() && 0 <= j < tokens[i].len() ==> (#[trigger] tokens[i][j]) != ' '
}

/// The tokens of a text hold no space, and put together again with a space
/// between each two they give the text.
pub proof fn lemma_tokens_rejoin(text: Seq<char>)
    ensures
        tokens_of(text).len() >= 1,
        tokens_without_spaces(tokens_of(text)),
        join_tokens(tokens_of(text)) == text,
    decreases text.len(),
{
    let tokens = tokens_of(text);
    if text.len() == 0 {
        assert(join_tokens(tokens) =~= text);
    } else {
        let shorter = text.drop_last();
        let before = tokens_of(shorter);
        let c = text.last();
        lemma_tokens_rejoin(shorter);
        assert(text =~= shorter.push(c));
        if c == ' ' {
            assert(tokens.drop_last() =~= before);
            assert(join_tokens(tokens) =~= text);
            assert forall|i: int, j: int|
                0 <= i < tokens.len() && 0 <= j < tokens[i].len() implies (#[trigger] tokens[i][j])
                != ' ' by {
                assert(tokens[i] == before[i]);
            }
        } else {
            let last = before.last().push(c);
            assert(tokens.last() == last);
            assert(tokens.drop_last() =~= before.drop_last());
            if before.len() == 1 {
                assert(join_tokens(tokens) =~= text);
            } else {
                assert(join_tokens(before) == join_tokens(before.drop_last()) + seq![' ']
                    + before.last());
                assert(join_tokens(tokens) =~= text);
            }
            assert forall|i: int, j: int|
                0 <= i < tokens.len() && 0 <= j < tokens[i].len() implies (#[trigger] tokens[i][j])
                != ' ' by {
                if i < tokens.len() - 1 {
                    assert(tokens[i] == before[i]);
                } else if j < before.last().len() {
                    assert(tokens[i][j] == before[before.len() - 1][j]);
                }
            }
        }
    }
}

/// Tokens without spaces are the tokens of the text that they stand for:
/// splitting undoes joining, so a text has its tokens and no others.
pub proof fn lemma_tokens_of_joined(tokens: Seq<Seq<char>>)
    requires
        tokens.len() >= 1,
        tokens_without_spaces(tokens),
    ensures
        tokens_of(join_tokens(tokens)) == tokens,
    decreases join_tokens(tokens).len(), tokens.len(),
{
    let text = join_tokens(tokens);
    let last = tokens.last();
    let others = tokens.drop_last();
    if last.len() > 0 {
        let c = last.last();
        assert(c == tokens[tokens.len() - 1][last.len() - 1]);
        let shorter = others.push(last.drop_last());
        assert(shorter.drop_last() =~= others);
        assert forall|i: int, j: int|
            0 <= i < shorter.len() && 0 <= j < shorter[i].len() implies (#[trigger] shorter[i][j])
            != ' ' by {
            if i < shorter.len() - 1 {
                assert(shorter[i] == tokens[i]);
            } else {
                assert(shorter[i][j] == tokens[i][j]);
            }
        }
        assert(last =~= last.drop_last().push(c));
        if tokens.len() == 1 {
            assert(join_tokens(shorter) =~= last.drop_last());
            assert(text =~= join_tokens(shorter).push(c));
        } else {
            assert(join_tokens(shorter) == join_tokens(others) + seq![' '] + last.drop_last());
            assert(text =~= join_tokens(shorter).push(c));
        }
        lemma_tokens_of_joined(shorter);
        assert(text.drop_last() =~= join_tokens(shorter));
        assert(tokens_of(text) =~= tokens);
    } else if tokens.len() == 1 {
        assert(text =~= Seq::<char>::empty());
        assert(tokens_of(text) =~= tokens);
    } else {
        assert forall|i: int, j: int|
            0 <= i < others.len() && 0 <= j < others[i].len() implies (#[trigger] others[i][j])
            != ' ' by {
            assert(others[i] == tokens[i]);
        }
        assert(last =~= Seq::<char>::empty());
        assert(tokens =~= others.push(last));
        assert(text =~= join_tokens(others).push(' '));
        lemma_tokens_of_joined(others);
        assert(text.drop_last() =~= join_tokens(others));
        assert(text.last() == ' ');
        assert(tokens_of(text) == tokens_of(text.drop_last()).push(Seq::<char>::empty()));
    }
}

/// Splits a text into its tokens at every space. A text without a space is
/// one token; two spaces in a row, or a space at either end, give an empty
/// token. Meant for short texts: each character is looked up from the start
/// of the text.
pub fn split_tokens<'a>(text: &'a str) -> (tokens: Vec<&'a str>)
    ensures
        token_texts(tokens@) == tokens_of(text@),
{
    let length: usize = text.unicode_len();
    let mut tokens: Vec<&'a str> = Vec::new();
    let mut start: usize = 0;
    let mut i: usize = 0;
    proof {
        assert(text@.take(0) =~= Seq::<char>::empty());
        assert(tokens_of(text@.take(0)).drop_last() =~= token_texts(tokens@));
        assert(tokens_of(text@.take(0)).last() =~= text@.subrange(0, 0));
    }
    while i < length
        invariant
            length == text@.len(),
            start <= i <= length,
            token_texts(tokens@) == tokens_of(text@.take(i as int)).drop_last(),
            text@.subrange(start as int, i as int) == tokens_of(text@.take(i as int)).last(),
        decreases length - i,
    {
        let c = text.get_char(i);
        proof {
            let seen = text@.take(i as int);
            let next = text@.take(i + 1);
            lemma_tokens_nonempty(seen);
            assert(next.drop_last() =~= seen);
            assert(next.last() == c);
            let before = tokens_of(seen);
            assert(before =~= before.drop_last().push(before.last()));
        }
        if c == ' ' {
            let token = text.substring_char(start, i);
            let ghost texts = token_texts(tokens@);
            tokens.push(token);
            proof {
                assert(token_texts(tokens@) =~= texts.push(token@));
                assert(text@.subrange(i + 1, i + 1) =~= Seq::<char>::empty());
                let after = tokens_of(text@.take(i + 1));
                assert(after.drop_last() =~= tokens_of(text@.take(i as int)));
            }
            start = i + 1;
        } else {
            proof {
                let after = tokens_of(text@.take(i + 1));
                assert(after.drop_last() =~= tokens_of(text@.take(i as int)).drop_last());
                assert(text@.subrange(start as int, i + 1) =~= text@.subrange(
                    start as int,
                    i as int,
                ).push(c));
            }
        }
        i = i + 1;
    }
    let token = text.substring_char(start, length);
    let ghost texts = token_texts(tokens@);
    tokens.push(token);
    proof {
        assert(text@.take(length as int) =~= text@);
        lemma_tokens_nonempty(text@);
        let all = tokens_of(text@);
        assert(token_texts(tokens@) =~= texts.push(token@));
        assert(all =~= all.drop_last().push(all.last()));
    }
    tokens
}

/// Reads a card from a token of two characters, the rank character (`2` to
/// `9`, `T`, `J`, `Q`, `K`, `A`) and then the suit character (`H`, `D`, `C`,
/// `S`). A token of any other length, or with any other character, is refused
/// with `InvalidCardToken`, which holds the token.
pub fn parse_card(token: &str) -> (result: Result<Card, ParseError>)
    ensures
        match result {
            Ok(card) => card_of_token(token@) == Some(card),
            Err(error) => card_of_token(token@) is None && error@
                == ParseErrorView::InvalidCardToken(token@),
        },
{
    if token.unicode_len() == 2 {
        match map_card_value(token.get_char(0), token.get_char(1)) {
            Some(card) => Ok(card),
            None => Err(ParseError::InvalidCardToken(token.to_owned())),
        }
    } else {
        Err(ParseError::InvalidCardToken(token.to_owned()))
    }
}

/// Reads a hand from its tokens. A number of tokens other than five is
/// refused with `InvalidHandSize`, which holds the number. Of five tokens the
/// first that `parse_card` refuses is refused with `InvalidCardToken`. No card
/// is ever made up or left out.
pub fn parse_hand(tokens: &[&str]) -> (result: Result<Vec<Card>, ParseError>)
    ensures
        match result {
            Ok(cards) => hand_of_tokens(token_texts(tokens@)) == Ok::<Seq<Card>, ParseErrorView>(
                cards@,
            ),
            Err(error) => hand_of_tokens(token_texts(tokens@)) == Err::<Seq<Card>, ParseErrorView>(
                error@,
            ),
        },
{
    let ghost texts = token_texts(tokens@);
    if tokens.len() != HAND_SIZE {
        return Err(ParseError::InvalidHandSize(tokens.len()));
    }
    let mut cards: Vec<Card> = Vec::new();
    let mut i: usize = 0;
    while i < tokens.len()
        invariant
            i <= tokens@.len(),
            texts == token_texts(tokens@),
            texts.len() == HAND_SIZE,
            cards@.len() == i,
            forall|j: int| 0 <= j < i ==> card_of_token(#[trigger] texts[j]) == Some(cards@[j]),
        decreases tokens@.len() - i,
    {
        assert(texts[i as int] == tokens@[i as int]@);
        match parse_card(tokens[i]) {
            Ok(card) => {
                cards.push(card);
            },
            Err(error) => {
                proof {
                    assert(is_first_invalid(texts, i as int));
                    lemma_first_invalid_unique(texts, i as int);
                }
                return Err(error);
            },
        }
        i = i + 1;
    }
    proof {
        assert(all_tokens_valid(texts));
        assert(cards@ =~= cards_of_tokens(texts));
    }
    Ok(cards)
}

} // verus!
