//! Messages for people, with the numbers in them left as numbers.
//!
//! How a number is spelled is the printer's business; what is said, and about
//! which number, is decided here.

use crate::scalar::Scalar;
use vstd::prelude::*;

verus! {

/// `format!("{s:?}")` of a text: the text in double quotes, with what would not
/// print escaped. It is a function of the characters alone; which characters
/// are escaped, and how, is not stated.
pub uninterp spec fn quotation(s: Seq<char>) -> Seq<char>;

/// The `Debug` form of a text, as `format!("{s:?}")` writes it, named
/// [`quotation`].
#[verifier::external_body]
pub(crate) fn quoted(s: &str) -> (r: String)
    ensures
        r@ == quotation(s@),
{
    format!("{s:?}")
}

/// One piece of a message.
#[derive(Clone, PartialEq, Eq, Debug)]
pub enum Piece {
    /// Words, to be printed as they are.
    Words(String),
    /// A number, to be printed in decimal.
    Number(Scalar),
    /// A number, to be printed as a literal: in decimal, with a fractional part
    /// even where that is zero.
    Literal(Scalar),
    /// A number, to be printed in decimal without a fractional part.
    Whole(Scalar),
}

/// One piece of a message, as a value.
pub ghost enum PieceView {
    Words(Seq<char>),
    Number(Scalar),
    Literal(Scalar),
    Whole(Scalar),
}

impl View for Piece {
    type V = PieceView;

    open spec fn view(&self) -> PieceView {
        match *self {
            Piece::Words(words) => PieceView::Words(words@),
            Piece::Number(number) => PieceView::Number(number),
            Piece::Literal(number) => PieceView::Literal(number),
            Piece::Whole(number) => PieceView::Whole(number),
        }
    }
}

/// A message, piece by piece.
#[derive(Clone, PartialEq, Eq, Debug)]
pub struct Message {
    pub pieces: Vec<Piece>,
}

impl View for Message {
    type V = Seq<PieceView>;

    open spec fn view(&self) -> Seq<PieceView> {
        self.pieces@.map_values(|p: Piece| p@)
    }
}

/// A message of words alone.
pub open spec fn plain(words: Seq<char>) -> Seq<PieceView> {
    seq![PieceView::Words(words)]
}

impl Message {
    /// A message of words alone.
    pub fn new(words: &str) -> (m: Message)
        ensures
            m@ == plain(words@),
    {
        let mut pieces: Vec<Piece> = Vec::new();
        pieces.push(Piece::Words(words.to_owned()));
        let m = Message { pieces };
        assert(m@ =~= plain(words@));
        m
    }

    /// The message, followed by words.
    pub fn words(self, words: &str) -> (m: Message)
        ensures
            m@ == self@.push(PieceView::Words(words@)),
    {
        let mut pieces = self.pieces;
        pieces.push(Piece::Words(words.to_owned()));
        let m = Message { pieces };
        assert(m@ =~= self@.push(PieceView::Words(words@)));
        m
    }

    /// The message, followed by a number.
    pub fn number(self, number: Scalar) -> (m: Message)
        ensures
            m@ == self@.push(PieceView::Number(number)),
    {
        let mut pieces = self.pieces;
        pieces.push(Piece::Number(number));
        let m = Message { pieces };
        assert(m@ =~= self@.push(PieceView::Number(number)));
        m
    }

    /// The message, followed by a number as a literal.
    pub fn literal(self, number: Scalar) -> (m: Message)
        ensures
            m@ == self@.push(PieceView::Literal(number)),
    {
        let mut pieces = self.pieces;
        pieces.push(Piece::Literal(number));
        let m = Message { pieces };
        assert(m@ =~= self@.push(PieceView::Literal(number)));
        m
    }

    /// The message, followed by a number without a fractional part.
    pub fn whole(self, number: Scalar) -> (m: Message)
        ensures
            m@ == self@.push(PieceView::Whole(number)),
    {
        let mut pieces = self.pieces;
        pieces.push(Piece::Whole(number));
        let m = Message { pieces };
        assert(m@ =~= self@.push(PieceView::Whole(number)));
        m
    }

    /// The message, followed by another.
    pub fn followed_by(self, rest: &Message) -> (m: Message)
        ensures
            m@ == self@ + rest@,
    {
        let mut m = self;
        let mut i: usize = 0;
        assert(rest@.subrange(0, 0) =~= Seq::empty());
        while i < rest.pieces.len()
            invariant
                i <= rest.pieces@.len(),
                m@ == self@ + rest@.subrange(0, i as int),
            decreases rest.pieces@.len() - i,
        {
            m = match &rest.pieces[i] {
                Piece::Words(words) => m.words(words.as_str()),
                Piece::Number(number) => m.number(*number),
                Piece::Literal(number) => m.literal(*number),
                Piece::Whole(number) => m.whole(*number),
            };
            proof {
                assert(rest@.subrange(0, i + 1) =~= rest@.subrange(0, i as int).push(rest@[i as int]));
            }
            i = i + 1;
        }
        assert(rest@.subrange(0, rest@.len() as int) =~= rest@);
        m
    }
}

} // verus!
