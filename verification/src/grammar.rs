//! The grammar of a message, told by how it is put together rather than by how
//! it is read: every message that the grammar makes is read as what it was made
//! of, every message that is read is one that the grammar makes, and everything
//! else is refused for the reason that it fails.
use vstd::prelude::*;
use vstd::utf8::*;

use crate::ascii::{BACKSLASH, CLOSE, DASH, GREATER, LESS, ONE, OPEN, QUOTE, SPACE};
use crate::connection;
use crate::error::{Field, ProtocolError};
use crate::laws;
use crate::message;
use crate::message::{HeaderView, Quote};
use crate::text;

verus! {

/// What stands between quotes: a byte, or a byte behind a backslash.
pub enum Inner {
    Byte(u8),
    Escape(u8),
}

impl Inner {
    /// A byte stands for itself unless it is a quote or a backslash. Behind a
    /// backslash any byte stands.
    pub open spec fn is_valid(self) -> bool {
        match self {
            Inner::Byte(byte) => byte != QUOTE && byte != BACKSLASH,
            Inner::Escape(_) => true,
        }
    }

    pub open spec fn bytes(self) -> Seq<u8> {
        match self {
            Inner::Byte(byte) => seq![byte],
            Inner::Escape(byte) => seq![BACKSLASH, byte],
        }
    }
}

/// The bytes of what stands between quotes.
pub open spec fn inner_bytes(inner: Seq<Inner>) -> Seq<u8>
    decreases inner.len(),
{
    if inner.len() == 0 {
        Seq::empty()
    } else {
        inner[0].bytes() + inner_bytes(inner.drop_first())
    }
}

/// Everything that stands between quotes may stand there.
pub open spec fn valid_inner(inner: Seq<Inner>) -> bool {
    forall|i: int| 0 <= i < inner.len() ==> (#[trigger] inner[i]).is_valid()
}

/// What an element is made of behind its `[`: bytes, and quoted values.
pub enum Piece {
    Byte(u8),
    Quoted(Seq<Inner>),
}

impl Piece {
    /// Outside quotes any byte stands but a quote and a `]`.
    pub open spec fn is_valid(self) -> bool {
        match self {
            Piece::Byte(byte) => byte != QUOTE && byte != CLOSE,
            Piece::Quoted(inner) => valid_inner(inner),
        }
    }

    pub open spec fn bytes(self) -> Seq<u8> {
        match self {
            Piece::Byte(byte) => seq![byte],
            Piece::Quoted(inner) => seq![QUOTE] + inner_bytes(inner) + seq![QUOTE],
        }
    }
}

/// The bytes of pieces, one after the other.
pub open spec fn pieces_bytes(pieces: Seq<Piece>) -> Seq<u8>
    decreases pieces.len(),
{
    if pieces.len() == 0 {
        Seq::empty()
    } else {
        pieces[0].bytes() + pieces_bytes(pieces.drop_first())
    }
}

/// Every piece may stand in an element.
pub open spec fn valid_pieces(pieces: Seq<Piece>) -> bool {
    forall|i: int| 0 <= i < pieces.len() ==> (#[trigger] pieces[i]).is_valid()
}

/// An element: `[`, its pieces, `]`.
pub open spec fn element_bytes(pieces: Seq<Piece>) -> Seq<u8> {
    seq![OPEN] + pieces_bytes(pieces) + seq![CLOSE]
}

/// Elements, one after the other.
pub open spec fn elements_bytes(elements: Seq<Seq<Piece>>) -> Seq<u8>
    decreases elements.len(),
{
    if elements.len() == 0 {
        Seq::empty()
    } else {
        element_bytes(elements[0]) + elements_bytes(elements.drop_first())
    }
}

/// Every element is made of pieces that may stand in one.
pub open spec fn valid_elements(elements: Seq<Seq<Piece>>) -> bool {
    forall|i: int| 0 <= i < elements.len() ==> valid_pieces(#[trigger] elements[i])
}

/// `len` bytes more, where the count of the rest is known.
spec fn further(len: nat, rest: Option<nat>) -> Option<nat> {
    match rest {
        Some(more) => Some(len + more),
        None => None,
    }
}

/// What stands between quotes does not close the element.
proof fn lemma_inner_passes(inner: Seq<Inner>, tail: Seq<u8>)
    requires
        valid_inner(inner),
    ensures
        message::to_close(inner_bytes(inner) + tail, Quote::Inside) == further(
            inner_bytes(inner).len(),
            message::to_close(tail, Quote::Inside),
        ),
    decreases inner.len(),
{
    if inner.len() == 0 {
        assert(inner_bytes(inner) + tail =~= tail);
    } else {
        let more = inner.drop_first();
        let behind = inner_bytes(more) + tail;
        let all = inner_bytes(inner) + tail;
        lemma_inner_passes(more, tail);
        assert(inner[0].is_valid());
        assert(all =~= inner[0].bytes() + behind);
        match inner[0] {
            Inner::Byte(byte) => {
                assert(all.drop_first() =~= behind);
            },
            Inner::Escape(byte) => {
                assert(all.drop_first().drop_first() =~= behind);
                assert(message::to_close(all.drop_first(), Quote::Escaped) == further(
                    1,
                    message::to_close(behind, Quote::Inside),
                ));
            },
        }
    }
}

/// Pieces do not close the element.
proof fn lemma_pieces_pass(pieces: Seq<Piece>, tail: Seq<u8>)
    requires
        valid_pieces(pieces),
    ensures
        message::to_close(pieces_bytes(pieces) + tail, Quote::Outside) == further(
            pieces_bytes(pieces).len(),
            message::to_close(tail, Quote::Outside),
        ),
    decreases pieces.len(),
{
    if pieces.len() == 0 {
        assert(pieces_bytes(pieces) + tail =~= tail);
    } else {
        let more = pieces.drop_first();
        let behind = pieces_bytes(more) + tail;
        let all = pieces_bytes(pieces) + tail;
        lemma_pieces_pass(more, tail);
        assert(pieces[0].is_valid());
        assert(all =~= pieces[0].bytes() + behind);
        match pieces[0] {
            Piece::Byte(byte) => {
                assert(all.drop_first() =~= behind);
            },
            Piece::Quoted(inner) => {
                let quoted = seq![QUOTE] + behind;
                lemma_inner_passes(inner, quoted);
                assert(all.drop_first() =~= inner_bytes(inner) + quoted);
                assert(quoted.drop_first() =~= behind);
            },
        }
    }
}

/// An element closes where it ends, whatever follows.
proof fn lemma_element_closes(pieces: Seq<Piece>, more: Seq<u8>)
    requires
        valid_pieces(pieces),
    ensures
        message::to_close(element_bytes(pieces) + more, Quote::Outside) == Some(
            element_bytes(pieces).len(),
        ),
{
    let tail = seq![CLOSE] + more;
    let all = element_bytes(pieces) + more;
    lemma_pieces_pass(pieces, tail);
    assert(all.drop_first() =~= pieces_bytes(pieces) + tail);
}

/// Elements are counted one by one.
proof fn lemma_elements_counted(elements: Seq<Seq<Piece>>, more: Seq<u8>)
    requires
        valid_elements(elements),
    ensures
        message::elements(elements_bytes(elements) + more) == further(
            elements_bytes(elements).len(),
            message::elements(more),
        ),
    decreases elements.len(),
{
    let all = elements_bytes(elements) + more;
    if elements.len() == 0 {
        assert(all =~= more);
    } else {
        let first = element_bytes(elements[0]);
        let rest = elements.drop_first();
        let behind = elements_bytes(rest) + more;
        assert(valid_pieces(elements[0]));
        lemma_elements_counted(rest, more);
        lemma_element_closes(elements[0], behind);
        assert(all =~= first + behind);
        assert(all.skip(first.len() as int) =~= behind);
    }
}

/// Structured data: `-`, or one element or more.
pub enum Structured {
    Nil,
    Elements(Seq<Seq<Piece>>),
}

impl Structured {
    pub open spec fn is_valid(self) -> bool {
        match self {
            Structured::Nil => true,
            Structured::Elements(elements) => elements.len() > 0 && valid_elements(elements),
        }
    }

    pub open spec fn bytes(self) -> Seq<u8> {
        match self {
            Structured::Nil => seq![DASH],
            Structured::Elements(elements) => elements_bytes(elements),
        }
    }

    /// `next` does not go on with structured data: behind elements, it opens no
    /// other.
    pub open spec fn ends_before(self, next: Seq<u8>) -> bool {
        self is Elements && next.len() > 0 ==> next[0] != OPEN
    }
}

/// Elements open with `[`.
proof fn lemma_elements_open(elements: Seq<Seq<Piece>>)
    requires
        elements.len() > 0,
    ensures
        elements_bytes(elements).len() > 0,
        elements_bytes(elements)[0] == OPEN,
{
}

/// Structured data is as long as it was made, whatever ends it.
pub proof fn law_structured_data_has_its_length(structured: Structured, next: Seq<u8>)
    requires
        structured.is_valid(),
        structured.ends_before(next),
    ensures
        message::structured_len(structured.bytes() + next) == Ok::<nat, ProtocolError>(
            structured.bytes().len(),
        ),
{
    if let Structured::Elements(elements) = structured {
        lemma_elements_open(elements);
        lemma_elements_counted(elements, next);
        assert((elements_bytes(elements) + next)[0] == OPEN);
    }
}

/// How an element breaks off before its `]`: outside quotes, between them, or
/// right behind a backslash.
pub enum Cut {
    Outside,
    Inside(Seq<Inner>),
    Escaped(Seq<Inner>),
}

impl Cut {
    pub open spec fn is_valid(self) -> bool {
        match self {
            Cut::Outside => true,
            Cut::Inside(inner) => valid_inner(inner),
            Cut::Escaped(inner) => valid_inner(inner),
        }
    }

    pub open spec fn bytes(self) -> Seq<u8> {
        match self {
            Cut::Outside => Seq::empty(),
            Cut::Inside(inner) => seq![QUOTE] + inner_bytes(inner),
            Cut::Escaped(inner) => seq![QUOTE] + inner_bytes(inner) + seq![BACKSLASH],
        }
    }
}

/// Where an element breaks off, it does not close.
proof fn lemma_cut_stays_open(pieces: Seq<Piece>, cut: Cut)
    requires
        valid_pieces(pieces),
        cut.is_valid(),
    ensures
        message::to_close(seq![OPEN] + pieces_bytes(pieces) + cut.bytes(), Quote::Outside) is None,
{
    let all = seq![OPEN] + pieces_bytes(pieces) + cut.bytes();
    let none = Seq::<u8>::empty();
    lemma_pieces_pass(pieces, cut.bytes());
    assert(all.drop_first() =~= pieces_bytes(pieces) + cut.bytes());
    assert(all.len() > 0 && all[0] == OPEN);
    assert(message::to_close(all, Quote::Outside) == further(
        1,
        message::to_close(all.drop_first(), Quote::Outside),
    ));
    assert(message::to_close(none, Quote::Inside) is None);
    assert(message::to_close(none, Quote::Escaped) is None);
    match cut {
        Cut::Outside => {},
        Cut::Inside(inner) => {
            lemma_inner_passes(inner, none);
            assert(cut.bytes().drop_first() =~= inner_bytes(inner) + none);
        },
        Cut::Escaped(inner) => {
            let last = seq![BACKSLASH];
            lemma_inner_passes(inner, last);
            assert(cut.bytes().drop_first() =~= inner_bytes(inner) + last);
            assert(last.drop_first() =~= none);
            assert(message::to_close(last, Quote::Inside) is None);
        },
    }
    assert(message::to_close(cut.bytes(), Quote::Outside) is None);
}

/// Structured data that breaks off within an element does not close, however
/// many elements stand before it.
pub proof fn law_structured_data_is_unclosed(
    elements: Seq<Seq<Piece>>,
    pieces: Seq<Piece>,
    cut: Cut,
)
    requires
        valid_elements(elements),
        valid_pieces(pieces),
        cut.is_valid(),
    ensures
        message::structured_len(
            elements_bytes(elements) + (seq![OPEN] + pieces_bytes(pieces) + cut.bytes()),
        ) == Err::<nat, ProtocolError>(ProtocolError::Unclosed),
{
    let last = seq![OPEN] + pieces_bytes(pieces) + cut.bytes();
    let all = elements_bytes(elements) + last;
    lemma_cut_stays_open(pieces, cut);
    lemma_elements_counted(elements, last);
    assert(last[0] == OPEN);
    if elements.len() > 0 {
        lemma_elements_open(elements);
        assert(all[0] == OPEN);
    }
}

/// What the bytes up to the `]` are made of. Between quotes, what stands before
/// the closing quote comes first.
proof fn close_parts(bytes: Seq<u8>, quote: Quote) -> (r: (Seq<Inner>, Seq<Piece>))
    requires
        message::to_close(bytes, quote) is Some,
    ensures
        ({
            let len = message::to_close(bytes, quote)->0;
            let (inner, pieces) = r;
            let behind = pieces_bytes(pieces) + seq![CLOSE];
            let quoted = inner_bytes(inner) + (seq![QUOTE] + behind);
            &&& 0 < len <= bytes.len()
            &&& valid_inner(inner)
            &&& valid_pieces(pieces)
            &&& bytes.take(len as int) == match quote {
                Quote::Outside => behind,
                Quote::Inside => quoted,
                Quote::Escaped => seq![bytes[0]] + quoted,
            }
        }),
    decreases bytes.len(),
{
    let len = message::to_close(bytes, quote)->0;
    let none = (Seq::<Inner>::empty(), Seq::<Piece>::empty());
    if bytes[0] == CLOSE && quote == Quote::Outside {
        assert(bytes.take(1) =~= pieces_bytes(none.1) + seq![CLOSE]);
        none
    } else {
        let rest = bytes.drop_first();
        let next = message::after_byte(quote, bytes[0]);
        let (inner, pieces) = close_parts(rest, next);
        let behind = pieces_bytes(pieces) + seq![CLOSE];
        let quoted = inner_bytes(inner) + (seq![QUOTE] + behind);
        assert(bytes.take(len as int) =~= seq![bytes[0]] + rest.take(len - 1));
        match quote {
            Quote::Outside => {
                let piece = if bytes[0] == QUOTE {
                    Piece::Quoted(inner)
                } else {
                    Piece::Byte(bytes[0])
                };
                let all = seq![piece] + pieces;
                assert(all.drop_first() =~= pieces);
                assert(bytes.take(len as int) =~= pieces_bytes(all) + seq![CLOSE]);
                (none.0, all)
            },
            Quote::Inside => {
                if bytes[0] == QUOTE {
                    assert(bytes.take(len as int) =~= inner_bytes(none.0) + (seq![QUOTE]
                        + behind));
                    (none.0, pieces)
                } else {
                    let first = if bytes[0] == BACKSLASH {
                        Inner::Escape(rest[0])
                    } else {
                        Inner::Byte(bytes[0])
                    };
                    let all = seq![first] + inner;
                    assert(all.drop_first() =~= inner);
                    assert(bytes.take(len as int) =~= inner_bytes(all) + (seq![QUOTE] + behind));
                    (all, pieces)
                }
            },
            Quote::Escaped => (inner, pieces),
        }
    }
}

/// What elements are made of.
proof fn elements_parts(bytes: Seq<u8>) -> (r: Seq<Seq<Piece>>)
    requires
        message::elements(bytes) is Some,
    ensures
        message::elements(bytes)->0 <= bytes.len(),
        valid_elements(r),
        bytes.take(message::elements(bytes)->0 as int) == elements_bytes(r),
        r.len() > 0 <==> bytes.len() > 0 && bytes[0] == OPEN,
        message::elements(bytes)->0 < bytes.len() ==> bytes[message::elements(bytes)->0 as int]
            != OPEN,
    decreases bytes.len(),
{
    let len = message::elements(bytes)->0;
    if bytes.len() == 0 || bytes[0] != OPEN {
        assert(bytes.take(0) =~= elements_bytes(Seq::empty()));
        Seq::empty()
    } else {
        let first = message::to_close(bytes, Quote::Outside)->0;
        let rest = bytes.skip(first as int);
        let more = elements_parts(rest);
        let pieces = close_parts(bytes, Quote::Outside).1;
        let inside = pieces.drop_first();
        assert(bytes.take(first as int)[0] == OPEN);
        assert(pieces.len() > 0) by {
            if pieces.len() == 0 {
                assert(pieces_bytes(pieces) + seq![CLOSE] =~= seq![CLOSE]);
            }
        }
        assert(pieces[0].is_valid());
        assert(pieces[0].bytes()[0] == OPEN) by {
            assert((pieces_bytes(pieces) + seq![CLOSE])[0] == pieces[0].bytes()[0]);
        }
        assert(pieces[0] == Piece::Byte(OPEN));
        let all = seq![inside] + more;
        assert(all.drop_first() =~= more);
        assert(valid_pieces(inside));
        assert(valid_elements(all));
        assert(bytes.take(first as int) =~= element_bytes(inside));
        assert(bytes.take(len as int) =~= bytes.take(first as int) + rest.take(len - first));
        assert(elements_bytes(all) == element_bytes(inside) + elements_bytes(more));
        all
    }
}

/// What structured data is made of.
proof fn structured_parts(bytes: Seq<u8>) -> (r: Structured)
    requires
        message::structured_len(bytes) is Ok,
    ensures
        message::structured_len(bytes)->Ok_0 <= bytes.len(),
        r.is_valid(),
        r.bytes() == bytes.take(message::structured_len(bytes)->Ok_0 as int),
        r.ends_before(bytes.skip(message::structured_len(bytes)->Ok_0 as int)),
{
    if bytes[0] == DASH {
        assert(bytes.take(1) =~= seq![DASH]);
        Structured::Nil
    } else {
        Structured::Elements(elements_parts(bytes))
    }
}

/// `byte` is one of `0` to `9`.
pub open spec fn is_digit(byte: u8) -> bool {
    0x30 <= byte <= 0x39
}

/// `bytes` are digits, one or more.
pub open spec fn are_digits(bytes: Seq<u8>) -> bool {
    bytes.len() > 0 && forall|i: int| 0 <= i < bytes.len() ==> is_digit(#[trigger] bytes[i])
}

/// The number that digits write, ten times as much by every digit behind.
pub open spec fn number_of(digits: Seq<u8>) -> nat
    decreases digits.len(),
{
    if digits.len() == 0 {
        0
    } else {
        (10 * number_of(digits.drop_last()) + (digits.last() - 0x30)) as nat
    }
}

/// `digits` can stand for PRI: one to three digits, at most 191.
pub open spec fn valid_priority(digits: Seq<u8>) -> bool {
    are_digits(digits) && digits.len() <= 3 && number_of(digits) <= 191
}

/// `word` can stand between spaces.
pub open spec fn valid_word(word: Seq<u8>) -> bool {
    word.len() > 0 && forall|i: int| 0 <= i < word.len() ==> word[i] != SPACE
}

/// Every word can stand between spaces.
pub open spec fn valid_words(words: Seq<Seq<u8>>) -> bool {
    forall|i: int| 0 <= i < words.len() ==> valid_word(#[trigger] words[i])
}

/// Words, each with a space behind it, and what follows.
pub open spec fn spaced_words(words: Seq<Seq<u8>>, rest: Seq<u8>) -> Seq<u8>
    decreases words.len(),
{
    if words.len() == 0 {
        rest
    } else {
        words[0] + seq![SPACE] + spaced_words(words.drop_first(), rest)
    }
}

/// `<PRI>1 ` and what follows.
pub open spec fn opening(digits: Seq<u8>, rest: Seq<u8>) -> Seq<u8> {
    seq![LESS] + digits + seq![GREATER] + seq![ONE, SPACE] + rest
}

/// What a message is made of.
pub struct Parts {
    pub digits: Seq<u8>,
    pub words: Seq<Seq<u8>>,
    pub structured: Structured,
    /// MSG behind its space, or neither.
    pub msg: Option<Seq<u8>>,
}

impl Parts {
    pub open spec fn is_valid(self) -> bool {
        &&& valid_priority(self.digits)
        &&& self.words.len() == 5
        &&& valid_words(self.words)
        &&& self.structured.is_valid()
    }

    /// The space and MSG, or neither.
    pub open spec fn ending(self) -> Seq<u8> {
        match self.msg {
            Some(msg) => seq![SPACE] + msg,
            None => Seq::empty(),
        }
    }

    /// `<PRI>1 TIMESTAMP HOSTNAME APP-NAME PROCID MSGID STRUCTURED-DATA [SP MSG]`
    pub open spec fn bytes(self) -> Seq<u8> {
        opening(
            self.digits,
            spaced_words(self.words, self.structured.bytes() + self.ending()),
        )
    }
}

/// The number that digits write is the one that their text writes.
proof fn lemma_number_of(digits: Seq<u8>, chars: Seq<char>)
    requires
        digits.len() == chars.len(),
        forall|i: int| 0 <= i < digits.len() ==> is_digit(#[trigger] digits[i]),
        forall|i: int| 0 <= i < digits.len() ==> chars[i] == (#[trigger] digits[i]) as char,
    ensures
        text::value(chars) == number_of(digits),
    decreases digits.len(),
{
    if digits.len() > 0 {
        lemma_number_of(digits.drop_last(), chars.drop_last());
        assert(is_digit(digits[digits.len() - 1]));
        assert(chars.last() == digits.last() as char);
    }
}

/// Digits are text, and the number that they write is the one that is read.
pub proof fn lemma_digits_are_read(digits: Seq<u8>)
    requires
        are_digits(digits),
    ensures
        text::strict(digits) is Some,
        text::number(text::strict(digits)->0) == Some(number_of(digits)),
{
    text::lemma_ascii_text(digits);
    let chars = Seq::new(digits.len(), |i: int| digits[i] as char);
    assert forall|i: int| 0 <= i < chars.len() implies text::is_digit(#[trigger] chars[i]) by {
        assert(is_digit(digits[i]));
    }
    lemma_number_of(digits, chars);
}

/// What is read as a number without white space around it is digits.
proof fn lemma_only_digits_are_read(bytes: Seq<u8>)
    requires
        text::strict(bytes) is Some,
        text::number(text::strict(bytes)->0) is Some,
    ensures
        are_digits(bytes),
{
    let chars = text::strict(bytes)->0;
    decode_utf8_encode_utf8(bytes);
    assert forall|i: int| 0 <= i < chars.len() implies text::is_digit(#[trigger] chars[i]) by {
    }
    assert(is_ascii_chars(chars));
    is_ascii_chars_encode_utf8(chars);
    assert forall|i: int| 0 <= i < bytes.len() implies is_digit(#[trigger] bytes[i]) by {
        assert(text::is_digit(chars[i]));
        assert(bytes[i] == chars[i] as u8);
    }
}

/// No byte of the kind, then the byte: it is found there.
proof fn lemma_found(front: Seq<u8>, x: u8, rest: Seq<u8>)
    requires
        forall|i: int| 0 <= i < front.len() ==> front[i] != x,
    ensures
        (front + seq![x] + rest).index_of_first(x) == Some(front.len() as int),
        (front + seq![x] + rest).take(front.len() as int) == front,
        (front + seq![x] + rest).skip(front.len() as int + 1) == rest,
{
    laws::lemma_first(front, x, rest);
    assert(front + seq![x] + rest =~= front + (seq![x] + rest));
}

/// What stands behind `<` is read up to the first `>`.
proof fn lemma_priority(inner: Seq<u8>, rest: Seq<u8>)
    requires
        forall|i: int| 0 <= i < inner.len() ==> inner[i] != GREATER,
    ensures
        message::read_priority(seq![LESS] + inner + seq![GREATER] + rest) == if inner.len() == 0
            || inner.len() > 3 {
            Err::<(nat, Seq<u8>), ProtocolError>(ProtocolError::PriorityLength)
        } else if valid_priority(inner) {
            Ok::<(nat, Seq<u8>), ProtocolError>((number_of(inner), rest))
        } else {
            Err::<(nat, Seq<u8>), ProtocolError>(ProtocolError::PriorityRange)
        },
{
    let bytes = seq![LESS] + inner + seq![GREATER] + rest;
    let behind = inner + seq![GREATER] + rest;
    assert(bytes.skip(1) =~= behind);
    lemma_found(inner, GREATER, rest);
    if are_digits(inner) {
        lemma_digits_are_read(inner);
    } else if text::strict(inner) is Some && text::number(text::strict(inner)->0) is Some {
        lemma_only_digits_are_read(inner);
    }
}

/// PRI and version are read, and what follows is left.
proof fn lemma_opening(digits: Seq<u8>, rest: Seq<u8>)
    requires
        valid_priority(digits),
    ensures
        message::read_message(opening(digits, rest)) == message::read_fields(
            number_of(digits),
            rest,
        ),
{
    let versioned = seq![ONE, SPACE] + rest;
    assert forall|i: int| 0 <= i < digits.len() implies digits[i] != GREATER by {
        assert(is_digit(digits[i]));
    }
    lemma_priority(digits, versioned);
    assert(opening(digits, rest) =~= seq![LESS] + digits + seq![GREATER] + versioned);
    assert(versioned.skip(2) =~= rest);
}

/// Words are read one by one.
proof fn lemma_words(words: Seq<Seq<u8>>, rest: Seq<u8>, count: nat)
    requires
        valid_words(words),
        count <= words.len(),
    ensures
        message::read_words(spaced_words(words, rest), count) == Ok::<
            (Seq<Seq<u8>>, Seq<u8>),
            ProtocolError,
        >((words.take(count as int), spaced_words(words.skip(count as int), rest))),
    decreases count,
{
    let all = spaced_words(words, rest);
    if count == 0 {
        assert(words.skip(0) =~= words);
        assert(words.take(0) =~= Seq::<Seq<u8>>::empty());
    } else {
        let before = (count - 1) as nat;
        lemma_words(words, rest, before);
        let left = words.skip(before as int);
        let word = left[0];
        let behind = spaced_words(left.drop_first(), rest);
        assert(left.drop_first() =~= words.skip(count as int));
        assert(word == words[before as int]);
        assert(valid_word(words[before as int]));
        lemma_found(word, SPACE, behind);
        assert(words.take(before as int).push(word) =~= words.take(count as int));
    }
}

/// Where a word is missing, reading stops for good.
proof fn lemma_word_missing(words: Seq<Seq<u8>>, rest: Seq<u8>, count: nat)
    requires
        valid_words(words),
        words.len() < count,
        rest.len() == 0 || rest[0] == SPACE || !rest.contains(SPACE),
    ensures
        message::read_words(spaced_words(words, rest), count) == Err::<
            (Seq<Seq<u8>>, Seq<u8>),
            ProtocolError,
        >(ProtocolError::Missing(message::field_at(words.len()))),
    decreases count,
{
    let all = spaced_words(words, rest);
    rest.index_of_first_ensures(SPACE);
    if words.len() + 1 == count {
        lemma_words(words, rest, words.len());
        assert(words.skip(words.len() as int) =~= Seq::<Seq<u8>>::empty());
        assert(spaced_words(words.skip(words.len() as int), rest) == rest);
    } else {
        lemma_word_missing(words, rest, (count - 1) as nat);
    }
}

/// Five words are read, and what follows is left.
proof fn lemma_five_words(words: Seq<Seq<u8>>, rest: Seq<u8>)
    requires
        valid_words(words),
        words.len() == 5,
    ensures
        message::read_words(spaced_words(words, rest), 5) == Ok::<
            (Seq<Seq<u8>>, Seq<u8>),
            ProtocolError,
        >((words, rest)),
{
    lemma_words(words, rest, 5);
    assert(words.take(5) =~= words);
    assert(words.skip(5) =~= Seq::<Seq<u8>>::empty());
}

/// Every message that the grammar makes is read as what it was made of: PRI as
/// facility and severity, the words and the structured data as the text that
/// they hold, and MSG untouched.
pub proof fn law_message_is_read(parts: Parts)
    requires
        parts.is_valid(),
    ensures
        message::read_message(parts.bytes()) == Ok::<(HeaderView, Seq<u8>), ProtocolError>(
            (
                HeaderView {
                    facility: (number_of(parts.digits) / 8) as u8,
                    severity: (number_of(parts.digits) % 8) as u8,
                    timestamp: text::lossy(parts.words[0]),
                    hostname: text::lossy(parts.words[1]),
                    app_name: text::lossy(parts.words[2]),
                    proc_id: text::lossy(parts.words[3]),
                    msg_id: text::lossy(parts.words[4]),
                    structured_data: text::lossy(parts.structured.bytes()),
                },
                match parts.msg {
                    Some(msg) => msg,
                    None => Seq::empty(),
                },
            ),
        ),
{
    let structured = parts.structured.bytes();
    let ending = parts.ending();
    let rest = structured + ending;
    lemma_opening(parts.digits, spaced_words(parts.words, rest));
    lemma_five_words(parts.words, rest);
    law_structured_data_has_its_length(parts.structured, ending);
    assert(rest.take(structured.len() as int) =~= structured);
    assert(rest.skip(structured.len() as int) =~= ending);
    if let Some(msg) = parts.msg {
        assert(ending.skip(1) =~= msg);
    }
}

/// What does not open with `<` has no PRI.
pub proof fn law_without_priority(bytes: Seq<u8>)
    requires
        bytes.len() == 0 || bytes[0] != LESS,
    ensures
        message::read_message(bytes) == Err::<(HeaderView, Seq<u8>), ProtocolError>(
            ProtocolError::NoPriority,
        ),
{
}

/// PRI without its `>` is not one to three digits.
pub proof fn law_open_priority(inner: Seq<u8>)
    requires
        !inner.contains(GREATER),
    ensures
        message::read_message(seq![LESS] + inner) == Err::<(HeaderView, Seq<u8>), ProtocolError>(
            ProtocolError::PriorityLength,
        ),
{
    inner.index_of_first_ensures(GREATER);
    assert((seq![LESS] + inner).skip(1) =~= inner);
}

/// What stands between `<` and `>` is one to three bytes, else its length is
/// refused, and digits of a number up to 191, else its value is.
pub proof fn law_bad_priority(inner: Seq<u8>, rest: Seq<u8>)
    requires
        !inner.contains(GREATER),
        !valid_priority(inner),
    ensures
        message::read_message(seq![LESS] + inner + seq![GREATER] + rest) == Err::<
            (HeaderView, Seq<u8>),
            ProtocolError,
        >(
            if 1 <= inner.len() <= 3 {
                ProtocolError::PriorityRange
            } else {
                ProtocolError::PriorityLength
            },
        ),
{
    lemma_priority(inner, rest);
}

/// Behind PRI stands `1` and a space, else the version is refused.
pub proof fn law_bad_version(digits: Seq<u8>, rest: Seq<u8>)
    requires
        valid_priority(digits),
        rest.len() < 2 || rest[0] != ONE || rest[1] != SPACE,
    ensures
        message::read_message(seq![LESS] + digits + seq![GREATER] + rest) == Err::<
            (HeaderView, Seq<u8>),
            ProtocolError,
        >(ProtocolError::Version),
{
    assert forall|i: int| 0 <= i < digits.len() implies digits[i] != GREATER by {
        assert(is_digit(digits[i]));
    }
    lemma_priority(digits, rest);
}

/// Where a word is empty, or no space ends it, the header field in its place is
/// missing.
pub proof fn law_missing_word(digits: Seq<u8>, words: Seq<Seq<u8>>, rest: Seq<u8>)
    requires
        valid_priority(digits),
        valid_words(words),
        words.len() < 5,
        rest.len() == 0 || rest[0] == SPACE || !rest.contains(SPACE),
    ensures
        message::read_message(opening(digits, spaced_words(words, rest))) == Err::<
            (HeaderView, Seq<u8>),
            ProtocolError,
        >(
            ProtocolError::Missing(
                seq![
                    Field::Timestamp,
                    Field::Hostname,
                    Field::AppName,
                    Field::ProcId,
                    Field::MsgId,
                ][words.len() as int],
            ),
        ),
{
    lemma_opening(digits, spaced_words(words, rest));
    lemma_word_missing(words, rest, 5);
}

/// Behind the words stands `-` or `[`, else there is no structured data.
pub proof fn law_no_structured_data(digits: Seq<u8>, words: Seq<Seq<u8>>, rest: Seq<u8>)
    requires
        valid_priority(digits),
        valid_words(words),
        words.len() == 5,
        rest.len() == 0 || rest[0] != DASH && rest[0] != OPEN,
    ensures
        message::read_message(opening(digits, spaced_words(words, rest))) == Err::<
            (HeaderView, Seq<u8>),
            ProtocolError,
        >(ProtocolError::NotStructuredData),
{
    lemma_opening(digits, spaced_words(words, rest));
    lemma_five_words(words, rest);
}

/// An element that breaks off is refused as unclosed, however many stand before
/// it.
pub proof fn law_unclosed_element(
    digits: Seq<u8>,
    words: Seq<Seq<u8>>,
    elements: Seq<Seq<Piece>>,
    pieces: Seq<Piece>,
    cut: Cut,
)
    requires
        valid_priority(digits),
        valid_words(words),
        words.len() == 5,
        valid_elements(elements),
        valid_pieces(pieces),
        cut.is_valid(),
    ensures
        message::read_message(
            opening(
                digits,
                spaced_words(
                    words,
                    elements_bytes(elements) + (seq![OPEN] + pieces_bytes(pieces) + cut.bytes()),
                ),
            ),
        ) == Err::<(HeaderView, Seq<u8>), ProtocolError>(ProtocolError::Unclosed),
{
    let rest = elements_bytes(elements) + (seq![OPEN] + pieces_bytes(pieces) + cut.bytes());
    lemma_opening(digits, spaced_words(words, rest));
    lemma_five_words(words, rest);
    law_structured_data_is_unclosed(elements, pieces, cut);
}

/// Behind structured data stands a space or nothing, else the space is missing.
pub proof fn law_no_space(
    digits: Seq<u8>,
    words: Seq<Seq<u8>>,
    structured: Structured,
    rest: Seq<u8>,
)
    requires
        valid_priority(digits),
        valid_words(words),
        words.len() == 5,
        structured.is_valid(),
        structured.ends_before(rest),
        rest.len() > 0,
        rest[0] != SPACE,
    ensures
        message::read_message(
            opening(digits, spaced_words(words, structured.bytes() + rest)),
        ) == Err::<(HeaderView, Seq<u8>), ProtocolError>(ProtocolError::NoSpace),
{
    let all = structured.bytes() + rest;
    lemma_opening(digits, spaced_words(words, all));
    lemma_five_words(words, all);
    law_structured_data_has_its_length(structured, rest);
    assert(all.skip(structured.bytes().len() as int) =~= rest);
}

/// What stands between `<` and `>` of a message can stand for PRI.
proof fn lemma_priority_was(bytes: Seq<u8>)
    requires
        message::is_message(bytes),
    ensures
        valid_priority(laws::priority_digits(bytes)),
{
    let digits = laws::priority_digits(bytes);
    bytes.skip(1).index_of_first_ensures(GREATER);
    lemma_only_digits_are_read(digits);
    lemma_digits_are_read(digits);
}

/// What stands behind the version of a message are five words, structured data,
/// and a space with MSG or neither.
proof fn fields_parts(fields: Seq<u8>, priority: nat) -> (r: (
    Seq<Seq<u8>>,
    Structured,
    Option<Seq<u8>>,
))
    requires
        message::read_fields(priority, fields) is Ok,
    ensures
        r.0.len() == 5,
        valid_words(r.0),
        r.1.is_valid(),
        fields == spaced_words(
            r.0,
            r.1.bytes() + match r.2 {
                Some(msg) => seq![SPACE] + msg,
                None => Seq::empty(),
            },
        ),
{
    laws::lemma_words_were(fields);
    let (words, rest) = message::read_words(fields, 5)->Ok_0;
    assert forall|i: int| 0 <= i < words.len() implies valid_word(#[trigger] words[i]) by {
        let word = words[i];
        assert forall|j: int| 0 <= j < word.len() implies word[j] != SPACE by {
            assert(!word.contains(SPACE));
        }
    }
    let structured = structured_parts(rest);
    let after = rest.skip(message::structured_len(rest)->Ok_0 as int);
    assert(rest =~= structured.bytes() + after);
    lemma_five(words, rest);
    if after.len() == 0 {
        assert(after =~= Seq::empty());
        (words, structured, None)
    } else {
        assert(after =~= seq![SPACE] + after.skip(1));
        (words, structured, Some(after.skip(1)))
    }
}

/// Every message that is read is one that the grammar makes.
pub proof fn law_message_is_made(bytes: Seq<u8>)
    requires
        message::is_message(bytes),
    ensures
        exists|parts: Parts| #[trigger] parts.is_valid() && parts.bytes() == bytes,
{
    laws::lemma_message_was(bytes);
    lemma_priority_was(bytes);
    let digits = laws::priority_digits(bytes);
    let fields = laws::after_version(bytes);
    let priority = message::read_message(bytes)->Ok_0.0.priority();
    let (words, structured, msg) = fields_parts(fields, priority);
    let parts = Parts { digits, words, structured, msg };
    assert(parts.bytes() == opening(digits, fields));
    assert(opening(digits, fields) =~= laws::opened(digits, fields));
    assert(parts.is_valid());
}

/// Five words with a space behind each, written out.
proof fn lemma_five(words: Seq<Seq<u8>>, rest: Seq<u8>)
    requires
        words.len() == 5,
    ensures
        spaced_words(words, rest) == laws::five(words, rest),
{
    reveal_with_fuel(spaced_words, 6);
    let (w1, w2, w3, w4) = (words.skip(1), words.skip(2), words.skip(3), words.skip(4));
    assert(words.drop_first() =~= w1);
    assert(w1.drop_first() =~= w2);
    assert(w2.drop_first() =~= w3);
    assert(w3.drop_first() =~= w4);
    assert(w4.drop_first() =~= Seq::<Seq<u8>>::empty());
    assert(spaced_words(w4, rest) =~= laws::spaced(words[4], rest));
    assert(spaced_words(w3, rest) =~= laws::spaced(words[3], spaced_words(w4, rest)));
    assert(spaced_words(w2, rest) =~= laws::spaced(words[2], spaced_words(w3, rest)));
    assert(spaced_words(w1, rest) =~= laws::spaced(words[1], spaced_words(w2, rest)));
    assert(spaced_words(words, rest) =~= laws::spaced(words[0], spaced_words(w1, rest)));
}

/// `=`
pub open spec fn equals() -> u8 {
    0x3d
}

/// A value with a backslash before each `"`, `\` and `]`.
pub open spec fn escaped(value: Seq<u8>) -> Seq<u8>
    decreases value.len(),
{
    if value.len() == 0 {
        Seq::empty()
    } else {
        let rest = escaped(value.drop_first());
        if value[0] == QUOTE || value[0] == BACKSLASH || value[0] == CLOSE {
            seq![BACKSLASH, value[0]] + rest
        } else {
            seq![value[0]] + rest
        }
    }
}

/// `name` can name an element or a parameter: it holds no quote and no `]`.
pub open spec fn valid_name(name: Seq<u8>) -> bool {
    forall|i: int| 0 <= i < name.len() ==> name[i] != QUOTE && name[i] != CLOSE
}

/// `[id name="value"]`
pub open spec fn parameter_bytes(id: Seq<u8>, name: Seq<u8>, value: Seq<u8>) -> Seq<u8> {
    seq![OPEN] + id + seq![SPACE] + name + seq![equals(), QUOTE] + escaped(value) + seq![
        QUOTE,
        CLOSE,
    ]
}

/// What stands between quotes for a value.
proof fn value_parts(value: Seq<u8>) -> (r: Seq<Inner>)
    ensures
        valid_inner(r),
        inner_bytes(r) == escaped(value),
    decreases value.len(),
{
    if value.len() == 0 {
        Seq::empty()
    } else {
        let rest = value_parts(value.drop_first());
        let first = if value[0] == QUOTE || value[0] == BACKSLASH || value[0] == CLOSE {
            Inner::Escape(value[0])
        } else {
            Inner::Byte(value[0])
        };
        let all = seq![first] + rest;
        assert(all.drop_first() =~= rest);
        all
    }
}

/// Pieces for the bytes of a name, before others.
proof fn name_parts(name: Seq<u8>, behind: Seq<Piece>) -> (r: Seq<Piece>)
    requires
        valid_name(name),
        valid_pieces(behind),
    ensures
        valid_pieces(r),
        pieces_bytes(r) == name + pieces_bytes(behind),
    decreases name.len(),
{
    if name.len() == 0 {
        assert(name + pieces_bytes(behind) =~= pieces_bytes(behind));
        behind
    } else {
        let rest = name_parts(name.drop_first(), behind);
        let all = seq![Piece::Byte(name[0])] + rest;
        assert(all.drop_first() =~= rest);
        assert(pieces_bytes(all) =~= name + pieces_bytes(behind));
        all
    }
}

/// What an element with one parameter is made of.
proof fn parameter_parts(id: Seq<u8>, name: Seq<u8>, value: Seq<u8>) -> (r: Seq<Piece>)
    requires
        valid_name(id),
        valid_name(name),
    ensures
        valid_pieces(r),
        element_bytes(r) == parameter_bytes(id, name, value),
{
    let inner = value_parts(value);
    let quoted = seq![Piece::Quoted(inner)];
    assert(quoted.drop_first() =~= Seq::<Piece>::empty());
    reveal_with_fuel(pieces_bytes, 2);
    assert(pieces_bytes(quoted) =~= seq![QUOTE] + escaped(value) + seq![QUOTE]);
    let named = name_parts(seq![equals()], quoted);
    let spaced = name_parts(name, named);
    let behind = name_parts(seq![SPACE], spaced);
    let all = name_parts(id, behind);
    assert(element_bytes(all) =~= parameter_bytes(id, name, value));
    all
}

/// An element with a parameter is structured data of exactly its own length,
/// whatever its value, spaces included, once each `"`, `\` and `]` in it has its
/// backslash. What follows plays no part unless it opens another element.
pub proof fn law_any_value_can_be_quoted(
    id: Seq<u8>,
    name: Seq<u8>,
    value: Seq<u8>,
    next: Seq<u8>,
)
    requires
        valid_name(id),
        valid_name(name),
        next.len() > 0 ==> next[0] != OPEN,
    ensures
        message::structured_len(parameter_bytes(id, name, value) + next) == Ok::<
            nat,
            ProtocolError,
        >(parameter_bytes(id, name, value).len()),
{
    let pieces = parameter_parts(id, name, value);
    let elements = seq![pieces];
    assert(elements.drop_first() =~= Seq::<Seq<Piece>>::empty());
    reveal_with_fuel(elements_bytes, 2);
    assert(elements_bytes(elements) =~= parameter_bytes(id, name, value));
    law_structured_data_has_its_length(Structured::Elements(elements), next);
}

/// A message that carries such an element is read, with that text as its
/// structured data.
pub proof fn law_quoted_value_is_carried(
    digits: Seq<u8>,
    words: Seq<Seq<u8>>,
    id: Seq<u8>,
    name: Seq<u8>,
    value: Seq<u8>,
    msg: Seq<u8>,
)
    requires
        valid_priority(digits),
        valid_words(words),
        words.len() == 5,
        valid_name(id),
        valid_name(name),
    ensures
        ({
            let structured = parameter_bytes(id, name, value);
            let bytes = opening(digits, spaced_words(words, structured + (seq![SPACE] + msg)));
            &&& message::is_message(bytes)
            &&& message::read_message(bytes)->Ok_0.0.structured_data == text::lossy(structured)
            &&& message::read_message(bytes)->Ok_0.1 == msg
        }),
{
    let pieces = parameter_parts(id, name, value);
    let elements = seq![pieces];
    assert(elements.drop_first() =~= Seq::<Seq<Piece>>::empty());
    reveal_with_fuel(elements_bytes, 2);
    assert(elements_bytes(elements) =~= parameter_bytes(id, name, value));
    let parts = Parts {
        digits,
        words,
        structured: Structured::Elements(elements),
        msg: Some(msg),
    };
    law_message_is_read(parts);
}

/// Text is held as it is where the bytes are UTF-8, and else as it is repaired.
pub proof fn law_text_is_held(chars: Seq<char>, bytes: Seq<u8>)
    ensures
        text::lossy(encode_utf8(chars)) == chars,
        text::strict(encode_utf8(chars)) == Some(chars),
        valid_utf8(bytes) ==> encode_utf8(text::lossy(bytes)) == bytes,
        !valid_utf8(bytes) ==> text::lossy(bytes) == text::repaired_utf8(bytes),
        !valid_utf8(bytes) ==> text::strict(bytes) is None,
{
    encode_utf8_valid_utf8(chars);
    encode_utf8_decode_utf8(chars);
    if valid_utf8(bytes) {
        decode_utf8_encode_utf8(bytes);
    }
}

/// A frame opens with the length of its message in digits, without needless
/// zeros, and a space.
pub proof fn lemma_frame_digits(message: Seq<u8>)
    ensures
        exists|digits: Seq<u8>|
            {
                &&& #[trigger] are_digits(digits)
                &&& number_of(digits) == message.len()
                &&& digits.len() > 1 ==> digits[0] != 0x30
                &&& connection::frame_bytes(message) == digits + seq![SPACE] + message
            },
{
    let n = message.len();
    let chars = text::decimal(n);
    let digits = encode_utf8(chars);
    let space = seq![SPACE];
    reveal_strlit(" ");
    text::lemma_ascii_text(space);
    assert(" "@ =~= Seq::new(space.len(), |i: int| space[i] as char));
    text::lemma_encode_concat(chars, " "@);
    text::lemma_decimal(n);
    assert(is_ascii_chars(chars));
    is_ascii_chars_encode_utf8(chars);
    assert forall|i: int| 0 <= i < digits.len() implies is_digit(#[trigger] digits[i]) by {
        assert(text::is_digit(chars[i]));
        assert(digits[i] == chars[i] as u8);
    }
    assert forall|i: int| 0 <= i < digits.len() implies chars[i] == (#[trigger] digits[i]) as char
    by {
        assert(text::is_digit(chars[i]));
    }
    lemma_number_of(digits, chars);
    assert(are_digits(digits));
    if n > 0 {
        text::lemma_first_digit(n);
        assert(text::is_digit(chars[0]));
    } else {
        assert(chars.len() == 1);
    }
}

/// The text of a number is digits on the wire.
pub proof fn lemma_number_bytes(chars: Seq<char>)
    requires
        text::number(chars) is Some,
    ensures
        are_digits(encode_utf8(chars)),
{
    encode_utf8_valid_utf8(chars);
    encode_utf8_decode_utf8(chars);
    lemma_only_digits_are_read(encode_utf8(chars));
}

} // verus!
