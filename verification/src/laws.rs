//! What holds of messages as a whole: what is written is read back, and what
//! is read is written again.
use vstd::prelude::*;
use vstd::utf8::*;

use crate::arrival;
use crate::arrival::ArrivedView;
use crate::ascii::{CLOSE, DASH, GREATER, LESS, ONE, OPEN, SPACE};
use crate::calendar;
use crate::error::ProtocolError;
use crate::message;
use crate::message::{HeaderView, Quote};
use crate::node::Settings;
use crate::text;

verus! {

/// The first `x` is the one that follows what holds none.
pub proof fn lemma_first(a: Seq<u8>, x: u8, b: Seq<u8>)
    requires
        !a.contains(x),
    ensures
        (a + (seq![x] + b)).index_of_first(x) == Some(a.len() as int),
        (a + (seq![x] + b)).take(a.len() as int) == a,
        (a + (seq![x] + b)).skip(a.len() as int + 1) == b,
{
    let s = a + (seq![x] + b);
    s.index_of_first_ensures(x);
    assert(s[a.len() as int] == x);
    let i = s.index_of_first(x)->0;
    if i < a.len() {
        assert(a[i] == x);
    }
    assert(s.take(a.len() as int) =~= a);
    assert(s.skip(a.len() as int + 1) =~= b);
}

/// Digits on the wire: they are the number's, and no `>`.
proof fn lemma_digits_bytes(n: nat)
    ensures
        encode_utf8(text::decimal(n)).len() == text::decimal(n).len(),
        !encode_utf8(text::decimal(n)).contains(GREATER),
        text::strict(encode_utf8(text::decimal(n))) == Some(text::decimal(n)),
        text::number(text::decimal(n)) == Some(n),
        text::decimal(n).len() > 0,
{
    let chars = text::decimal(n);
    let digits = encode_utf8(chars);
    text::lemma_decimal(n);
    assert(is_ascii_chars(chars));
    is_ascii_chars_encode_utf8(chars);
    if digits.contains(GREATER) {
        let i = choose|i: int| 0 <= i < digits.len() && digits[i] == GREATER;
        assert(text::is_digit(chars[i]));
        assert(digits[i] == chars[i] as u8);
    }
    encode_utf8_valid_utf8(chars);
    encode_utf8_decode_utf8(chars);
}

/// PRI as it is written is read back.
proof fn lemma_read_priority(priority: nat, rest: Seq<u8>)
    requires
        priority <= message::MAX_PRIORITY,
    ensures
        message::read_priority(
            seq![LESS] + (encode_utf8(text::decimal(priority)) + (seq![GREATER] + rest)),
        ) == Ok::<(nat, Seq<u8>), ProtocolError>((priority, rest)),
{
    let chars = text::decimal(priority);
    let digits = encode_utf8(chars);
    let inner = digits + (seq![GREATER] + rest);
    lemma_digits_bytes(priority);
    reveal_with_fuel(text::decimal, 4);
    assert(chars.len() <= 3);
    lemma_first(digits, GREATER, rest);
    assert((seq![LESS] + inner).skip(1) =~= inner);
}

/// `word`, a space, and what follows.
pub open spec fn spaced(word: Seq<u8>, rest: Seq<u8>) -> Seq<u8> {
    word + (seq![SPACE] + rest)
}

/// A word that a space ends is read as it stands.
proof fn lemma_read_word(word: Seq<u8>, rest: Seq<u8>)
    requires
        word.len() > 0,
        !word.contains(SPACE),
    ensures
        message::read_word(spaced(word, rest)) == Some((word, rest)),
{
    lemma_first(word, SPACE, rest);
}

/// Five words are read as they stand.
proof fn lemma_read_words(a: Seq<u8>, b: Seq<u8>, c: Seq<u8>, d: Seq<u8>, e: Seq<u8>, rest: Seq<u8>)
    requires
        a.len() > 0 && !a.contains(SPACE),
        b.len() > 0 && !b.contains(SPACE),
        c.len() > 0 && !c.contains(SPACE),
        d.len() > 0 && !d.contains(SPACE),
        e.len() > 0 && !e.contains(SPACE),
    ensures
        message::read_words(
            spaced(a, spaced(b, spaced(c, spaced(d, spaced(e, rest))))),
            5,
        ) == Ok::<(Seq<Seq<u8>>, Seq<u8>), ProtocolError>((seq![a, b, c, d, e], rest)),
{
    let at_e = spaced(e, rest);
    let at_d = spaced(d, at_e);
    let at_c = spaced(c, at_d);
    let at_b = spaced(b, at_c);
    let at_a = spaced(a, at_b);
    lemma_read_word(a, at_b);
    lemma_read_word(b, at_c);
    lemma_read_word(c, at_d);
    lemma_read_word(d, at_e);
    lemma_read_word(e, rest);
    reveal_with_fuel(message::read_words, 6);
    assert(message::read_words(at_a, 5)->Ok_0.0 =~= seq![a, b, c, d, e]);
}

/// Bytes behind an element do not change where it closes.
proof fn lemma_to_close_extends(bytes: Seq<u8>, more: Seq<u8>, quote: Quote)
    requires
        message::to_close(bytes, quote) is Some,
    ensures
        message::to_close(bytes + more, quote) == message::to_close(bytes, quote),
        0 < message::to_close(bytes, quote)->0 <= bytes.len(),
    decreases bytes.len(),
{
    if bytes[0] == CLOSE && quote == Quote::Outside {
    } else {
        lemma_to_close_extends(
            bytes.drop_first(),
            more,
            message::after_byte(quote, bytes[0]),
        );
        assert((bytes + more).drop_first() =~= bytes.drop_first() + more);
    }
}

/// Bytes behind elements, if they do not open another right there, do not change
/// how long the elements are.
proof fn lemma_elements_extend(bytes: Seq<u8>, more: Seq<u8>)
    requires
        message::elements(bytes) is Some,
        message::elements(bytes)->0 == bytes.len() && more.len() > 0 ==> more[0] != OPEN,
    ensures
        message::elements(bytes + more) == message::elements(bytes),
    decreases bytes.len(),
{
    if bytes.len() == 0 {
        assert(bytes + more =~= more);
    } else if bytes[0] == OPEN {
        lemma_to_close_extends(bytes, more, Quote::Outside);
        let first = message::to_close(bytes, Quote::Outside)->0;
        lemma_elements_extend(bytes.skip(first as int), more);
        assert((bytes + more).skip(first as int) =~= bytes.skip(first as int) + more);
    }
}

/// `bytes` are structured data and nothing else.
pub open spec fn is_structured_data(bytes: Seq<u8>) -> bool {
    message::structured_len(bytes) == Ok::<nat, ProtocolError>(bytes.len())
}

/// Structured data before a MSG or the end is read as it stands.
proof fn lemma_structured_extends(bytes: Seq<u8>, more: Seq<u8>)
    requires
        is_structured_data(bytes),
        more.len() > 0 ==> more[0] == SPACE,
    ensures
        message::structured_len(bytes + more) == Ok::<nat, ProtocolError>(bytes.len()),
{
    if bytes[0] == DASH {
    } else {
        lemma_elements_extend(bytes, more);
    }
}

/// `word` can stand between spaces.
pub open spec fn is_word(word: Seq<char>) -> bool {
    word.len() > 0 && !word.contains(' ')
}

/// The header keeps its shape on the wire: PRI is in range, the five fields
/// can stand between spaces, and the structured data is that.
pub open spec fn keeps_its_shape(header: HeaderView) -> bool {
    &&& header.facility <= 23
    &&& is_word(header.timestamp)
    &&& is_word(header.hostname)
    &&& is_word(header.app_name)
    &&& is_word(header.proc_id)
    &&& is_word(header.msg_id)
    &&& is_structured_data(encode_utf8(header.structured_data))
}

/// The bytes after PRI and version, field by field.
pub open spec fn fields_bytes(header: HeaderView, after: Seq<u8>) -> Seq<u8> {
    spaced(
        encode_utf8(header.timestamp),
        spaced(
            encode_utf8(header.hostname),
            spaced(
                encode_utf8(header.app_name),
                spaced(
                    encode_utf8(header.proc_id),
                    spaced(
                        encode_utf8(header.msg_id),
                        encode_utf8(header.structured_data) + after,
                    ),
                ),
            ),
        ),
    )
}

/// The last piece of a text, encoded apart.
proof fn lemma_peel(front: Seq<char>, piece: Seq<char>, after: Seq<u8>)
    ensures
        encode_utf8(front + piece) + after == encode_utf8(front) + (encode_utf8(piece) + after),
{
    text::lemma_encode_concat(front, piece);
    assert((encode_utf8(front) + encode_utf8(piece)) + after =~= encode_utf8(front) + (encode_utf8(
        piece,
    ) + after));
}

/// The header on the wire, field by field.
proof fn lemma_written_bytes(header: HeaderView, after: Seq<u8>)
    ensures
        encode_utf8(header.written()) + after == seq![LESS] + (encode_utf8(
            text::decimal(header.priority()),
        ) + (seq![GREATER] + (seq![ONE, SPACE] + fields_bytes(header, after)))),
{
    let less = seq![LESS];
    let version = seq![GREATER, ONE, SPACE];
    let space = seq![SPACE];
    reveal_strlit("<");
    reveal_strlit(">1 ");
    reveal_strlit(" ");
    text::lemma_ascii_text(less);
    text::lemma_ascii_text(version);
    text::lemma_ascii_text(space);
    assert("<"@ =~= Seq::new(less.len(), |i: int| less[i] as char));
    assert(">1 "@ =~= Seq::new(version.len(), |i: int| version[i] as char));
    assert(" "@ =~= Seq::new(space.len(), |i: int| space[i] as char));
    let digits = text::decimal(header.priority());
    let t2 = "<"@ + digits;
    let t3 = t2 + ">1 "@;
    let t4 = t3 + header.timestamp;
    let t5 = t4 + " "@;
    let t6 = t5 + header.hostname;
    let t7 = t6 + " "@;
    let t8 = t7 + header.app_name;
    let t9 = t8 + " "@;
    let t10 = t9 + header.proc_id;
    let t11 = t10 + " "@;
    let t12 = t11 + header.msg_id;
    let t13 = t12 + " "@;
    let b13 = encode_utf8(header.structured_data) + after;
    let b12 = space + b13;
    let b11 = encode_utf8(header.msg_id) + b12;
    let b10 = space + b11;
    let b9 = encode_utf8(header.proc_id) + b10;
    let b8 = space + b9;
    let b7 = encode_utf8(header.app_name) + b8;
    let b6 = space + b7;
    let b5 = encode_utf8(header.hostname) + b6;
    let b4 = space + b5;
    let b3 = encode_utf8(header.timestamp) + b4;
    let b2 = version + b3;
    lemma_peel(t13, header.structured_data, after);
    lemma_peel(t12, " "@, b13);
    lemma_peel(t11, header.msg_id, b12);
    lemma_peel(t10, " "@, b11);
    lemma_peel(t9, header.proc_id, b10);
    lemma_peel(t8, " "@, b9);
    lemma_peel(t7, header.app_name, b8);
    lemma_peel(t6, " "@, b7);
    lemma_peel(t5, header.hostname, b6);
    lemma_peel(t4, " "@, b5);
    lemma_peel(t3, header.timestamp, b4);
    lemma_peel(t2, ">1 "@, b3);
    lemma_peel("<"@, digits, b2);
    assert(b3 == fields_bytes(header, after));
    assert(b2 =~= seq![GREATER] + (seq![ONE, SPACE] + b3));
}

/// A word of text is a word of bytes, and the bytes hold the text.
proof fn lemma_word_bytes(word: Seq<char>)
    requires
        is_word(word),
    ensures
        encode_utf8(word).len() > 0,
        !encode_utf8(word).contains(SPACE),
        text::lossy(encode_utf8(word)) == word,
{
    text::lemma_encode_ascii(word, ' ');
    assert(' ' as u8 == SPACE);
    encode_utf8_valid_utf8(word);
    encode_utf8_decode_utf8(word);
}

/// The severity that three bits hold.
pub open spec fn masked(header: HeaderView) -> HeaderView {
    HeaderView { severity: (header.severity % 8) as u8, ..header }
}

/// What is written is read back: a header that keeps its shape comes back as it
/// was, severity as far as three bits hold it, and MSG comes back untouched.
pub proof fn law_written_is_read(header: HeaderView, msg: Seq<u8>)
    requires
        keeps_its_shape(header),
    ensures
        message::read_message(message::message_bytes(header, msg)) == Ok::<
            (HeaderView, Seq<u8>),
            ProtocolError,
        >((masked(header), msg)),
{
    let after = if msg.len() == 0 {
        Seq::<u8>::empty()
    } else {
        seq![SPACE] + msg
    };
    let priority = header.priority();
    let structured = encode_utf8(header.structured_data);
    let fields = fields_bytes(header, after);
    lemma_written_bytes(header, after);
    lemma_read_priority(priority, seq![ONE, SPACE] + fields);
    assert((seq![ONE, SPACE] + fields).skip(2) =~= fields);
    lemma_word_bytes(header.timestamp);
    lemma_word_bytes(header.hostname);
    lemma_word_bytes(header.app_name);
    lemma_word_bytes(header.proc_id);
    lemma_word_bytes(header.msg_id);
    lemma_read_words(
        encode_utf8(header.timestamp),
        encode_utf8(header.hostname),
        encode_utf8(header.app_name),
        encode_utf8(header.proc_id),
        encode_utf8(header.msg_id),
        structured + after,
    );
    lemma_structured_extends(structured, after);
    encode_utf8_valid_utf8(header.structured_data);
    encode_utf8_decode_utf8(header.structured_data);
    assert((structured + after).take(structured.len() as int) =~= structured);
    assert((structured + after).skip(structured.len() as int) =~= after);
    assert(msg.len() > 0 ==> after.skip(1) =~= msg);
    assert(priority / 8 == header.facility);
    assert(priority % 8 == header.severity % 8);
    let bytes = message::message_bytes(header, msg);
    assert(bytes == encode_utf8(header.written()) + after);
    assert(message::read_priority(bytes)->Ok_0 == (priority, seq![ONE, SPACE] + fields));
    assert(message::read_version(seq![ONE, SPACE] + fields)->Ok_0 == fields);
    assert(message::read_msg(after)->Ok_0 =~= msg);
    let read = message::read_fields(priority, fields);
    assert(read is Ok);
    assert(read->Ok_0.0 =~= masked(header));
}

/// UTF-8 on both sides of an ASCII byte is UTF-8 on either.
proof fn lemma_split_at_ascii(a: Seq<u8>, x: u8, b: Seq<u8>)
    requires
        x < 0x80,
        valid_utf8(a + (seq![x] + b)),
    ensures
        valid_utf8(a),
        valid_utf8(b),
{
    let s = a + (seq![x] + b);
    let at = a.len() as int;
    assert(s[at] == x);
    is_char_boundary_iff_not_is_continuation_byte(s, at);
    valid_utf8_split(s, at);
    assert(s.subrange(0, at) =~= a);
    let tail = s.subrange(at, s.len() as int);
    assert(tail =~= seq![x] + b);
    assert(pop_first_scalar(tail) =~= b);
}

/// A word that was read, and what followed it, make up what was read from.
proof fn lemma_word_was(bytes: Seq<u8>)
    requires
        message::read_word(bytes) is Some,
    ensures
        bytes == spaced((message::read_word(bytes)->0).0, (message::read_word(bytes)->0).1),
        (message::read_word(bytes)->0).0.len() > 0,
        !(message::read_word(bytes)->0).0.contains(SPACE),
{
    bytes.index_of_first_ensures(SPACE);
    let end = bytes.index_of_first(SPACE)->0;
    let word = bytes.take(end);
    assert(bytes =~= spaced(word, bytes.skip(end + 1)));
    if word.contains(SPACE) {
        let i = choose|i: int| 0 <= i < word.len() && word[i] == SPACE;
        assert(bytes[i] == SPACE);
    }
}

/// Five words that were read, and what followed them, make up what was read
/// from.
pub(crate) proof fn lemma_words_were(bytes: Seq<u8>)
    requires
        message::read_words(bytes, 5) is Ok,
    ensures
        ({
            let (words, rest) = message::read_words(bytes, 5)->Ok_0;
            &&& words.len() == 5
            &&& bytes == five(words, rest)
            &&& forall|i: int|
                0 <= i < 5 ==> (#[trigger] words[i]).len() > 0 && !words[i].contains(SPACE)
        }),
{
    reveal_with_fuel(message::read_words, 6);
    let (words, rest) = message::read_words(bytes, 5)->Ok_0;
    let r1 = message::read_words(bytes, 1)->Ok_0.1;
    let r2 = message::read_words(bytes, 2)->Ok_0.1;
    let r3 = message::read_words(bytes, 3)->Ok_0.1;
    let r4 = message::read_words(bytes, 4)->Ok_0.1;
    lemma_word_was(bytes);
    lemma_word_was(r1);
    lemma_word_was(r2);
    lemma_word_was(r3);
    lemma_word_was(r4);
    assert(words[0] == (message::read_word(bytes)->0).0);
    assert(words[1] == (message::read_word(r1)->0).0);
    assert(words[2] == (message::read_word(r2)->0).0);
    assert(words[3] == (message::read_word(r3)->0).0);
    assert(words[4] == (message::read_word(r4)->0).0);
}

/// Elements lie within what they are read from.
proof fn lemma_elements_within(bytes: Seq<u8>)
    requires
        message::elements(bytes) is Some,
    ensures
        message::elements(bytes)->0 <= bytes.len(),
        bytes.len() > 0 && bytes[0] == OPEN ==> message::elements(bytes)->0 > 0,
    decreases bytes.len(),
{
    if bytes.len() > 0 && bytes[0] == OPEN {
        let first = message::to_close(bytes, Quote::Outside)->0;
        lemma_elements_within(bytes.skip(first as int));
    }
}

/// What follows the last of the bytes after a space can be set apart.
proof fn lemma_spaced_apart(word: Seq<u8>, rest: Seq<u8>, last: Seq<u8>)
    ensures
        spaced(word, rest + last) == spaced(word, rest) + last,
{
    assert(spaced(word, rest + last) =~= spaced(word, rest) + last);
}

/// Five words and the bytes behind them.
pub open spec fn five(words: Seq<Seq<u8>>, rest: Seq<u8>) -> Seq<u8> {
    spaced(
        words[0],
        spaced(words[1], spaced(words[2], spaced(words[3], spaced(words[4], rest)))),
    )
}

/// What follows the last of the bytes after five words can be set apart.
proof fn lemma_five_apart(words: Seq<Seq<u8>>, rest: Seq<u8>, last: Seq<u8>)
    ensures
        five(words, rest + last) == five(words, rest) + last,
{
    let r4 = spaced(words[4], rest);
    let r3 = spaced(words[3], r4);
    let r2 = spaced(words[2], r3);
    let r1 = spaced(words[1], r2);
    lemma_spaced_apart(words[4], rest, last);
    lemma_spaced_apart(words[3], r4, last);
    lemma_spaced_apart(words[2], r3, last);
    lemma_spaced_apart(words[1], r2, last);
    lemma_spaced_apart(words[0], r1, last);
}

/// Where five words and the bytes behind them are UTF-8, each of them is.
proof fn lemma_five_utf8(words: Seq<Seq<u8>>, rest: Seq<u8>)
    requires
        words.len() == 5,
        valid_utf8(five(words, rest)),
    ensures
        valid_utf8(words[0]),
        valid_utf8(words[1]),
        valid_utf8(words[2]),
        valid_utf8(words[3]),
        valid_utf8(words[4]),
        valid_utf8(rest),
{
    let r4 = spaced(words[4], rest);
    let r3 = spaced(words[3], r4);
    let r2 = spaced(words[2], r3);
    let r1 = spaced(words[1], r2);
    lemma_split_at_ascii(words[0], SPACE, r1);
    lemma_split_at_ascii(words[1], SPACE, r2);
    lemma_split_at_ascii(words[2], SPACE, r3);
    lemma_split_at_ascii(words[3], SPACE, r4);
    lemma_split_at_ascii(words[4], SPACE, rest);
}

/// PRI, version, and the bytes behind them.
pub open spec fn opened(digits: Seq<u8>, rest: Seq<u8>) -> Seq<u8> {
    seq![LESS] + (digits + (seq![GREATER] + (seq![ONE, SPACE] + rest)))
}

/// What follows the last of the bytes after PRI can be set apart.
proof fn lemma_opened_apart(digits: Seq<u8>, rest: Seq<u8>, last: Seq<u8>)
    ensures
        opened(digits, rest + last) == opened(digits, rest) + last,
        opened(digits, rest + last).take(
            opened(digits, rest + last).len() - last.len(),
        ) == opened(digits, rest),
{
    assert(opened(digits, rest + last) =~= opened(digits, rest) + last);
    assert((opened(digits, rest) + last).take(opened(digits, rest).len() as int) =~= opened(
        digits,
        rest,
    ));
}

/// Where PRI and the bytes behind are UTF-8, the latter are.
proof fn lemma_opened_utf8(digits: Seq<u8>, rest: Seq<u8>)
    requires
        valid_utf8(opened(digits, rest)),
    ensures
        valid_utf8(rest),
{
    let none = Seq::<u8>::empty();
    let versioned = seq![ONE, SPACE] + rest;
    let inner = digits + (seq![GREATER] + versioned);
    assert(opened(digits, rest) =~= none + (seq![LESS] + inner));
    lemma_split_at_ascii(none, LESS, inner);
    lemma_split_at_ascii(digits, GREATER, versioned);
    assert(versioned =~= seq![ONE] + (seq![SPACE] + rest));
    lemma_split_at_ascii(seq![ONE], SPACE, rest);
}

/// What a text's bytes are read as is written as those bytes.
proof fn lemma_lossless(bytes: Seq<u8>)
    requires
        valid_utf8(bytes),
    ensures
        encode_utf8(text::lossy(bytes)) == bytes,
{
    decode_utf8_encode_utf8(bytes);
}

/// What stands between `<` and the first `>`.
pub open spec fn priority_digits(bytes: Seq<u8>) -> Seq<u8> {
    bytes.skip(1).take(bytes.skip(1).index_of_first(GREATER)->0)
}

/// What follows the version.
pub open spec fn after_version(bytes: Seq<u8>) -> Seq<u8> {
    message::read_version(message::read_priority(bytes)->Ok_0.1)->Ok_0
}

/// PRI and what follows the version make up a message.
pub(crate) proof fn lemma_message_was(bytes: Seq<u8>)
    requires
        message::is_message(bytes),
    ensures
        ({
            let (header, msg) = message::read_message(bytes)->Ok_0;
            &&& header.priority() <= message::MAX_PRIORITY
            &&& header.facility <= 23
            &&& header.severity <= 7
            &&& bytes == opened(priority_digits(bytes), after_version(bytes))
            &&& message::read_message(bytes) == message::read_fields(
                header.priority(),
                after_version(bytes),
            )
        }),
{
    let (header, msg) = message::read_message(bytes)->Ok_0;
    let (priority, rest) = message::read_priority(bytes)->Ok_0;
    assert(priority / 8 <= 23 && header.facility == priority / 8 && header.severity == priority
        % 8);
    assert(header.priority() == priority);
    let inner = bytes.skip(1);
    inner.index_of_first_ensures(GREATER);
    let fields = after_version(bytes);
    assert(rest =~= seq![ONE, SPACE] + fields);
    assert(inner =~= priority_digits(bytes) + (seq![GREATER] + rest));
    assert(bytes =~= seq![LESS] + inner);
}

/// PRI stands in `bytes` as it would be written: without leading zeros.
pub open spec fn has_plain_priority(bytes: Seq<u8>) -> bool {
    priority_digits(bytes) == encode_utf8(
        text::decimal(message::read_message(bytes)->Ok_0.0.priority()),
    )
}

/// What stands before MSG is UTF-8.
pub open spec fn has_utf8_header(bytes: Seq<u8>) -> bool {
    valid_utf8(bytes.take(bytes.len() - message::read_message(bytes)->Ok_0.1.len()))
}

/// `word` is the bytes of `chars`, and they can stand between spaces.
pub open spec fn holds_word(word: Seq<u8>, chars: Seq<char>) -> bool {
    encode_utf8(chars) == word && word.len() > 0 && !word.contains(SPACE)
}

/// Where the header of a message is UTF-8, its fields hold the text that they
/// are read as.
proof fn lemma_header_parts(bytes: Seq<u8>)
    requires
        message::is_message(bytes),
        has_utf8_header(bytes),
    ensures
        ({
            let (header, msg) = message::read_message(bytes)->Ok_0;
            let (words, rest) = message::read_words(after_version(bytes), 5)->Ok_0;
            let len = message::structured_len(rest)->Ok_0;
            &&& words.len() == 5
            &&& after_version(bytes) == five(words, rest)
            &&& 0 < len <= rest.len()
            &&& holds_word(words[0], header.timestamp)
            &&& holds_word(words[1], header.hostname)
            &&& holds_word(words[2], header.app_name)
            &&& holds_word(words[3], header.proc_id)
            &&& holds_word(words[4], header.msg_id)
            &&& encode_utf8(header.structured_data) == rest.take(len as int)
        }),
{
    let (header, msg) = message::read_message(bytes)->Ok_0;
    let fields = after_version(bytes);
    lemma_message_was(bytes);
    lemma_words_were(fields);
    let (words, rest) = message::read_words(fields, 5)->Ok_0;
    let len = message::structured_len(rest)->Ok_0;
    lemma_elements_within(rest);
    let structured = rest.take(len as int);
    let after = rest.skip(len as int);
    let cap = if after.len() == 0 {
        Seq::<u8>::empty()
    } else {
        seq![SPACE]
    };
    let head = five(words, structured + cap);
    assert(rest =~= (structured + cap) + msg);
    lemma_five_apart(words, structured + cap, msg);
    assert(fields == head + msg);
    lemma_opened_apart(priority_digits(bytes), head, msg);
    lemma_opened_utf8(priority_digits(bytes), head);
    lemma_five_utf8(words, structured + cap);
    if after.len() == 0 {
        assert(structured + cap =~= structured);
    } else {
        let none = Seq::<u8>::empty();
        assert(structured + cap =~= structured + (seq![SPACE] + none));
        lemma_split_at_ascii(structured, SPACE, none);
    }
    lemma_lossless(words[0]);
    lemma_lossless(words[1]);
    lemma_lossless(words[2]);
    lemma_lossless(words[3]);
    lemma_lossless(words[4]);
    lemma_lossless(structured);
}

/// What is read is written again: a message whose PRI is plain, whose header is
/// UTF-8, and that does not end in the space before an empty MSG, is what its
/// header and its MSG are written as.
pub proof fn law_read_is_written(bytes: Seq<u8>)
    requires
        message::is_message(bytes),
        has_plain_priority(bytes),
        has_utf8_header(bytes),
        message::read_message(bytes)->Ok_0.1.len() == 0 ==> bytes.last() != SPACE,
    ensures
        message::message_bytes(
            message::read_message(bytes)->Ok_0.0,
            message::read_message(bytes)->Ok_0.1,
        ) == bytes,
{
    let (header, msg) = message::read_message(bytes)->Ok_0;
    let fields = after_version(bytes);
    lemma_message_was(bytes);
    lemma_header_parts(bytes);
    let (words, rest) = message::read_words(fields, 5)->Ok_0;
    let len = message::structured_len(rest)->Ok_0;
    let structured = rest.take(len as int);
    let after = rest.skip(len as int);
    assert(rest =~= structured + after);
    if after.len() > 0 {
        assert(after =~= seq![SPACE] + msg);
        lemma_five_apart(words, structured, after);
        lemma_opened_apart(priority_digits(bytes), five(words, structured), after);
        assert(bytes.last() == after.last());
    } else {
        assert(after =~= Seq::<u8>::empty());
    }
    lemma_written_bytes(header, after);
    assert(fields_bytes(header, after) == fields);
}

/// Where an element closes is decided by the bytes up to there.
proof fn lemma_to_close_early(bytes: Seq<u8>, count: int, quote: Quote)
    requires
        message::to_close(bytes, quote) is Some,
        message::to_close(bytes, quote)->0 <= count <= bytes.len(),
    ensures
        message::to_close(bytes.take(count), quote) == message::to_close(bytes, quote),
        0 < message::to_close(bytes, quote)->0,
    decreases bytes.len(),
{
    if bytes[0] == CLOSE && quote == Quote::Outside {
        assert(bytes.take(count)[0] == bytes[0]);
    } else {
        lemma_to_close_early(
            bytes.drop_first(),
            count - 1,
            message::after_byte(quote, bytes[0]),
        );
        assert(bytes.take(count).drop_first() =~= bytes.drop_first().take(count - 1));
    }
}

/// How long elements are is decided by the elements.
proof fn lemma_elements_early(bytes: Seq<u8>)
    requires
        message::elements(bytes) is Some,
    ensures
        message::elements(bytes)->0 <= bytes.len(),
        message::elements(bytes.take(message::elements(bytes)->0 as int)) == message::elements(
            bytes,
        ),
    decreases bytes.len(),
{
    let all = message::elements(bytes)->0;
    lemma_elements_within(bytes);
    if bytes.len() > 0 && bytes[0] == OPEN {
        let first = message::to_close(bytes, Quote::Outside)->0;
        let more = bytes.skip(first as int);
        lemma_to_close_early(bytes, all as int, Quote::Outside);
        lemma_elements_early(more);
        assert(bytes.take(all as int).skip(first as int) =~= more.take(all - first));
    }
}

/// Where an element closes shows in the skeleton.
proof fn lemma_close_in_skeleton(bytes: Seq<u8>, quote: Quote)
    ensures
        match message::to_close(bytes, quote) {
            Some(len) => {
                let bones = text::skeleton(bytes);
                &&& 0 < len <= bytes.len()
                &&& message::to_close(bones, quote) matches Some(short)
                &&& 0 < short <= bones.len()
                &&& bones.skip(short as int) == text::skeleton(bytes.skip(len as int))
            },
            None => message::to_close(text::skeleton(bytes), quote) is None,
        },
    decreases bytes.len(),
{
    let bones = text::skeleton(bytes);
    if bytes.len() > 0 {
        let rest = bytes.drop_first();
        let more = text::skeleton(rest);
        if bytes[0] == CLOSE && quote == Quote::Outside {
            assert(bytes.skip(1) =~= rest);
            assert(bones.skip(1) =~= more);
        } else {
            let next = message::after_byte(quote, bytes[0]);
            lemma_close_in_skeleton(rest, next);
            text::lemma_skeleton(rest, CLOSE);
            if bytes[0] >= 0x80 && rest.len() > 0 && rest[0] >= 0x80 {
                assert(message::to_close(more, quote) == message::to_close(more, next));
            } else {
                assert(bones.drop_first() =~= more);
            }
            if let Some(len) = message::to_close(rest, next) {
                let short = message::to_close(more, next)->0;
                assert(bytes.skip(len as int + 1) =~= rest.skip(len as int));
                if bones.len() > more.len() {
                    assert(bones.skip(short as int + 1) =~= more.skip(short as int));
                }
            }
        }
    }
}

/// Whether there are elements and nothing else shows in the skeleton.
proof fn lemma_elements_in_skeleton(bytes: Seq<u8>)
    ensures
        message::elements(bytes) == Some(bytes.len()) <==> message::elements(text::skeleton(bytes))
            == Some(text::skeleton(bytes).len()),
    decreases bytes.len(),
{
    let bones = text::skeleton(bytes);
    text::lemma_skeleton(bytes, OPEN);
    if bytes.len() > 0 && bytes[0] == OPEN {
        lemma_close_in_skeleton(bytes, Quote::Outside);
        if let Some(first) = message::to_close(bytes, Quote::Outside) {
            lemma_elements_in_skeleton(bytes.skip(first as int));
        }
    }
}

/// Whether there is structured data and nothing else shows in the skeleton.
proof fn lemma_structured_in_skeleton(bytes: Seq<u8>)
    ensures
        is_structured_data(bytes) <==> is_structured_data(text::skeleton(bytes)),
{
    text::lemma_skeleton(bytes, DASH);
    lemma_elements_in_skeleton(bytes);
    if bytes.len() > 0 {
        text::lemma_skeleton(bytes.drop_first(), DASH);
    }
}

/// The text that a word's bytes hold is a word.
proof fn lemma_holds_word(word: Seq<u8>)
    requires
        text::keeps_skeleton(word),
        word.len() > 0,
        !word.contains(SPACE),
    ensures
        is_word(text::lossy(word)),
{
    let chars = text::lossy(word);
    text::lemma_skeleton(word, SPACE);
    text::lemma_skeleton(encode_utf8(chars), SPACE);
    text::lemma_encode_ascii(chars, ' ');
    assert(' ' as u8 == SPACE);
}

/// Written again, what was read is read the same.
pub(crate) proof fn lemma_read_again(priority: nat, bytes: Seq<u8>)
    requires
        priority <= message::MAX_PRIORITY,
        message::read_fields(priority, bytes) is Ok,
        ({
            let (words, rest) = message::read_words(bytes, 5)->Ok_0;
            &&& forall|i: int| 0 <= i < 5 ==> text::keeps_skeleton(#[trigger] words[i])
            &&& text::keeps_skeleton(rest.take(message::structured_len(rest)->Ok_0 as int))
        }),
    ensures
        ({
            let (header, msg) = message::read_fields(priority, bytes)->Ok_0;
            message::read_message(message::message_bytes(header, msg)) == Ok::<
                (HeaderView, Seq<u8>),
                ProtocolError,
            >((header, msg))
        }),
{
    let (header, msg) = message::read_fields(priority, bytes)->Ok_0;
    let (words, rest) = message::read_words(bytes, 5)->Ok_0;
    let structured = rest.take(message::structured_len(rest)->Ok_0 as int);
    lemma_words_were(bytes);
    lemma_holds_word(words[0]);
    lemma_holds_word(words[1]);
    lemma_holds_word(words[2]);
    lemma_holds_word(words[3]);
    lemma_holds_word(words[4]);
    assert(is_structured_data(structured)) by {
        lemma_elements_within(rest);
        assert(structured[0] == rest[0]);
        if rest[0] == OPEN {
            lemma_elements_early(rest);
        }
    }
    lemma_structured_in_skeleton(structured);
    lemma_structured_in_skeleton(encode_utf8(header.structured_data));
    law_written_is_read(header, msg);
    assert(masked(header) =~= header);
}

/// `tail` is what `bytes` end with.
pub open spec fn ends_with(bytes: Seq<u8>, tail: Seq<u8>) -> bool {
    tail.len() <= bytes.len() && tail == bytes.skip(bytes.len() - tail.len())
}

/// The tail of a tail is a tail.
proof fn lemma_tail_of_tail(bytes: Seq<u8>, tail: Seq<u8>, last: Seq<u8>)
    requires
        ends_with(bytes, tail),
        ends_with(tail, last),
    ensures
        ends_with(bytes, last),
{
    assert(last =~= bytes.skip(bytes.len() - last.len()));
}

/// What follows so many bytes is a tail.
proof fn lemma_skipped_is_tail(bytes: Seq<u8>, count: int)
    requires
        0 <= count <= bytes.len(),
    ensures
        ends_with(bytes, bytes.skip(count)),
{
}

/// What follows five words is a tail.
proof fn lemma_words_leave_tail(bytes: Seq<u8>)
    requires
        message::read_words(bytes, 5) is Ok,
    ensures
        ends_with(bytes, message::read_words(bytes, 5)->Ok_0.1),
{
    lemma_words_were(bytes);
    let (words, rest) = message::read_words(bytes, 5)->Ok_0;
    let none = Seq::<u8>::empty();
    lemma_five_apart(words, none, rest);
    assert(none + rest =~= rest);
    let front = five(words, none);
    assert(bytes == front + rest);
    assert(rest =~= bytes.skip(bytes.len() - rest.len()));
}

/// PRI is facility times eight plus severity, and both are in range.
pub proof fn law_priority_is_split(bytes: Seq<u8>)
    requires
        message::is_message(bytes),
    ensures
        ({
            let (header, msg) = message::read_message(bytes)->Ok_0;
            &&& header.facility <= 23
            &&& header.severity <= 7
            &&& message::read_priority(bytes)->Ok_0.0 == header.facility * 8 + header.severity
        }),
{
    lemma_message_was(bytes);
}

/// MSG is the last of the bytes, untouched.
pub proof fn law_msg_is_the_tail(bytes: Seq<u8>)
    requires
        message::is_message(bytes),
    ensures
        ends_with(bytes, message::read_message(bytes)->Ok_0.1),
{
    let (header, msg) = message::read_message(bytes)->Ok_0;
    let (priority, behind) = message::read_priority(bytes)->Ok_0;
    let inner = bytes.skip(1);
    inner.index_of_first_ensures(GREATER);
    lemma_skipped_is_tail(bytes, 1);
    lemma_skipped_is_tail(inner, inner.index_of_first(GREATER)->0 + 1);
    lemma_tail_of_tail(bytes, inner, behind);
    let fields = message::read_version(behind)->Ok_0;
    lemma_skipped_is_tail(behind, 2);
    lemma_tail_of_tail(bytes, behind, fields);
    lemma_words_leave_tail(fields);
    let (words, rest) = message::read_words(fields, 5)->Ok_0;
    lemma_tail_of_tail(bytes, fields, rest);
    let len = message::structured_len(rest)->Ok_0;
    lemma_elements_within(rest);
    lemma_skipped_is_tail(rest, len as int);
    let after = rest.skip(len as int);
    lemma_tail_of_tail(bytes, rest, after);
    if after.len() > 0 {
        lemma_skipped_is_tail(after, 1);
        lemma_tail_of_tail(bytes, after, msg);
    }
}

/// An element ends with the byte that closes it.
proof fn lemma_close_is_last(bytes: Seq<u8>, quote: Quote)
    requires
        message::to_close(bytes, quote) is Some,
    ensures
        0 < message::to_close(bytes, quote)->0 <= bytes.len(),
        bytes[message::to_close(bytes, quote)->0 - 1] == CLOSE,
    decreases bytes.len(),
{
    if bytes[0] == CLOSE && quote == Quote::Outside {
    } else {
        lemma_close_is_last(bytes.drop_first(), message::after_byte(quote, bytes[0]));
    }
}

/// Elements end with a byte that closes one.
proof fn lemma_elements_close(bytes: Seq<u8>)
    requires
        message::elements(bytes) == Some(bytes.len()),
        bytes.len() > 0,
    ensures
        bytes.last() == CLOSE,
    decreases bytes.len(),
{
    let first = message::to_close(bytes, Quote::Outside)->0;
    lemma_close_is_last(bytes, Quote::Outside);
    if first < bytes.len() {
        lemma_elements_close(bytes.skip(first as int));
    }
}

/// What follows the structured data of a message.
pub open spec fn after_structured(bytes: Seq<u8>) -> Seq<u8> {
    let rest = message::read_words(after_version(bytes), 5)->Ok_0.1;
    rest.skip(message::structured_len(rest)->Ok_0 as int)
}

/// Something follows the structured data where there is a MSG, or the space
/// before an empty one.
proof fn lemma_something_follows(bytes: Seq<u8>)
    requires
        message::is_message(bytes),
    ensures
        after_structured(bytes).len() > 0 <==> message::read_message(bytes)->Ok_0.1.len() > 0
            || bytes.last() == SPACE,
{
    let (header, msg) = message::read_message(bytes)->Ok_0;
    let digits = priority_digits(bytes);
    lemma_message_was(bytes);
    lemma_words_were(after_version(bytes));
    let (words, rest) = message::read_words(after_version(bytes), 5)->Ok_0;
    let len = message::structured_len(rest)->Ok_0;
    let after = rest.skip(len as int);
    let none = Seq::<u8>::empty();
    lemma_elements_within(rest);
    lemma_five_apart(words, none, rest);
    lemma_opened_apart(digits, five(words, none), rest);
    assert(none + rest =~= rest);
    assert(bytes.last() == rest.last());
    if after.len() == 0 {
        if rest[0] == OPEN {
            lemma_elements_close(rest);
        }
    } else if msg.len() == 0 {
        assert(rest.last() == after.last());
    }
}

/// What comes behind a message leaves PRI and version as they are.
proof fn lemma_opening_stays(bytes: Seq<u8>, tail: Seq<u8>)
    requires
        message::is_message(bytes),
    ensures
        message::read_message(bytes + tail) == message::read_fields(
            message::read_message(bytes)->Ok_0.0.priority(),
            after_version(bytes) + tail,
        ),
{
    let (header, msg) = message::read_message(bytes)->Ok_0;
    let digits = priority_digits(bytes);
    let fields = after_version(bytes);
    let versioned = seq![ONE, SPACE] + (fields + tail);
    lemma_message_was(bytes);
    lemma_opened_apart(digits, fields, tail);
    bytes.skip(1).index_of_first_ensures(GREATER);
    assert(!digits.contains(GREATER));
    lemma_first(digits, GREATER, versioned);
    assert((bytes + tail).skip(1) =~= digits + (seq![GREATER] + versioned));
    assert(message::read_priority(bytes + tail) == Ok::<(nat, Seq<u8>), ProtocolError>(
        (header.priority(), versioned),
    ));
    assert(versioned.skip(2) =~= fields + tail);
}

/// What comes behind structured data leaves it as it is, if it does not open
/// another element right there.
proof fn lemma_structured_stays(rest: Seq<u8>, tail: Seq<u8>)
    requires
        message::structured_len(rest) is Ok,
        message::structured_len(rest)->Ok_0 == rest.len() && tail.len() > 0 ==> tail[0] == SPACE,
    ensures
        message::structured_len(rest)->Ok_0 <= rest.len(),
        message::structured_len(rest + tail) == message::structured_len(rest),
{
    lemma_elements_within(rest);
    assert((rest + tail)[0] == rest[0]);
    if rest[0] == OPEN {
        lemma_elements_extend(rest, tail);
    }
}

/// What comes behind a message leaves its words as they are.
proof fn lemma_words_stay(fields: Seq<u8>, tail: Seq<u8>)
    requires
        message::read_words(fields, 5) is Ok,
    ensures
        message::read_words(fields + tail, 5) == Ok::<(Seq<Seq<u8>>, Seq<u8>), ProtocolError>(
            (
                message::read_words(fields, 5)->Ok_0.0,
                message::read_words(fields, 5)->Ok_0.1 + tail,
            ),
        ),
{
    let (words, rest) = message::read_words(fields, 5)->Ok_0;
    lemma_words_were(fields);
    lemma_five_apart(words, rest, tail);
    lemma_read_words(words[0], words[1], words[2], words[3], words[4], rest + tail);
    assert(seq![words[0], words[1], words[2], words[3], words[4]] =~= words);
}

/// What comes behind a message goes to its MSG.
proof fn lemma_read_longer(bytes: Seq<u8>, tail: Seq<u8>)
    requires
        message::is_message(bytes),
        after_structured(bytes).len() == 0 && tail.len() > 0 ==> tail[0] == SPACE,
    ensures
        ({
            let (header, msg) = message::read_message(bytes)->Ok_0;
            message::read_message(bytes + tail) == Ok::<(HeaderView, Seq<u8>), ProtocolError>(
                (
                    header,
                    if after_structured(bytes).len() > 0 {
                        msg + tail
                    } else if tail.len() > 0 {
                        tail.skip(1)
                    } else {
                        tail
                    },
                ),
            )
        }),
{
    let fields = after_version(bytes);
    lemma_message_was(bytes);
    let rest = message::read_words(fields, 5)->Ok_0.1;
    let len = message::structured_len(rest)->Ok_0;
    let after = rest.skip(len as int);
    lemma_opening_stays(bytes, tail);
    lemma_words_stay(fields, tail);
    lemma_elements_within(rest);
    lemma_structured_stays(rest, tail);
    assert((rest + tail).take(len as int) =~= rest.take(len as int));
    assert((rest + tail).skip(len as int) =~= after + tail);
    if after.len() > 0 {
        assert((after + tail).skip(1) =~= after.skip(1) + tail);
    } else {
        assert(after + tail =~= tail);
    }
}

/// Bytes behind MSG are more of MSG, and change nothing else.
pub proof fn law_more_is_more_msg(bytes: Seq<u8>, more: Seq<u8>)
    requires
        message::is_message(bytes),
        message::read_message(bytes)->Ok_0.1.len() > 0 || bytes.last() == SPACE,
    ensures
        message::read_message(bytes + more) == Ok::<(HeaderView, Seq<u8>), ProtocolError>(
            (
                message::read_message(bytes)->Ok_0.0,
                message::read_message(bytes)->Ok_0.1 + more,
            ),
        ),
{
    lemma_something_follows(bytes);
    lemma_read_longer(bytes, more);
}

/// A message without MSG takes one behind a space, and nothing else changes.
pub proof fn law_msg_goes_behind_a_space(bytes: Seq<u8>, msg: Seq<u8>)
    requires
        message::is_message(bytes),
        message::read_message(bytes)->Ok_0.1.len() == 0,
        bytes.last() != SPACE,
    ensures
        message::read_message(bytes + (seq![SPACE] + msg)) == Ok::<
            (HeaderView, Seq<u8>),
            ProtocolError,
        >((message::read_message(bytes)->Ok_0.0, msg)),
{
    lemma_something_follows(bytes);
    lemma_read_longer(bytes, seq![SPACE] + msg);
    assert((seq![SPACE] + msg).skip(1) =~= msg);
}

/// A node can be named in a header: its facility fits PRI, and its names hold
/// no space.
pub open spec fn can_be_named(node: Settings) -> bool {
    &&& node.facility <= 23
    &&& !node.hostname.contains(' ')
    &&& !node.app_name.contains(' ')
}

/// The header of a node that can be named keeps its shape.
proof fn lemma_node_header(node: Settings, timestamp: Seq<char>)
    requires
        can_be_named(node),
        calendar::is_timestamp(timestamp),
    ensures
        keeps_its_shape(node.header(timestamp)),
{
    calendar::law_timestamp_is_a_word(timestamp);
    reveal_strlit("-");
    let dash = seq![DASH];
    text::lemma_ascii_text(dash);
    assert("-"@ =~= Seq::new(dash.len(), |i: int| dash[i] as char));
    assert(is_word("-"@));
}

/// A facility that does not fit PRI makes no message: what such a node wraps is
/// refused.
pub proof fn law_unfit_facility_is_refused(
    node: Settings,
    timestamp: Seq<char>,
    payload: Seq<u8>,
)
    requires
        node.facility > 23,
        !message::is_message(payload),
    ensures
        !message::is_message(node.composed(timestamp, payload)),
{
    let header = node.header(timestamp);
    let after = if payload.len() == 0 {
        Seq::<u8>::empty()
    } else {
        seq![SPACE] + payload
    };
    lemma_written_bytes(header, after);
    let priority = header.priority();
    let digits = encode_utf8(text::decimal(priority));
    let rest = seq![ONE, SPACE] + fields_bytes(header, after);
    let bytes = node.composed(timestamp, payload);
    let inner = digits + (seq![GREATER] + rest);
    lemma_digits_bytes(priority);
    lemma_first(digits, GREATER, rest);
    assert((seq![LESS] + inner).skip(1) =~= inner);
    assert(bytes.skip(1) == inner);
    assert(message::read_priority(bytes) is Err);
}

/// A payload that is no message is wrapped: what is sent is a message, its
/// header names the node, and its MSG is the payload.
pub proof fn law_payload_is_wrapped(node: Settings, timestamp: Seq<char>, payload: Seq<u8>)
    requires
        can_be_named(node),
        calendar::is_timestamp(timestamp),
        !message::is_message(payload),
    ensures
        message::read_message(node.composed(timestamp, payload)) == Ok::<
            (HeaderView, Seq<u8>),
            ProtocolError,
        >((masked(node.header(timestamp)), payload)),
{
    lemma_node_header(node, timestamp);
    law_written_is_read(node.header(timestamp), payload);
}

/// What a node that can be named sends is a message, and so is a message that
/// any node sends. Sending it on changes nothing, whichever node does so.
pub proof fn law_composed_is_final(
    node: Settings,
    timestamp: Seq<char>,
    payload: Seq<u8>,
    other: Settings,
    later: Seq<char>,
)
    requires
        !message::is_message(payload) ==> can_be_named(node) && calendar::is_timestamp(timestamp),
    ensures
        message::is_message(node.composed(timestamp, payload)),
        other.composed(later, node.composed(timestamp, payload)) == node.composed(
            timestamp,
            payload,
        ),
{
    if !message::is_message(payload) {
        law_payload_is_wrapped(node, timestamp, payload);
    }
}

/// A datagram carries the payload, and the header is the origin: what one node
/// wraps arrives as the payload, from an origin that names the node.
pub proof fn law_datagram_carries_the_payload(
    node: Settings,
    timestamp: Seq<char>,
    payload: Seq<u8>,
    peer: Seq<char>,
)
    requires
        can_be_named(node),
        calendar::is_timestamp(timestamp),
        !message::is_message(payload),
    ensures
        arrival::arrival(peer, node.composed(timestamp, payload)) == Ok::<
            ArrivedView,
            ProtocolError,
        >(
            ArrivedView {
                origin_uri: arrival::origin(peer, masked(node.header(timestamp))),
                bytes: payload,
            },
        ),
{
    law_payload_is_wrapped(node, timestamp, payload);
}

} // verus!
