//! Cutting up and comparing text, over sequences of characters.
use vstd::prelude::*;
use vstd::string::*;
use vstd::utf8::*;

verus! {

/// The characters that carry the Unicode property `White_Space`.
pub open spec fn is_white_space(c: char) -> bool {
    ||| '\u{9}' <= c <= '\u{d}'
    ||| c == ' '
    ||| c == '\u{85}'
    ||| c == '\u{a0}'
    ||| c == '\u{1680}'
    ||| '\u{2000}' <= c <= '\u{200a}'
    ||| c == '\u{2028}'
    ||| c == '\u{2029}'
    ||| c == '\u{202f}'
    ||| c == '\u{205f}'
    ||| c == '\u{3000}'
}

/// The ASCII characters that separate the fields of a packet.
pub open spec fn is_ascii_space(c: char) -> bool {
    c == ' ' || c == '\t' || c == '\n' || c == '\u{c}' || c == '\r'
}

/// `text` without the white space it begins with.
pub open spec fn trim_start(text: Seq<char>) -> Seq<char>
    decreases text.len(),
{
    if text.len() > 0 && is_white_space(text[0]) {
        trim_start(text.drop_first())
    } else {
        text
    }
}

/// `text` without the white space it ends with.
pub open spec fn trim_end(text: Seq<char>) -> Seq<char>
    decreases text.len(),
{
    if text.len() > 0 && is_white_space(text.last()) {
        trim_end(text.drop_last())
    } else {
        text
    }
}

/// `text` without the white space at either end.
pub open spec fn trimmed(text: Seq<char>) -> Seq<char> {
    trim_end(trim_start(text))
}

/// The index of the first `separator` in `text`, or the length of `text`
/// where there is none.
pub open spec fn position(text: Seq<char>, separator: char) -> nat
    decreases text.len(),
{
    if text.len() == 0 || text[0] == separator {
        0
    } else {
        1 + position(text.drop_first(), separator)
    }
}

/// The pieces of `text` between the occurrences of `separator`.
pub open spec fn pieces(text: Seq<char>, separator: char) -> Seq<Seq<char>>
    decreases text.len(),
{
    let cut = position(text, separator) as int;
    if 0 <= cut < text.len() {
        seq![text.take(cut)] + pieces(text.skip(cut + 1), separator)
    } else {
        seq![text]
    }
}

/// What stands before and after the first `separator`.
pub open spec fn cut_once(text: Seq<char>, separator: char) -> Option<(Seq<char>, Seq<char>)> {
    let cut = position(text, separator) as int;
    if cut < text.len() {
        Some((text.take(cut), text.skip(cut + 1)))
    } else {
        None
    }
}

/// The index of the first carriage return that a line feed follows, or the
/// length of `text` where there is none.
pub open spec fn line_end(text: Seq<char>) -> nat
    decreases text.len(),
{
    if text.len() == 0 || (text.len() >= 2 && text[0] == '\r' && text[1] == '\n') {
        0
    } else {
        1 + line_end(text.drop_first())
    }
}

/// The pieces of `text` between its CR LF pairs.
pub open spec fn crlf_lines(text: Seq<char>) -> Seq<Seq<char>>
    decreases text.len(),
{
    let cut = line_end(text) as int;
    if 0 <= cut && cut + 1 < text.len() {
        seq![text.take(cut)] + crlf_lines(text.skip(cut + 2))
    } else {
        seq![text]
    }
}

/// How many characters stand before the first ASCII space.
pub open spec fn word_len(text: Seq<char>) -> nat
    decreases text.len(),
{
    if text.len() == 0 || is_ascii_space(text[0]) {
        0
    } else {
        1 + word_len(text.drop_first())
    }
}

/// The non-empty runs of characters between ASCII spaces.
pub open spec fn words(text: Seq<char>) -> Seq<Seq<char>>
    decreases text.len(),
{
    if text.len() == 0 {
        seq![]
    } else if is_ascii_space(text[0]) {
        words(text.drop_first())
    } else {
        let end = word_len(text) as int;
        if 0 < end <= text.len() {
            seq![text.take(end)] + words(text.skip(end))
        } else {
            seq![]
        }
    }
}

/// `c` with an ASCII upper case letter made lower case.
pub open spec fn ascii_lower(c: char) -> char {
    if 'A' <= c <= 'Z' {
        (c as u32 + 32) as char
    } else {
        c
    }
}

/// Whether two texts are equal but for the case of ASCII letters.
pub open spec fn same_ignoring_ascii_case(left: Seq<char>, right: Seq<char>) -> bool {
    &&& left.len() == right.len()
    &&& forall|i: int| 0 <= i < left.len() ==> ascii_lower(#[trigger] left[i]) == ascii_lower(right[i])
}

/// The texts that a list of string slices holds.
pub open spec fn texts(list: Seq<&str>) -> Seq<Seq<char>> {
    list.map_values(|item: &str| item@)
}

/// The first separator is found at `cut` when none stands before it.
pub proof fn lemma_position_is(text: Seq<char>, separator: char, cut: int)
    requires
        0 <= cut <= text.len(),
        cut < text.len() ==> text[cut] == separator,
        forall|i: int| 0 <= i < cut ==> text[i] != separator,
    ensures
        position(text, separator) == cut,
    decreases text.len(),
{
    if cut > 0 {
        let rest = text.drop_first();
        assert forall|i: int| 0 <= i < cut - 1 implies rest[i] != separator by {
            assert(rest[i] == text[i + 1]);
        }
        lemma_position_is(rest, separator, cut - 1);
    }
}

/// The first CR LF pair is found at `cut` when none stands before it.
pub proof fn lemma_line_end_is(text: Seq<char>, cut: int)
    requires
        0 <= cut <= text.len(),
        cut < text.len() ==> cut + 1 < text.len() && text[cut] == '\r' && text[cut + 1] == '\n',
        forall|i: int| 0 <= i < cut && i + 1 < text.len() ==> !(#[trigger] text[i] == '\r' && text[i + 1] == '\n'),
    ensures
        line_end(text) == cut,
    decreases text.len(),
{
    if cut > 0 {
        let rest = text.drop_first();
        assert forall|i: int| 0 <= i < cut - 1 && i + 1 < rest.len() implies !(#[trigger] rest[i] == '\r'
            && rest[i + 1] == '\n') by {
            assert(rest[i] == text[i + 1]);
        }
        if text.len() >= 2 {
            assert(!(text[0] == '\r' && text[1] == '\n'));
        }
        lemma_line_end_is(rest, cut - 1);
    }
}

/// The first word ends at `end` when a space stands there and none before it.
pub proof fn lemma_word_len_is(text: Seq<char>, end: int)
    requires
        0 <= end <= text.len(),
        end < text.len() ==> is_ascii_space(text[end]),
        forall|i: int| 0 <= i < end ==> !is_ascii_space(text[i]),
    ensures
        word_len(text) == end,
    decreases text.len(),
{
    if end > 0 {
        let rest = text.drop_first();
        assert forall|i: int| 0 <= i < end - 1 implies !is_ascii_space(rest[i]) by {
            assert(rest[i] == text[i + 1]);
        }
        lemma_word_len_is(rest, end - 1);
    }
}

/// Whether `text` is a word: not empty, and without ASCII spaces.
pub open spec fn is_word(text: Seq<char>) -> bool {
    &&& text.len() > 0
    &&& forall|i: int| 0 <= i < text.len() ==> !is_ascii_space(#[trigger] text[i])
}

/// A word that a space follows is the first of the words.
pub proof fn lemma_words_step(word: Seq<char>, space: char, rest: Seq<char>)
    requires
        is_word(word),
        is_ascii_space(space),
    ensures
        words(word + seq![space] + rest) == seq![word] + words(rest),
{
    let whole = word + seq![space] + rest;
    let end = word.len() as int;
    assert(whole[end] == space);
    assert forall|i: int| 0 <= i < end implies !is_ascii_space(whole[i]) by {
        assert(whole[i] == word[i]);
    }
    lemma_word_len_is(whole, end);
    assert(whole.take(end) =~= word);
    let tail = whole.skip(end);
    assert(tail[0] == space);
    assert(tail.drop_first() =~= rest);
    assert(words(tail) == words(rest));
    assert(!is_ascii_space(whole[0]));
    assert(words(whole) == seq![whole.take(end)] + words(tail));
}

/// A piece that a separator follows is the first of the pieces.
pub proof fn lemma_pieces_step(piece: Seq<char>, separator: char, rest: Seq<char>)
    requires
        !piece.contains(separator),
    ensures
        pieces(piece + seq![separator] + rest, separator) == seq![piece] + pieces(rest, separator),
        cut_once(piece + seq![separator] + rest, separator) == Some((piece, rest)),
{
    let whole = piece + seq![separator] + rest;
    let cut = piece.len() as int;
    assert forall|i: int| 0 <= i < cut implies whole[i] != separator by {
        assert(whole[i] == piece[i]);
    }
    lemma_position_is(whole, separator, cut);
    assert(whole.take(cut) =~= piece);
    assert(whole.skip(cut + 1) =~= rest);
}

/// A text without the separator is one piece.
pub proof fn lemma_pieces_last(text: Seq<char>, separator: char)
    requires
        !text.contains(separator),
    ensures
        pieces(text, separator) == seq![text],
{
    assert forall|i: int| 0 <= i < text.len() implies text[i] != separator by {
        assert(text.contains(text[i]));
    }
    lemma_position_is(text, separator, text.len() as int);
}

/// The texts in a row, with a separator between each two.
pub open spec fn joined(list: Seq<Seq<char>>, separator: char) -> Seq<char>
    decreases list.len(),
{
    if list.len() == 0 {
        seq![]
    } else if list.len() == 1 {
        list[0]
    } else {
        list[0] + seq![separator] + joined(list.drop_first(), separator)
    }
}

/// Texts that were joined by a separator which none of them holds are the
/// pieces of the whole.
pub proof fn law_pieces_are_what_was_joined(list: Seq<Seq<char>>, separator: char)
    requires
        list.len() > 0,
        forall|i: int| 0 <= i < list.len() ==> !(#[trigger] list[i]).contains(separator),
    ensures
        pieces(joined(list, separator), separator) == list,
    decreases list.len(),
{
    assert(!list[0].contains(separator));
    if list.len() == 1 {
        lemma_pieces_last(list[0], separator);
        assert(list =~= seq![list[0]]);
    } else {
        let rest = list.drop_first();
        assert forall|i: int| 0 <= i < rest.len() implies !(#[trigger] rest[i]).contains(separator) by {
            assert(rest[i] == list[i + 1]);
        }
        law_pieces_are_what_was_joined(rest, separator);
        lemma_pieces_step(list[0], separator, joined(rest, separator));
        assert(list =~= seq![list[0]] + rest);
    }
}

/// The pieces of a text make up the text again, and none holds the separator.
pub proof fn law_pieces_make_up_the_text(text: Seq<char>, separator: char)
    ensures
        pieces(text, separator).len() > 0,
        joined(pieces(text, separator), separator) == text,
        forall|i: int|
            0 <= i < pieces(text, separator).len() ==> !(#[trigger] pieces(text, separator)[i]).contains(
                separator,
            ),
    decreases text.len(),
{
    lemma_position_splits(text, separator);
    let cut = position(text, separator) as int;
    let list = pieces(text, separator);
    if cut < text.len() {
        let rest = text.skip(cut + 1);
        law_pieces_make_up_the_text(rest, separator);
        assert(list.drop_first() =~= pieces(rest, separator));
        assert(list[0] == text.take(cut));
        assert(joined(list, separator) =~= text);
        assert forall|i: int| 0 <= i < list.len() implies !(#[trigger] list[i]).contains(separator) by {
            if i > 0 {
                assert(list[i] == pieces(rest, separator)[i - 1]);
            }
        }
    } else {
        assert(text.take(cut) =~= text);
    }
}

proof fn lemma_position_splits(text: Seq<char>, separator: char)
    ensures
        position(text, separator) <= text.len(),
        position(text, separator) < text.len() ==> text[position(text, separator) as int] == separator,
        !text.take(position(text, separator) as int).contains(separator),
    decreases text.len(),
{
    if text.len() > 0 && text[0] != separator {
        let rest = text.drop_first();
        lemma_position_splits(rest, separator);
        let cut = position(text, separator) as int;
        let front = text.take(cut);
        assert forall|i: int| 0 <= i < front.len() implies front[i] != separator by {
            if i > 0 {
                assert(front[i] == rest.take(cut - 1)[i - 1]);
                assert(rest.take(cut - 1).contains(rest.take(cut - 1)[i - 1]));
            }
        }
    }
}

/// Whether a text is white space throughout.
pub open spec fn is_blank(text: Seq<char>) -> bool {
    forall|i: int| 0 <= i < text.len() ==> is_white_space(#[trigger] text[i])
}

/// What is left of a text after its white space at the front: nothing, or what
/// begins with another character.
proof fn lemma_trim_start_begins(text: Seq<char>)
    ensures
        trim_start(text).len() <= text.len(),
        trim_start(text).len() > 0 ==> !is_white_space(trim_start(text)[0]),
        trim_start(text) == text.skip(text.len() - trim_start(text).len()),
    decreases text.len(),
{
    if text.len() > 0 && is_white_space(text[0]) {
        let rest = text.drop_first();
        lemma_trim_start_begins(rest);
        assert(rest.skip(rest.len() - trim_start(rest).len()) =~= text.skip(
            text.len() - trim_start(rest).len(),
        ));
    } else {
        assert(text.skip(0) =~= text);
    }
}

/// White space in front of a text is trimmed with what the text begins with.
proof fn lemma_trim_start_padded(pad: Seq<char>, text: Seq<char>)
    requires
        is_blank(pad),
    ensures
        trim_start(pad + text) == trim_start(text),
    decreases pad.len(),
{
    if pad.len() == 0 {
        assert(pad + text =~= text);
    } else {
        assert(is_white_space(pad[0]));
        assert((pad + text)[0] == pad[0]);
        assert((pad + text).drop_first() =~= pad.drop_first() + text);
        assert(is_blank(pad.drop_first()));
        lemma_trim_start_padded(pad.drop_first(), text);
    }
}

/// White space behind a text is trimmed with what the text ends with.
proof fn lemma_trim_end_padded(text: Seq<char>, pad: Seq<char>)
    requires
        is_blank(pad),
    ensures
        trim_end(text + pad) == trim_end(text),
    decreases pad.len(),
{
    if pad.len() == 0 {
        assert(text + pad =~= text);
    } else {
        assert(is_white_space(pad.last()));
        assert((text + pad).last() == pad.last());
        assert((text + pad).drop_last() =~= text + pad.drop_last());
        assert(is_blank(pad.drop_last()));
        lemma_trim_end_padded(text, pad.drop_last());
    }
}

/// Trimming stops at a character that is not white space.
pub proof fn lemma_trimmed_around(front: Seq<char>, c: char, behind: Seq<char>)
    requires
        !is_white_space(c),
    ensures
        trimmed(front + seq![c] + behind) == trim_start(front) + seq![c] + trim_end(behind),
{
    lemma_trim_start_before(front, c, behind);
    lemma_trim_end_behind(trim_start(front), c, behind);
}

proof fn lemma_trim_start_before(front: Seq<char>, c: char, behind: Seq<char>)
    requires
        !is_white_space(c),
    ensures
        trim_start(front + seq![c] + behind) == trim_start(front) + seq![c] + behind,
    decreases front.len(),
{
    let whole = front + seq![c] + behind;
    if front.len() > 0 {
        assert(whole[0] == front[0]);
        assert(whole.drop_first() =~= front.drop_first() + seq![c] + behind);
        if is_white_space(front[0]) {
            lemma_trim_start_before(front.drop_first(), c, behind);
        }
    } else {
        assert(whole[0] == c);
    }
}

proof fn lemma_trim_end_behind(front: Seq<char>, c: char, behind: Seq<char>)
    requires
        !is_white_space(c),
    ensures
        trim_end(front + seq![c] + behind) == front + seq![c] + trim_end(behind),
    decreases behind.len(),
{
    let whole = front + seq![c] + behind;
    if behind.len() > 0 {
        assert(whole.last() == behind.last());
        assert(whole.drop_last() =~= front + seq![c] + behind.drop_last());
        if is_white_space(behind.last()) {
            lemma_trim_end_behind(front, c, behind.drop_last());
        }
    } else {
        assert(whole.last() == c);
        assert(whole =~= front + seq![c] + trim_end(behind));
    }
}

proof fn lemma_trim_end_front(c: char, rest: Seq<char>)
    ensures
        trim_end(seq![c] + rest) == if trim_end(rest).len() > 0 || !is_white_space(c) {
            seq![c] + trim_end(rest)
        } else {
            seq![]
        },
    decreases rest.len(),
{
    let whole = seq![c] + rest;
    if rest.len() == 0 {
        assert(whole =~= seq![c]);
        assert(whole.last() == c);
        assert(whole.drop_last() =~= seq![]);
        assert(trim_end(Seq::<char>::empty()) == Seq::<char>::empty());
        assert(seq![c] + trim_end(rest) =~= whole);
    } else {
        assert(whole.last() == rest.last());
        assert(whole.drop_last() =~= seq![c] + rest.drop_last());
        if is_white_space(rest.last()) {
            lemma_trim_end_front(c, rest.drop_last());
        }
    }
}

/// It does not matter at which end a text is trimmed first.
proof fn lemma_trims_commute(text: Seq<char>)
    ensures
        trim_start(trim_end(text)) == trimmed(text),
    decreases text.len(),
{
    if text.len() > 0 {
        let c = text[0];
        let rest = text.drop_first();
        assert(text =~= seq![c] + rest);
        lemma_trim_end_front(c, rest);
        let ended = trim_end(text);
        if is_white_space(c) {
            lemma_trims_commute(rest);
            if trim_end(rest).len() > 0 {
                assert(ended[0] == c);
                assert(ended.drop_first() =~= trim_end(rest));
            } else {
                assert(trim_end(rest) =~= seq![]);
                assert(trim_start(Seq::<char>::empty()) == Seq::<char>::empty());
            }
        } else {
            assert(ended[0] == c);
        }
    }
}

/// White space round a text does not count where the text is trimmed.
pub proof fn lemma_trimmed_padded(front: Seq<char>, text: Seq<char>, behind: Seq<char>)
    requires
        is_blank(front),
        is_blank(behind),
    ensures
        trimmed(front + text + behind) == trimmed(text),
{
    assert(front + text + behind =~= front + (text + behind));
    lemma_trim_start_padded(front, text + behind);
    lemma_trims_commute(text + behind);
    lemma_trim_end_padded(text, behind);
    lemma_trims_commute(text);
}

/// A text that was trimmed at one end already is trimmed the same.
pub proof fn lemma_trimmed_again(text: Seq<char>)
    ensures
        trimmed(trim_start(text)) == trimmed(text),
        trimmed(trim_end(text)) == trimmed(text),
        trim_start(text).len() > 0 ==> trimmed(text).len() > 0 && trimmed(text)[0] == trim_start(text)[0],
        trim_start(text).len() == 0 ==> trimmed(text).len() == 0,
        forall|c: char| trim_start(text).contains(c) ==> text.contains(c),
{
    let started = trim_start(text);
    lemma_trim_start_begins(text);
    assert(trim_start(started) == started);
    if started.len() > 0 {
        let rest = started.drop_first();
        assert(started =~= seq![started[0]] + rest);
        lemma_trim_end_front(started[0], rest);
    }
    assert forall|c: char| started.contains(c) implies text.contains(c) by {
        let i = choose|i: int| 0 <= i < started.len() && started[i] == c;
        assert(text[text.len() - started.len() + i] == c);
    }
    lemma_trim_end_again(text);
    lemma_trims_commute(text);
    lemma_trims_commute(trim_end(text));
}

/// Trimming at the end brings no new character.
pub proof fn lemma_trim_end_keeps(text: Seq<char>)
    ensures
        forall|c: char| trim_end(text).contains(c) ==> text.contains(c),
    decreases text.len(),
{
    if text.len() > 0 && is_white_space(text.last()) {
        let rest = text.drop_last();
        lemma_trim_end_keeps(rest);
        assert forall|c: char| trim_end(text).contains(c) implies text.contains(c) by {
            assert(trim_end(rest).contains(c) && rest.contains(c));
            let i = choose|i: int| 0 <= i < rest.len() && rest[i] == c;
            assert(text[i] == c);
        }
    }
}

proof fn lemma_trim_end_again(text: Seq<char>)
    ensures
        trim_end(trim_end(text)) == trim_end(text),
    decreases text.len(),
{
    if text.len() > 0 && is_white_space(text.last()) {
        lemma_trim_end_again(text.drop_last());
    }
}

/// Two texts with the same UTF-8 encoding are the same text.
pub proof fn lemma_same_encoding(left: Seq<char>, right: Seq<char>)
    requires
        encode_utf8(left) == encode_utf8(right),
    ensures
        left == right,
{
    encode_utf8_decode_utf8(left);
    encode_utf8_decode_utf8(right);
}

/// The characters of `text`, in order.
pub fn chars_of(text: &str) -> (chars: Vec<char>)
    ensures
        chars@ == text@,
{
    let mut chars: Vec<char> = Vec::new();
    for c in iter: text.chars()
        invariant
            chars@ =~= iter.seq().take(iter.index() as int),
            iter.seq() == text@,
    {
        chars.push(c);
    }
    chars
}

/// Whether two byte strings are equal.
pub fn same_bytes(left: &[u8], right: &[u8]) -> (same: bool)
    ensures
        same == (left@ == right@),
{
    if left.len() != right.len() {
        return false;
    }
    let mut i: usize = 0;
    while i < left.len()
        invariant
            i <= left.len(),
            left.len() == right.len(),
            left@.take(i as int) =~= right@.take(i as int),
        decreases left.len() - i,
    {
        if left[i] != right[i] {
            return false;
        }
        i += 1;
    }
    assert(left@.take(i as int) =~= left@);
    assert(right@.take(i as int) =~= right@);
    true
}

/// Whether two texts are equal.
pub fn same_text(left: &str, right: &str) -> (same: bool)
    ensures
        same == (left@ == right@),
{
    let same = same_bytes(left.as_bytes(), right.as_bytes());
    proof {
        if same {
            lemma_same_encoding(left@, right@);
        }
    }
    same
}

/// Whether `wanted` is one of the texts in `list`.
pub fn contains_text(list: &Vec<&str>, wanted: &str) -> (found: bool)
    ensures
        found == texts(list@).contains(wanted@),
{
    let mut i: usize = 0;
    while i < list.len()
        invariant
            i <= list.len(),
            forall|j: int| 0 <= j < i ==> texts(list@)[j] != wanted@,
        decreases list.len() - i,
    {
        if same_text(list[i], wanted) {
            assert(texts(list@)[i as int] == wanted@);
            return true;
        }
        i += 1;
    }
    false
}

/// Whether `text` begins with `prefix`.
pub fn starts_with(text: &str, prefix: &str) -> (result: bool)
    ensures
        result == prefix@.is_prefix_of(text@),
{
    let chars = chars_of(text);
    let wanted = chars_of(prefix);
    if wanted.len() > chars.len() {
        return false;
    }
    let mut i: usize = 0;
    while i < wanted.len()
        invariant
            i <= wanted.len() <= chars.len(),
            chars@ == text@,
            wanted@ == prefix@,
            wanted@.take(i as int) =~= chars@.take(i as int),
        decreases wanted.len() - i,
    {
        if wanted[i] != chars[i] {
            assert(chars@.take(wanted.len() as int)[i as int] == chars@[i as int]);
            return false;
        }
        i += 1;
    }
    assert(wanted@.take(i as int) =~= wanted@);
    true
}

/// Whether `text` ends with `suffix`.
pub fn ends_with(text: &str, suffix: &str) -> (result: bool)
    ensures
        result == suffix@.is_suffix_of(text@),
{
    let chars = chars_of(text);
    let wanted = chars_of(suffix);
    if wanted.len() > chars.len() {
        return false;
    }
    let base: usize = chars.len() - wanted.len();
    let mut i: usize = 0;
    while i < wanted.len()
        invariant
            i <= wanted.len(),
            base + wanted.len() == chars.len(),
            chars@ == text@,
            wanted@ == suffix@,
            forall|j: int| 0 <= j < i ==> wanted@[j] == chars@[base + j],
        decreases wanted.len() - i,
    {
        if wanted[i] != chars[base + i] {
            assert(chars@.subrange(base as int, chars.len() as int)[i as int] == chars@[base + i]);
            return false;
        }
        i += 1;
    }
    assert(wanted@ =~= chars@.subrange(base as int, chars.len() as int));
    true
}

/// Whether `c` is white space, by the Unicode property.
pub fn white_space(c: char) -> (result: bool)
    ensures
        result == is_white_space(c),
{
    ('\u{9}' <= c && c <= '\u{d}') || c == ' ' || c == '\u{85}' || c == '\u{a0}' || c == '\u{1680}' || (
    '\u{2000}' <= c && c <= '\u{200a}') || c == '\u{2028}' || c == '\u{2029}' || c == '\u{202f}' || c
        == '\u{205f}' || c == '\u{3000}'
}

/// Whether `c` separates the fields of a packet.
pub fn ascii_space(c: char) -> (result: bool)
    ensures
        result == is_ascii_space(c),
{
    c == ' ' || c == '\t' || c == '\n' || c == '\u{c}' || c == '\r'
}

/// `text` without the white space at either end.
pub fn trim<'a>(text: &'a str) -> (result: &'a str)
    ensures
        result@ == trimmed(text@),
{
    let chars = chars_of(text);
    let mut from: usize = 0;
    assert(chars@.skip(0) =~= chars@);
    while from < chars.len() && white_space(chars[from])
        invariant
            from <= chars.len(),
            chars@ == text@,
            trim_start(chars@.skip(from as int)) == trim_start(chars@),
        decreases chars.len() - from,
    {
        assert(chars@.skip(from as int).drop_first() =~= chars@.skip(from + 1));
        from += 1;
    }
    assert(trim_start(chars@) == chars@.skip(from as int));
    let mut to: usize = chars.len();
    assert(chars@.subrange(from as int, to as int) =~= chars@.skip(from as int));
    while to > from && white_space(chars[to - 1])
        invariant
            from <= to <= chars.len(),
            chars@ == text@,
            trim_end(chars@.subrange(from as int, to as int)) == trimmed(chars@),
        decreases to - from,
    {
        assert(chars@.subrange(from as int, to as int).drop_last() =~= chars@.subrange(
            from as int,
            to - 1,
        ));
        to -= 1;
    }
    text.substring_char(from, to)
}

/// The index of the first `separator`, or the number of characters where
/// there is none.
fn find_char(chars: &Vec<char>, from: usize, separator: char) -> (cut: usize)
    requires
        from <= chars.len(),
    ensures
        from <= cut <= chars.len(),
        cut - from == position(chars@.skip(from as int), separator),
{
    let mut cut: usize = from;
    while cut < chars.len() && chars[cut] != separator
        invariant
            from <= cut <= chars.len(),
            forall|i: int| from <= i < cut ==> chars@[i] != separator,
        decreases chars.len() - cut,
    {
        cut += 1;
    }
    proof {
        lemma_position_is(chars@.skip(from as int), separator, cut - from);
    }
    cut
}

/// The pieces of `text` between the occurrences of `separator`.
pub fn split<'a>(text: &'a str, separator: char) -> (list: Vec<&'a str>)
    ensures
        texts(list@) == pieces(text@, separator),
{
    let chars = chars_of(text);
    let mut list: Vec<&'a str> = Vec::new();
    let mut from: usize = 0;
    assert(chars@.skip(0) =~= chars@);
    assert(texts(list@) + pieces(chars@, separator) =~= pieces(chars@, separator));
    loop
        invariant
            from <= chars.len(),
            chars@ == text@,
            texts(list@) + pieces(chars@.skip(from as int), separator) == pieces(text@, separator),
        decreases chars.len() - from,
    {
        let cut: usize = find_char(&chars, from, separator);
        let ghost before = texts(list@);
        let ghost rest = chars@.skip(from as int);
        list.push(text.substring_char(from, cut));
        assert(texts(list@) =~= before.push(chars@.subrange(from as int, cut as int)));
        assert(rest.take(cut - from) =~= chars@.subrange(from as int, cut as int));
        if cut == chars.len() {
            assert(rest =~= rest.take(cut - from));
            assert(texts(list@) =~= pieces(text@, separator));
            return list;
        }
        assert(rest.skip(cut - from + 1) =~= chars@.skip(cut + 1));
        assert(texts(list@) + pieces(chars@.skip(cut + 1), separator) =~= before + pieces(rest, separator));
        from = cut + 1;
    }
}

/// What stands before and after the first `separator`.
pub fn split_once<'a>(text: &'a str, separator: char) -> (parts: Option<(&'a str, &'a str)>)
    ensures
        parts is Some <==> cut_once(text@, separator) is Some,
        parts matches Some(p) ==> cut_once(text@, separator) == Some((p.0@, p.1@)),
{
    let chars = chars_of(text);
    assert(chars@.skip(0) =~= chars@);
    let cut: usize = find_char(&chars, 0, separator);
    if cut == chars.len() {
        return None;
    }
    let before = text.substring_char(0, cut);
    let after = text.substring_char(cut + 1, chars.len());
    assert(before@ =~= text@.take(cut as int));
    assert(after@ =~= text@.skip(cut + 1));
    Some((before, after))
}

/// The pieces of `text` between its CR LF pairs.
pub fn split_crlf<'a>(text: &'a str) -> (list: Vec<&'a str>)
    ensures
        texts(list@) == crlf_lines(text@),
{
    let chars = chars_of(text);
    let mut list: Vec<&'a str> = Vec::new();
    let mut from: usize = 0;
    assert(chars@.skip(0) =~= chars@);
    assert(texts(list@) + crlf_lines(chars@) =~= crlf_lines(chars@));
    loop
        invariant
            from <= chars.len(),
            chars@ == text@,
            texts(list@) + crlf_lines(chars@.skip(from as int)) == crlf_lines(text@),
        decreases chars.len() - from,
    {
        let ghost rest = chars@.skip(from as int);
        let mut cut: usize = from;
        while cut < chars.len() && !(chars[cut] == '\r' && cut + 1 < chars.len() && chars[cut + 1] == '\n')
            invariant
                from <= cut <= chars.len(),
                forall|i: int|
                    from <= i < cut && i + 1 < chars.len() ==> !(#[trigger] chars@[i] == '\r' && chars@[i + 1]
                        == '\n'),
            decreases chars.len() - cut,
        {
            cut += 1;
        }
        proof {
            assert forall|i: int| 0 <= i < cut - from && i + 1 < rest.len() implies !(#[trigger] rest[i] == '\r'
                && rest[i + 1] == '\n') by {
                assert(rest[i] == chars@[from + i]);
            }
            lemma_line_end_is(rest, cut - from);
        }
        let ghost before = texts(list@);
        list.push(text.substring_char(from, cut));
        assert(texts(list@) =~= before.push(chars@.subrange(from as int, cut as int)));
        assert(rest.take(cut - from) =~= chars@.subrange(from as int, cut as int));
        if cut == chars.len() {
            assert(rest =~= rest.take(cut - from));
            assert(texts(list@) =~= crlf_lines(text@));
            return list;
        }
        assert(rest.skip(cut - from + 2) =~= chars@.skip(cut + 2));
        assert(texts(list@) + crlf_lines(chars@.skip(cut + 2)) =~= before + crlf_lines(rest));
        from = cut + 2;
    }
}

/// The non-empty runs of characters between ASCII spaces.
pub fn split_words<'a>(text: &'a str) -> (list: Vec<&'a str>)
    ensures
        texts(list@) == words(text@),
{
    let chars = chars_of(text);
    let mut list: Vec<&'a str> = Vec::new();
    let mut from: usize = 0;
    assert(chars@.skip(0) =~= chars@);
    assert(texts(list@) + words(chars@) =~= words(chars@));
    while from < chars.len()
        invariant
            from <= chars.len(),
            chars@ == text@,
            texts(list@) + words(chars@.skip(from as int)) == words(text@),
        decreases chars.len() - from,
    {
        let ghost rest = chars@.skip(from as int);
        if ascii_space(chars[from]) {
            assert(rest.drop_first() =~= chars@.skip(from + 1));
            from += 1;
        } else {
            let mut end: usize = from + 1;
            while end < chars.len() && !ascii_space(chars[end])
                invariant
                    from < end <= chars.len(),
                    forall|i: int| from <= i < end ==> !is_ascii_space(chars@[i]),
                decreases chars.len() - end,
            {
                end += 1;
            }
            proof {
                lemma_word_len_is(rest, end - from);
            }
            let ghost before = texts(list@);
            list.push(text.substring_char(from, end));
            assert(texts(list@) =~= before.push(chars@.subrange(from as int, end as int)));
            assert(rest.take(end - from) =~= chars@.subrange(from as int, end as int));
            assert(rest.skip(end - from) =~= chars@.skip(end as int));
            assert(texts(list@) + words(chars@.skip(end as int)) =~= before + words(rest));
            from = end;
        }
    }
    assert(texts(list@) =~= words(text@));
    list
}

/// Whether two texts are equal but for the case of ASCII letters.
pub fn same_text_ignoring_ascii_case(left: &str, right: &str) -> (same: bool)
    ensures
        same == same_ignoring_ascii_case(left@, right@),
{
    let a = chars_of(left);
    let b = chars_of(right);
    if a.len() != b.len() {
        return false;
    }
    let mut i: usize = 0;
    while i < a.len()
        invariant
            i <= a.len(),
            a.len() == b.len(),
            a@ == left@,
            b@ == right@,
            forall|j: int| 0 <= j < i ==> ascii_lower(#[trigger] a@[j]) == ascii_lower(b@[j]),
        decreases a.len() - i,
    {
        if lower(a[i]) != lower(b[i]) {
            return false;
        }
        i += 1;
    }
    true
}

/// `c` with an ASCII upper case letter made lower case.
fn lower(c: char) -> (result: char)
    ensures
        result == ascii_lower(c),
{
    if 'A' <= c && c <= 'Z' {
        (c as u8 + 32) as char
    } else {
        c
    }
}

/// White space is what Unicode gives that property, by number.
pub proof fn law_white_space_by_number(c: char)
    ensures
        is_white_space(c) <==> {
            let n = c as u32;
            ||| 9 <= n <= 13
            ||| n == 32
            ||| n == 0x85
            ||| n == 0xa0
            ||| n == 0x1680
            ||| 0x2000 <= n <= 0x200a
            ||| n == 0x2028
            ||| n == 0x2029
            ||| n == 0x202f
            ||| n == 0x205f
            ||| n == 0x3000
        },
        is_ascii_space(c) <==> {
            let n = c as u32;
            n == 32 || n == 9 || n == 10 || n == 12 || n == 13
        },
{
}

/// A trimmed text has no white space at its ends, and only white space was
/// taken from it.
pub proof fn law_trimmed_loses_only_white_space(text: Seq<char>)
    ensures
        trimmed(text).len() > 0 ==> !is_white_space(trimmed(text)[0]) && !is_white_space(
            trimmed(text).last(),
        ),
        exists|from: int, to: int|
            0 <= from <= to <= text.len() && trimmed(text) == #[trigger] text.subrange(from, to) && is_blank(
                text.take(from),
            ) && is_blank(text.skip(to)),
{
    lemma_trim_start_begins(text);
    let started = trim_start(text);
    let from = text.len() - started.len();
    lemma_trim_start_takes_blanks(text);
    lemma_trim_end_takes_blanks(started);
    let ended = trim_end(started);
    let to = from + ended.len();
    assert(ended =~= text.subrange(from, to));
    assert(text.skip(to) =~= started.skip(ended.len() as int));
    if ended.len() > 0 {
        assert(ended[0] == started[0]);
    }
}

proof fn lemma_trim_start_takes_blanks(text: Seq<char>)
    ensures
        trim_start(text).len() <= text.len(),
        is_blank(text.take(text.len() - trim_start(text).len())),
    decreases text.len(),
{
    if text.len() > 0 && is_white_space(text[0]) {
        let rest = text.drop_first();
        lemma_trim_start_takes_blanks(rest);
        let taken = text.take(text.len() - trim_start(text).len());
        let fewer = rest.take(rest.len() - trim_start(rest).len());
        assert forall|i: int| 0 <= i < taken.len() implies is_white_space(#[trigger] taken[i]) by {
            if i > 0 {
                assert(taken[i] == fewer[i - 1]);
            }
        }
    }
}

proof fn lemma_trim_end_takes_blanks(text: Seq<char>)
    ensures
        trim_end(text).len() <= text.len(),
        trim_end(text) == text.take(trim_end(text).len() as int),
        trim_end(text).len() > 0 ==> !is_white_space(trim_end(text).last()),
        is_blank(text.skip(trim_end(text).len() as int)),
    decreases text.len(),
{
    if text.len() > 0 && is_white_space(text.last()) {
        let rest = text.drop_last();
        lemma_trim_end_takes_blanks(rest);
        let n = trim_end(text).len() as int;
        let taken = text.skip(n);
        let fewer = rest.skip(n);
        assert(rest.take(n) =~= text.take(n));
        assert forall|i: int| 0 <= i < taken.len() implies is_white_space(#[trigger] taken[i]) by {
            if i < fewer.len() {
                assert(taken[i] == fewer[i]);
            }
        }
    } else {
        assert(text.take(text.len() as int) =~= text);
    }
}

/// A text is cut at the first separator, or not at all where it holds none.
pub proof fn law_text_is_cut_at_the_first_separator(front: Seq<char>, separator: char, behind: Seq<char>)
    requires
        !front.contains(separator),
    ensures
        cut_once(front + seq![separator] + behind, separator) == Some((front, behind)),
        cut_once(front, separator) is None,
{
    lemma_pieces_step(front, separator, behind);
    assert forall|i: int| 0 <= i < front.len() implies front[i] != separator by {
        assert(front.contains(front[i]));
    }
    lemma_position_is(front, separator, front.len() as int);
}

/// Spaces in front of a text do not change its words. A word in front of a
/// space, or at the end, is the first of them, and a text of spaces has none.
pub proof fn law_words_are_found(word: Seq<char>, space: char, rest: Seq<char>)
    requires
        word.len() > 0,
        forall|i: int| 0 <= i < word.len() ==> !is_ascii_space(#[trigger] word[i]),
        is_ascii_space(space),
    ensures
        words(seq![space] + rest) == words(rest),
        words(word + seq![space] + rest) == seq![word] + words(rest),
        words(word) == seq![word],
        words(seq![]) == Seq::<Seq<char>>::empty(),
{
    let spaced = seq![space] + rest;
    assert(spaced[0] == space);
    assert(spaced.drop_first() =~= rest);
    lemma_words_step(word, space, rest);
    lemma_word_len_is(word, word.len() as int);
    assert(word.take(word.len() as int) =~= word);
    assert(word.skip(word.len() as int) =~= Seq::<char>::empty());
    assert(words(Seq::<char>::empty()) =~= Seq::<Seq<char>>::empty());
    assert(!is_ascii_space(word[0]));
    assert(words(word) =~= seq![word]);
}

/// Two texts are the same but for case where they are as long, and each two
/// characters are equal or the two cases of one ASCII letter.
pub proof fn law_case_of_ascii_letters_is_ignored(left: Seq<char>, right: Seq<char>)
    ensures
        same_ignoring_ascii_case(left, right) <==> {
            &&& left.len() == right.len()
            &&& forall|i: int|
                0 <= i < left.len() ==> {
                    let a = #[trigger] left[i] as int;
                    let b = right[i] as int;
                    ||| a == b
                    ||| 65 <= a <= 90 && b == a + 32
                    ||| 65 <= b <= 90 && a == b + 32
                }
        },
{
    if left.len() == right.len() {
        assert forall|i: int| 0 <= i < left.len() implies (ascii_lower(#[trigger] left[i]) == ascii_lower(right[i])
            <==> {
            let a = left[i] as int;
            let b = right[i] as int;
            ||| a == b
            ||| 65 <= a <= 90 && b == a + 32
            ||| 65 <= b <= 90 && a == b + 32
        }) by {
            lemma_lower(left[i]);
            lemma_lower(right[i]);
        }
    }
}

proof fn lemma_lower(c: char)
    ensures
        ascii_lower(c) as int == if 65 <= c as int <= 90 {
            c as int + 32
        } else {
            c as int
        },
{
}

/// The lines in a row, with a CR LF pair between each two.
pub open spec fn joined_lines(list: Seq<Seq<char>>) -> Seq<char>
    decreases list.len(),
{
    if list.len() == 0 {
        seq![]
    } else if list.len() == 1 {
        list[0]
    } else {
        list[0] + seq!['\r', '\n'] + joined_lines(list.drop_first())
    }
}

/// Lines without a carriage return that were joined by CR LF pairs are the lines
/// of the whole.
pub proof fn law_lines_are_what_was_joined(list: Seq<Seq<char>>)
    requires
        list.len() > 0,
        forall|i: int| 0 <= i < list.len() ==> !(#[trigger] list[i]).contains('\r'),
    ensures
        crlf_lines(joined_lines(list)) == list,
    decreases list.len(),
{
    let first = list[0];
    assert(!first.contains('\r'));
    assert forall|i: int| 0 <= i < first.len() implies first[i] != '\r' by {
        assert(first.contains(first[i]));
    }
    let whole = joined_lines(list);
    if list.len() == 1 {
        lemma_line_end_is(whole, whole.len() as int);
        assert(list =~= seq![first]);
    } else {
        let rest = list.drop_first();
        assert forall|i: int| 0 <= i < rest.len() implies !(#[trigger] rest[i]).contains('\r') by {
            assert(rest[i] == list[i + 1]);
        }
        law_lines_are_what_was_joined(rest);
        let cut = first.len() as int;
        assert(whole[cut] == '\r' && whole[cut + 1] == '\n');
        assert forall|i: int| 0 <= i < cut && i + 1 < whole.len() implies !(#[trigger] whole[i] == '\r' && whole[i
            + 1] == '\n') by {
            assert(whole[i] == first[i]);
        }
        lemma_line_end_is(whole, cut);
        assert(whole.take(cut) =~= first);
        assert(whole.skip(cut + 2) =~= joined_lines(rest));
        assert(list =~= seq![first] + rest);
    }
}

proof fn lemma_bytes_of_scalar(scalar: u32)
    by (bit_vector)
    ensures
        scalar < 0x80 ==> leading_byte_width_1(scalar) == scalar,
        leading_byte_width_2(scalar) >= 0x80,
        leading_byte_width_3(scalar) >= 0x80,
        leading_byte_width_4(scalar) >= 0x80,
        last_continuation_byte(scalar) >= 0x80,
        second_last_continuation_byte(scalar) >= 0x80,
        third_last_continuation_byte(scalar) >= 0x80,
{
}

/// Texts in a row are encoded in a row.
pub proof fn lemma_encoded_in_a_row(left: Seq<char>, right: Seq<char>)
    ensures
        encode_utf8(left + right) == encode_utf8(left) + encode_utf8(right),
    decreases left.len(),
{
    let whole = left + right;
    if left.len() == 0 {
        assert(whole =~= right);
        assert(encode_utf8(left) + encode_utf8(right) =~= encode_utf8(right));
    } else {
        let rest = left.drop_first();
        assert(whole.drop_first() =~= rest + right);
        assert(whole[0] == left[0]);
        lemma_encoded_in_a_row(rest, right);
        let first = encode_scalar(left[0] as u32);
        assert(encode_utf8(left) == first + encode_utf8(rest));
        assert(first + (encode_utf8(rest) + encode_utf8(right)) =~= encode_utf8(left) + encode_utf8(right));
    }
}

/// A text without an ASCII character has an encoding without its byte, and one
/// that is not empty has one that is not empty.
pub proof fn lemma_encoded_without(text: Seq<char>, c: char)
    requires
        !text.contains(c),
        c as int <= 0x7f,
    ensures
        forall|i: int| 0 <= i < encode_utf8(text).len() ==> #[trigger] encode_utf8(text)[i] != c as u8,
        text.len() > 0 ==> encode_utf8(text).len() > 0,
    decreases text.len(),
{
    if text.len() > 0 {
        let rest = text.drop_first();
        assert forall|i: int| 0 <= i < rest.len() implies rest[i] != c by {
            assert(text.contains(text[i + 1]));
        }
        lemma_encoded_without(rest, c);
        assert(text.contains(text[0]));
        let scalar = text[0] as u32;
        char_is_scalar(text[0]);
        char_u32_cast(text[0], scalar);
        lemma_bytes_of_scalar(scalar);
        let first = encode_scalar(scalar);
        let bytes = encode_utf8(text);
        assert(bytes == first + encode_utf8(rest));
        assert forall|i: int| 0 <= i < bytes.len() implies #[trigger] bytes[i] != c as u8 by {
            if i < first.len() {
                assert(bytes[i] == first[i]);
            } else {
                assert(bytes[i] == encode_utf8(rest)[i - first.len()]);
            }
        }
    }
}

/// The encoding of a CR LF pair.
pub proof fn lemma_encoded_line_end()
    ensures
        encode_utf8(seq!['\r', '\n']) == seq![13u8, 10u8],
{
    let pair = seq!['\r', '\n'];
    is_ascii_chars_encode_utf8(pair);
    assert(pair[0] == '\r' && pair[1] == '\n');
    assert(encode_utf8(pair) =~= seq![13u8, 10u8]);
}

/// The texts of a list are taken as they are, in their order.
pub proof fn law_texts_are_taken_as_they_are(list: Seq<&str>, i: int)
    requires
        0 <= i < list.len(),
    ensures
        texts(list).len() == list.len(),
        texts(list)[i] == list[i]@,
{
}

/// Trimming brings no new character.
pub proof fn lemma_trimmed_keeps(text: Seq<char>, c: char)
    requires
        !text.contains(c),
    ensures
        !trimmed(text).contains(c),
{
    lemma_trimmed_again(text);
    let started = trim_start(text);
    assert(!started.contains(c));
    lemma_trim_end_keeps(started);
    assert(trimmed(text).contains(c) ==> started.contains(c));
}

/// The lines of a text, with CR LF pairs between them, are the text, and none of
/// them holds such a pair.
pub proof fn law_lines_make_up_the_text(text: Seq<char>)
    ensures
        crlf_lines(text).len() > 0,
        joined_lines(crlf_lines(text)) == text,
        forall|i: int, j: int|
            0 <= i < crlf_lines(text).len() && 0 <= j < (#[trigger] crlf_lines(text)[i]).len() - 1 ==> !(
            #[trigger] crlf_lines(text)[i][j] == '\r' && crlf_lines(text)[i][j + 1] == '\n'),
    decreases text.len(),
{
    let cut = line_end(text) as int;
    lemma_line_end_splits(text);
    let lines = crlf_lines(text);
    if cut + 1 < text.len() {
        let first = text.take(cut);
        let rest = text.skip(cut + 2);
        let others = crlf_lines(rest);
        law_lines_make_up_the_text(rest);
        assert(lines == seq![first] + others);
        assert(lines.drop_first() =~= others);
        assert(joined_lines(lines) =~= text);
        assert forall|i: int, j: int| 0 <= i < lines.len() && 0 <= j < (#[trigger] lines[i]).len() - 1 implies !(
        #[trigger] lines[i][j] == '\r' && lines[i][j + 1] == '\n') by {
            if i == 0 {
                assert(lines[i][j] == text[j] && lines[i][j + 1] == text[j + 1]);
            } else {
                assert(lines[i] == others[i - 1]);
                assert(!(others[i - 1][j] == '\r' && others[i - 1][j + 1] == '\n'));
            }
        }
    } else {
        assert(lines == seq![text]);
        assert forall|i: int, j: int| 0 <= i < lines.len() && 0 <= j < (#[trigger] lines[i]).len() - 1 implies !(
        #[trigger] lines[i][j] == '\r' && lines[i][j + 1] == '\n') by {
            assert(lines[i][j] == text[j] && lines[i][j + 1] == text[j + 1]);
        }
    }
}

proof fn lemma_line_end_splits(text: Seq<char>)
    ensures
        line_end(text) <= text.len(),
        line_end(text) < text.len() ==> line_end(text) + 1 < text.len() && text[line_end(text) as int] == '\r'
            && text[line_end(text) as int + 1] == '\n',
        forall|i: int|
            0 <= i < line_end(text) && i + 1 < text.len() ==> !(#[trigger] text[i] == '\r' && text[i + 1] == '\n'),
    decreases text.len(),
{
    if !(text.len() == 0 || (text.len() >= 2 && text[0] == '\r' && text[1] == '\n')) {
        let rest = text.drop_first();
        lemma_line_end_splits(rest);
        assert forall|i: int| 0 <= i < line_end(text) && i + 1 < text.len() implies !(#[trigger] text[i] == '\r'
            && text[i + 1] == '\n') by {
            if i > 0 {
                assert(rest[i - 1] == text[i] && rest[i] == text[i + 1]);
            }
        }
    }
}

} // verus!
