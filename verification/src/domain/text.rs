use vstd::prelude::*;
use vstd::string::StringSliceAdditionalSpecFns;
use vstd::utf8::{
    is_char_boundary, is_char_boundary_iff_not_is_continuation_byte,
    is_char_boundary_start_end_of_seq, valid_utf8, valid_utf8_split,
};

verus! {

broadcast use {
    vstd::string::group_string_axioms,
    vstd::utf8::encode_utf8_valid_utf8,
    vstd::slice::group_slice_axioms,
};

/// Whether `c` is white space: one of the characters that Unicode gives the
/// property White_Space. These are the tab, the line feed, the vertical tab,
/// the form feed, the carriage return and the space; the next-line control
/// and the no-break space; and, beyond Latin-1, the Ogham space mark, the
/// spaces of fixed width from the en quad to the hair space, the line and the
/// paragraph separator, the narrow no-break space, the medium mathematical
/// space and the ideographic space.
pub open spec fn whitespace(c: char) -> bool {
    let v = c as u32;
    ||| 0x09 <= v <= 0x0d
    ||| v == 0x20
    ||| v == 0x85
    ||| v == 0xa0
    ||| v == 0x1680
    ||| 0x2000 <= v <= 0x200a
    ||| v == 0x2028
    ||| v == 0x2029
    ||| v == 0x202f
    ||| v == 0x205f
    ||| v == 0x3000
}

/// Whether `c` is a letter or a digit.
pub uninterp spec fn alphanumeric(c: char) -> bool;

/// The lower-case form of a text.
pub uninterp spec fn lowercase(s: Seq<char>) -> Seq<char>;

/// `needle` occurs in `hay` as a contiguous run of characters.
pub open spec fn occurs_in(needle: Seq<char>, hay: Seq<char>) -> bool {
    exists|i: int|
        0 <= i && i + needle.len() <= hay.len() && #[trigger] hay.subrange(i, i + needle.len())
            == needle
}

/// Whether `c` is white space.
pub fn is_whitespace(c: char) -> (b: bool)
    ensures
        b == whitespace(c),
{
    let v: u32 = c as u32;
    (0x09 <= v && v <= 0x0d) || v == 0x20 || v == 0x85 || v == 0xa0 || v == 0x1680 || (0x2000 <= v
        && v <= 0x200a) || v == 0x2028 || v == 0x2029 || v == 0x202f || v == 0x205f || v == 0x3000
}

/// `char::is_alphanumeric` of std: the result is whether `c` is alphabetic or
/// numeric in Unicode, which this library calls `alphanumeric`.
#[verifier::external_body]
pub(crate) fn is_alphanumeric(c: char) -> (b: bool)
    ensures
        b == alphanumeric(c),
{
    c.is_alphanumeric()
}

/// `str::to_lowercase` of std: the result is the lower-case form of `s`, a
/// function of the characters of `s` alone, which this library calls `lowercase`.
#[verifier::external_body]
pub(crate) fn to_lowercase(s: &str) -> (r: String)
    ensures
        r@ == lowercase(s@),
{
    s.to_lowercase()
}

/// Whether `needle` occurs in `hay` as a contiguous run of characters. An
/// empty needle occurs in every text.
pub fn contains(hay: &Vec<char>, needle: &Vec<char>) -> (b: bool)
    ensures
        b == occurs_in(needle@, hay@),
{
    if needle.len() > hay.len() {
        return false;
    }
    let last: usize = hay.len() - needle.len();
    let mut i: usize = 0;
    while i <= last
        invariant
            i <= last + 1,
            last == hay@.len() - needle@.len(),
            hay@.len() <= usize::MAX,
            forall|k: int|
                0 <= k < i ==> #[trigger] hay@.subrange(k, k + needle@.len()) != needle@,
        decreases last + 1 - i,
    {
        let mut j: usize = 0;
        while j < needle.len() && hay[i + j] == needle[j]
            invariant
                j <= needle@.len(),
                i + needle@.len() <= hay@.len(),
                hay@.len() <= usize::MAX,
                forall|m: int| 0 <= m < j ==> hay@[i + m] == needle@[m],
            decreases needle@.len() - j,
        {
            j += 1;
        }
        if j == needle.len() {
            assert(hay@.subrange(i as int, i + needle@.len()) =~= needle@);
            return true;
        }
        assert(hay@.subrange(i as int, i + needle@.len())[j as int] != needle@[j as int]);
        i += 1;
    }
    false
}

/// `String::from_iter` of std over the characters of `chars`: the string that
/// holds exactly these characters, in order.
#[verifier::external_body]
pub(crate) fn string_of(chars: &Vec<char>) -> (s: String)
    ensures
        s@ == chars@,
{
    String::from_iter(chars.iter())
}

/// A character boundary of a text is one of each of its prefixes that reach it.
pub proof fn lemma_boundary_in_prefix(bytes: Seq<u8>, from: int, to: int)
    requires
        valid_utf8(bytes),
        0 <= from <= to <= bytes.len(),
        is_char_boundary(bytes, from),
        is_char_boundary(bytes, to),
    ensures
        valid_utf8(bytes.subrange(0, to)),
        is_char_boundary(bytes.subrange(0, to), from),
{
    valid_utf8_split(bytes, to);
    let prefix = bytes.subrange(0, to);
    if from == to {
        is_char_boundary_start_end_of_seq(prefix);
    } else if from > 0 {
        is_char_boundary_iff_not_is_continuation_byte(bytes, from);
        is_char_boundary_iff_not_is_continuation_byte(prefix, from);
    }
}

/// The number of bytes that `s` takes.
pub fn byte_length(s: &str) -> (n: usize)
    ensures
        n == s.spec_bytes().len(),
{
    s.as_bytes().len()
}

/// The part of `s` from byte `from` up to byte `to`, both of them character
/// boundaries of `s`.
pub fn byte_slice<'a>(s: &'a str, from: usize, to: usize) -> (r: &'a str)
    requires
        from <= to <= s.spec_bytes().len(),
        is_char_boundary(s.spec_bytes(), from as int),
        is_char_boundary(s.spec_bytes(), to as int),
    ensures
        r.spec_bytes() == s.spec_bytes().subrange(from as int, to as int),
{
    let (head, _) = s.split_at(to);
    proof {
        lemma_boundary_in_prefix(s.spec_bytes(), from as int, to as int);
    }
    let (_, tail) = head.split_at(from);
    assert(tail.spec_bytes() =~= s.spec_bytes().subrange(from as int, to as int));
    tail
}

/// The characters of `s`, in order.
pub fn chars_of(s: &str) -> (v: Vec<char>)
    ensures
        v@ == s@,
{
    let mut v: Vec<char> = Vec::new();
    for c in it: s.chars()
        invariant
            it.seq() == s@,
            v@ == it.seq().take(it.index() as int),
    {
        v.push(c);
    }
    v
}

/// How many characters stand at the start of `s` before its first white
/// space, or before its end.
pub open spec fn word_len(s: Seq<char>) -> nat
    decreases s.len(),
{
    if s.len() == 0 || whitespace(s[0]) {
        0
    } else {
        1 + word_len(s.drop_first())
    }
}

/// The words of a text: its maximal runs of characters that are not white
/// space, in the order in which they stand.
pub open spec fn words(s: Seq<char>) -> Seq<Seq<char>>
    decreases s.len(),
    via words_decreases
{
    if s.len() == 0 {
        Seq::empty()
    } else if whitespace(s[0]) {
        words(s.drop_first())
    } else {
        seq![s.take(word_len(s) as int)] + words(s.skip(word_len(s) as int))
    }
}

#[via_fn]
proof fn words_decreases(s: Seq<char>) {
    lemma_word_len_bounds(s);
}

/// A word is never longer than the text it starts, and is not empty where the
/// text starts with a character that is not white space.
pub proof fn lemma_word_len_bounds(s: Seq<char>)
    ensures
        word_len(s) <= s.len(),
        s.len() > 0 && !whitespace(s[0]) ==> word_len(s) >= 1,
    decreases s.len(),
{
    if s.len() > 0 && !whitespace(s[0]) {
        lemma_word_len_bounds(s.drop_first());
    }
}

/// The characters before the end of the first word are not white space, and
/// the character at its end, if there is one, is.
pub proof fn lemma_word_is_a_run(s: Seq<char>)
    ensures
        forall|i: int| 0 <= i < word_len(s) ==> !whitespace(#[trigger] s[i]),
        word_len(s) < s.len() ==> whitespace(s[word_len(s) as int]),
    decreases s.len(),
{
    lemma_word_len_bounds(s);
    if s.len() > 0 && !whitespace(s[0]) {
        let rest = s.drop_first();
        lemma_word_is_a_run(rest);
        lemma_word_len_bounds(rest);
        assert forall|i: int| 0 <= i < word_len(s) implies !whitespace(#[trigger] s[i]) by {
            if i > 0 {
                assert(s[i] == rest[i - 1]);
            }
        }
        if word_len(s) < s.len() {
            assert(s[word_len(s) as int] == rest[word_len(rest) as int]);
        }
    }
}

/// `w` is not empty and holds no white space.
pub open spec fn is_word(w: Seq<char>) -> bool {
    w.len() > 0 && forall|i: int| 0 <= i < w.len() ==> !whitespace(#[trigger] w[i])
}

/// No word is empty, and no word holds white space.
pub proof fn lemma_words_hold_no_white_space(s: Seq<char>)
    ensures
        forall|k: int| 0 <= k < words(s).len() ==> is_word(#[trigger] words(s)[k]),
    decreases s.len(),
{
    if s.len() == 0 {
        assert(words(s).len() == 0);
    } else if whitespace(s[0]) {
        lemma_words_hold_no_white_space(s.drop_first());
        assert(words(s) == words(s.drop_first()));
    } else {
        lemma_word_len_bounds(s);
        lemma_word_is_a_run(s);
        let n = word_len(s) as int;
        let rest = s.skip(n);
        lemma_words_hold_no_white_space(rest);
        let first = s.take(n);
        assert(is_word(first)) by {
            assert forall|i: int| 0 <= i < first.len() implies !whitespace(#[trigger] first[i]) by {
                assert(first[i] == s[i]);
            }
        }
        assert(words(s) == seq![first] + words(rest));
        assert forall|k: int| 0 <= k < words(s).len() implies is_word(#[trigger] words(s)[k]) by {
            if k == 0 {
                assert(words(s)[0] == first);
            } else {
                assert(words(s)[k] == words(rest)[k - 1]);
            }
        }
    }
}

/// A text without characters, or of white space only, has no words.
pub proof fn lemma_blank_text_has_no_words(s: Seq<char>)
    requires
        forall|i: int| 0 <= i < s.len() ==> whitespace(#[trigger] s[i]),
    ensures
        words(s).len() == 0,
    decreases s.len(),
{
    if s.len() > 0 {
        let rest = s.drop_first();
        assert forall|i: int| 0 <= i < rest.len() implies whitespace(#[trigger] rest[i]) by {
            assert(rest[i] == s[i + 1]);
        }
        lemma_blank_text_has_no_words(rest);
    }
}

/// The characters of `s` that are letters or digits, in order.
pub open spec fn alphanumerics(s: Seq<char>) -> Seq<char> {
    s.filter(|c: char| alphanumeric(c))
}

/// What a list of character vectors holds, as texts.
pub open spec fn texts(list: Seq<Vec<char>>) -> Seq<Seq<char>> {
    list.map_values(|w: Vec<char>| w@)
}

/// Cuts a text into its words.
pub fn split_words(text: &Vec<char>) -> (out: Vec<Vec<char>>)
    ensures
        texts(out@) == words(text@),
{
    let mut out: Vec<Vec<char>> = Vec::new();
    let mut i: usize = 0;
    assert(text@.skip(0) =~= text@);
    assert(texts(out@) =~= Seq::<Seq<char>>::empty());
    while i < text.len()
        invariant
            i <= text.len(),
            texts(out@) + words(text@.skip(i as int)) == words(text@),
        decreases text.len() - i,
    {
        let ghost rest = text@.skip(i as int);
        if is_whitespace(text[i]) {
            assert(rest.drop_first() =~= text@.skip(i + 1));
            i += 1;
        } else {
            let start: usize = i;
            let mut word: Vec<char> = Vec::new();
            assert(text@.subrange(start as int, i as int) =~= Seq::<char>::empty());
            while i < text.len() && !is_whitespace(text[i])
                invariant
                    start <= i <= text.len(),
                    word@ == text@.subrange(start as int, i as int),
                    word_len(text@.skip(start as int)) == (i - start) + word_len(
                        text@.skip(i as int),
                    ),
                decreases text.len() - i,
            {
                assert(text@.skip(i as int).drop_first() =~= text@.skip(i + 1));
                assert(text@.subrange(start as int, i + 1) =~= text@.subrange(
                    start as int,
                    i as int,
                ).push(text@[i as int]));
                word.push(text[i]);
                i += 1;
            }
            assert(word_len(rest) == i - start);
            assert(rest.take(word_len(rest) as int) =~= word@);
            assert(rest.skip(word_len(rest) as int) =~= text@.skip(i as int));
            let ghost before = texts(out@);
            out.push(word);
            assert(texts(out@) =~= before + seq![word@]);
            assert(texts(out@) + words(text@.skip(i as int)) =~= before + (seq![word@] + words(
                text@.skip(i as int),
            )));
        }
    }
    assert(text@.skip(i as int) =~= Seq::<char>::empty());
    assert(texts(out@) + Seq::<Seq<char>>::empty() =~= texts(out@));
    out
}

/// Keeps the letters and digits of `text` and drops every other character.
pub fn keep_alphanumerics(text: &Vec<char>) -> (out: Vec<char>)
    ensures
        out@ == alphanumerics(text@),
{
    let mut out: Vec<char> = Vec::new();
    let mut i: usize = 0;
    let ghost keep = |c: char| alphanumeric(c);
    assert(text@.take(0).filter(keep) =~= Seq::<char>::empty()) by {
        reveal(Seq::filter);
    }
    while i < text.len()
        invariant
            i <= text.len(),
            keep == (|c: char| alphanumeric(c)),
            out@ == text@.take(i as int).filter(keep),
        decreases text.len() - i,
    {
        let c = text[i];
        proof {
            assert(text@.take(i + 1).drop_last() =~= text@.take(i as int));
            reveal(Seq::filter);
        }
        if is_alphanumeric(c) {
            out.push(c);
        }
        i += 1;
    }
    assert(text@.take(i as int) =~= text@);
    out
}

/// How many characters stand at the start of `s` before its first `sep`, or
/// before its end.
pub open spec fn field_len(s: Seq<char>, sep: char) -> nat
    decreases s.len(),
{
    if s.len() == 0 || s[0] == sep {
        0
    } else {
        1 + field_len(s.drop_first(), sep)
    }
}

/// The fields of a text: what stands before, between and behind its
/// separators. A text without a separator is one field, an empty text too.
pub open spec fn fields(s: Seq<char>, sep: char) -> Seq<Seq<char>>
    decreases s.len(),
    via fields_decreases
{
    if field_len(s, sep) >= s.len() {
        seq![s]
    } else {
        seq![s.take(field_len(s, sep) as int)] + fields(
            s.skip(field_len(s, sep) as int + 1),
            sep,
        )
    }
}

#[via_fn]
proof fn fields_decreases(s: Seq<char>, sep: char) {
}

/// `s` without the white space at its start.
pub open spec fn trimmed_start(s: Seq<char>) -> Seq<char>
    decreases s.len(),
{
    if s.len() > 0 && whitespace(s[0]) {
        trimmed_start(s.drop_first())
    } else {
        s
    }
}

/// `s` without the white space at its end.
pub open spec fn trimmed_end(s: Seq<char>) -> Seq<char>
    decreases s.len(),
{
    if s.len() > 0 && whitespace(s.last()) {
        trimmed_end(s.drop_last())
    } else {
        s
    }
}

/// `s` without the white space at its start and at its end.
pub open spec fn trimmed(s: Seq<char>) -> Seq<char> {
    trimmed_end(trimmed_start(s))
}

/// Takes the white space off both ends of `text`.
pub fn trim(text: &Vec<char>) -> (out: Vec<char>)
    ensures
        out@ == trimmed(text@),
{
    let mut from: usize = 0;
    assert(text@.subrange(0, text@.len() as int) =~= text@);
    while from < text.len() && is_whitespace(text[from])
        invariant
            from <= text@.len(),
            trimmed_start(text@) == trimmed_start(text@.subrange(from as int, text@.len() as int)),
        decreases text@.len() - from,
    {
        assert(text@.subrange(from as int, text@.len() as int).drop_first() =~= text@.subrange(
            from + 1,
            text@.len() as int,
        ));
        from += 1;
    }
    let mut to: usize = text.len();
    while from < to && is_whitespace(text[to - 1])
        invariant
            from <= to <= text@.len(),
            trimmed(text@) == trimmed_end(text@.subrange(from as int, to as int)),
        decreases to - from,
    {
        assert(text@.subrange(from as int, to as int).drop_last() =~= text@.subrange(
            from as int,
            to - 1,
        ));
        to -= 1;
    }
    let mut out: Vec<char> = Vec::new();
    let mut j: usize = from;
    while j < to
        invariant
            from <= j <= to <= text@.len(),
            out@ == text@.subrange(from as int, j as int),
        decreases to - j,
    {
        out.push(text[j]);
        assert(out@ =~= text@.subrange(from as int, j + 1));
        j += 1;
    }
    out
}

/// Whether `text` holds exactly the characters of `word`.
pub fn spells(text: &Vec<char>, word: &str) -> (b: bool)
    ensures
        b == (text@ == word@),
{
    let letters = chars_of(word);
    if letters.len() != text.len() {
        return false;
    }
    let mut i: usize = 0;
    while i < text.len()
        invariant
            i <= text@.len(),
            letters@ == word@,
            letters@.len() == text@.len(),
            forall|j: int| 0 <= j < i ==> text@[j] == letters@[j],
        decreases text@.len() - i,
    {
        if text[i] != letters[i] {
            return false;
        }
        i += 1;
    }
    assert(text@ =~= letters@);
    true
}

/// The fields of `s` between commas, each without the white space around it.
pub open spec fn trimmed_fields(s: Seq<char>) -> Seq<Seq<char>> {
    fields(s, ',').map_values(|field: Seq<char>| trimmed(field))
}

/// Cuts `text` at its commas and takes the white space off both ends of each
/// field.
pub fn split_trimmed(text: &Vec<char>) -> (out: Vec<Vec<char>>)
    ensures
        texts(out@) == trimmed_fields(text@),
{
    let mut out: Vec<Vec<char>> = Vec::new();
    let mut i: usize = 0;
    assert(text@.skip(0) =~= text@);
    assert(texts(out@) =~= Seq::<Seq<char>>::empty());
    loop
        invariant_except_break
            i <= text@.len(),
            texts(out@) + trimmed_fields(text@.skip(i as int)) == trimmed_fields(text@),
        ensures
            texts(out@) == trimmed_fields(text@),
        decreases text@.len() - i,
    {
        let ghost rest = text@.skip(i as int);
        let start: usize = i;
        while i < text.len() && text[i] != ','
            invariant
                start <= i <= text@.len(),
                field_len(text@.skip(start as int), ',') == (i - start) + field_len(
                    text@.skip(i as int),
                    ',',
                ),
            decreases text@.len() - i,
        {
            assert(text@.skip(i as int).drop_first() =~= text@.skip(i + 1));
            i += 1;
        }
        assert(field_len(rest, ',') == i - start);
        let ghost field = text@.subrange(start as int, i as int);
        assert(rest.take(field_len(rest, ',') as int) =~= field);
        let mut from: usize = start;
        while from < i && is_whitespace(text[from])
            invariant
                start <= from <= i <= text@.len(),
                field == text@.subrange(start as int, i as int),
                trimmed_start(field) == trimmed_start(text@.subrange(from as int, i as int)),
            decreases i - from,
        {
            assert(text@.subrange(from as int, i as int).drop_first() =~= text@.subrange(
                from + 1,
                i as int,
            ));
            from += 1;
        }
        assert(trimmed_start(field) == text@.subrange(from as int, i as int));
        let mut to: usize = i;
        while from < to && is_whitespace(text[to - 1])
            invariant
                from <= to <= i <= text@.len(),
                trimmed(field) == trimmed_end(text@.subrange(from as int, to as int)),
            decreases to - from,
        {
            assert(text@.subrange(from as int, to as int).drop_last() =~= text@.subrange(
                from as int,
                to - 1,
            ));
            to -= 1;
        }
        assert(trimmed(field) == text@.subrange(from as int, to as int));
        let mut piece: Vec<char> = Vec::new();
        let mut j: usize = from;
        while j < to
            invariant
                from <= j <= to <= text@.len(),
                piece@ == text@.subrange(from as int, j as int),
            decreases to - j,
        {
            piece.push(text[j]);
            assert(piece@ =~= text@.subrange(from as int, j + 1));
            j += 1;
        }
        let ghost before = texts(out@);
        out.push(piece);
        assert(texts(out@) =~= before + seq![trimmed(field)]);
        if i >= text.len() {
            assert(trimmed_fields(rest) =~= seq![trimmed(field)]);
            break;
        }
        assert(rest.skip(field_len(rest, ',') as int + 1) =~= text@.skip(i + 1));
        assert(trimmed_fields(rest) =~= seq![trimmed(field)] + trimmed_fields(text@.skip(i + 1)));
        assert(texts(out@) + trimmed_fields(text@.skip(i + 1)) =~= before + (seq![trimmed(field)]
            + trimmed_fields(text@.skip(i + 1))));
        i += 1;
    }
    out
}

/// The value of a decimal digit.
pub open spec fn digit_value(c: char) -> nat {
    (c as u32 - '0' as u32) as nat
}

/// Whether `c` is one of the digits `0` to `9`.
pub open spec fn is_digit(c: char) -> bool {
    '0' <= c && c <= '9'
}

/// The number that decimal digits stand for.
pub open spec fn decimal(digits: Seq<char>) -> nat
    decreases digits.len(),
{
    if digits.len() == 0 {
        0
    } else {
        10 * decimal(digits.drop_last()) + digit_value(digits.last())
    }
}

/// The digits of a number text: the text without a plus sign at its start.
pub open spec fn unsigned_part(s: Seq<char>) -> Seq<char> {
    if s.len() > 0 && s[0] == '+' {
        s.drop_first()
    } else {
        s
    }
}

/// The number that a text stands for: the text is one or more decimal
/// digits, with or without a plus sign before them, and the number fits the
/// machine's word. Any other text stands for no number.
pub open spec fn number_of(s: Seq<char>) -> Option<usize> {
    let digits = unsigned_part(s);
    if digits.len() > 0 && (forall|i: int| 0 <= i < digits.len() ==> is_digit(#[trigger] digits[i]))
        && decimal(digits) <= usize::MAX {
        Some(decimal(digits) as usize)
    } else {
        None
    }
}

/// The number of a longer row of digits is at least that of a part at its
/// start.
pub proof fn lemma_decimal_grows(digits: Seq<char>, n: int)
    requires
        0 <= n <= digits.len(),
    ensures
        decimal(digits.take(n)) <= decimal(digits),
    decreases digits.len() - n,
{
    if n < digits.len() {
        assert(digits.take(n + 1).drop_last() =~= digits.take(n));
        lemma_decimal_grows(digits, n + 1);
    } else {
        assert(digits.take(n) =~= digits);
    }
}

/// Reads a number.
pub fn parse_number(text: &Vec<char>) -> (r: Option<usize>)
    ensures
        r == number_of(text@),
{
    let start: usize = if text.len() > 0 && text[0] == '+' {
        1
    } else {
        0
    };
    let ghost digits = unsigned_part(text@);
    assert(digits =~= text@.skip(start as int));
    if start >= text.len() {
        return None;
    }
    let mut value: usize = 0;
    let mut i: usize = start;
    assert(digits.take(0) =~= Seq::<char>::empty());
    while i < text.len()
        invariant
            start <= i <= text@.len(),
            digits == text@.skip(start as int),
            digits == unsigned_part(text@),
            forall|j: int| 0 <= j < i - start ==> is_digit(#[trigger] digits[j]),
            value == decimal(digits.take(i - start)),
        decreases text@.len() - i,
    {
        let c = text[i];
        assert(digits[i - start] == c);
        if !('0' <= c && c <= '9') {
            return None;
        }
        let d: usize = (c as u32 - '0' as u32) as usize;
        proof {
            assert(digits.take(i - start + 1).drop_last() =~= digits.take(i - start));
            lemma_decimal_grows(digits, i - start + 1);
        }
        let scaled = match value.checked_mul(10) {
            Some(scaled) => scaled,
            None => {
                return None;
            },
        };
        value = match scaled.checked_add(d) {
            Some(sum) => sum,
            None => {
                return None;
            },
        };
        i += 1;
    }
    assert(digits.take(i - start) =~= digits);
    Some(value)
}

} // verus!
