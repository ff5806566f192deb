//! Character-level text: ASCII case, white space, splitting, and duplicate-detection identity.

use vstd::prelude::*;
use vstd::utf8::encode_utf8;

verus! {

/// Number of bytes of the UTF-8 form of `text`.
pub open spec fn utf8_len(text: Seq<char>) -> nat {
    encode_utf8(text).len()
}

/// Whether `c` has the Unicode `White_Space` property.
pub open spec fn is_space(c: char) -> bool {
    let code = c as u32;
    ||| 0x09 <= code <= 0x0d
    ||| code == 0x20
    ||| code == 0x85
    ||| code == 0xa0
    ||| code == 0x1680
    ||| 0x2000 <= code <= 0x200a
    ||| code == 0x2028
    ||| code == 0x2029
    ||| code == 0x202f
    ||| code == 0x205f
    ||| code == 0x3000
}

/// Whether `c` is an ASCII letter.
pub open spec fn is_letter(c: char) -> bool {
    'a' <= c <= 'z' || 'A' <= c <= 'Z'
}

/// Whether `c` is an ASCII decimal digit.
pub open spec fn is_digit(c: char) -> bool {
    '0' <= c <= '9'
}

/// Whether `c` is an ASCII hexadecimal digit.
pub open spec fn is_hex(c: char) -> bool {
    is_digit(c) || 'a' <= c <= 'f' || 'A' <= c <= 'F'
}

/// `c` with an ASCII upper-case letter replaced by its lower-case form.
pub open spec fn lower_char(c: char) -> char {
    if 'A' <= c <= 'Z' {
        ((c as u32) + 32) as char
    } else {
        c
    }
}

/// `text` with every ASCII upper-case letter replaced by its lower-case form.
pub open spec fn ascii_lower(text: Seq<char>) -> Seq<char> {
    text.map_values(|c: char| lower_char(c))
}

/// `text` without its leading white space.
pub open spec fn trim_start(text: Seq<char>) -> Seq<char>
    decreases text.len(),
{
    if text.len() > 0 && is_space(text[0]) {
        trim_start(text.drop_first())
    } else {
        text
    }
}

/// `text` without its trailing white space.
pub open spec fn trim_end(text: Seq<char>) -> Seq<char>
    decreases text.len(),
{
    if text.len() > 0 && is_space(text.last()) {
        trim_end(text.drop_last())
    } else {
        text
    }
}

/// `text` without its leading and trailing white space.
pub open spec fn trimmed(text: Seq<char>) -> Seq<char> {
    trim_end(trim_start(text))
}

/// Whether `text` holds nothing but white space.
pub open spec fn is_blank(text: Seq<char>) -> bool {
    forall|i: int| 0 <= i < text.len() ==> is_space(#[trigger] text[i])
}

/// The pieces of `text` between the occurrences of `separator`; there is always at least one.
pub open spec fn fields(text: Seq<char>, separator: char) -> Seq<Seq<char>>
    decreases text.len(),
{
    if text.len() == 0 {
        seq![Seq::<char>::empty()]
    } else {
        let before = fields(text.drop_last(), separator);
        if text.last() == separator {
            before.push(Seq::empty())
        } else {
            before.drop_last().push(before.last().push(text.last()))
        }
    }
}

/// What precedes and what follows the first `separator` in `text`.
pub open spec fn split_first(text: Seq<char>, separator: char) -> Option<(Seq<char>, Seq<char>)> {
    match text.index_of_first(separator) {
        Some(i) => Some((text.take(i), text.skip(i + 1))),
        None => None,
    }
}

/// The maximal runs of characters of `text` that are not white space.
pub open spec fn words(text: Seq<char>) -> Seq<Seq<char>>
    decreases text.len(),
{
    if text.len() == 0 {
        Seq::empty()
    } else {
        let before = words(text.drop_last());
        if is_space(text.last()) {
            before
        } else if text.len() >= 2 && !is_space(text[text.len() - 2]) {
            before.drop_last().push(before.last().push(text.last()))
        } else {
            before.push(seq![text.last()])
        }
    }
}

/// The pieces of `parts` with one space between each and the next.
pub open spec fn joined(parts: Seq<Seq<char>>) -> Seq<char>
    decreases parts.len(),
{
    if parts.len() == 0 {
        Seq::empty()
    } else if parts.len() == 1 {
        parts[0]
    } else {
        joined(parts.drop_last()).push(' ') + parts.last()
    }
}

/// The Unicode lower-case form of `text`.
pub uninterp spec fn lowercase(text: Seq<char>) -> Seq<char>;

/// The identity by which two contents count as the same memory: the words of `content`,
/// each in lower case, one space apart.
pub open spec fn identity_of(content: Seq<char>) -> Seq<char> {
    joined(words(content).map_values(|word: Seq<char>| lowercase(word)))
}

/// Whether `left` comes before `right` when their UTF-8 forms are compared byte by byte.
pub open spec fn text_before(left: Seq<char>, right: Seq<char>) -> bool {
    bytes_before(encode_utf8(left), encode_utf8(right))
}

/// Whether `left` comes before `right` in the lexicographic order of bytes.
pub open spec fn bytes_before(left: Seq<u8>, right: Seq<u8>) -> bool
    decreases left.len(),
{
    if right.len() == 0 {
        false
    } else if left.len() == 0 {
        true
    } else if left[0] != right[0] {
        left[0] < right[0]
    } else {
        bytes_before(left.drop_first(), right.drop_first())
    }
}

/// Where one text stands relative to another in byte order.
#[derive(Clone, Copy, Debug, PartialEq, Eq, Structural)]
pub enum Place {
    Before,
    Same,
    After,
}

/// `std::string::String::push` appends one character at the end.
pub assume_specification[ std::string::String::push ](text: &mut String, c: char)
    ensures
        final(text)@ == old(text)@.push(c),
;

/// `str::to_lowercase`: the lower-case form of `text` by the Unicode tables of the standard
/// library. The contract says only that the result is a function of the text.
#[verifier::external_body]
fn to_lowercase(text: &str) -> (lower: String)
    ensures
        lower@ == lowercase(text@),
{
    text.to_lowercase()
}

/// The characters of `text`, in order.
pub fn chars_of(text: &str) -> (chars: Vec<char>)
    ensures
        chars@ == text@,
{
    let mut chars: Vec<char> = Vec::new();
    for c in iter: text.chars()
        invariant
            chars@ == iter.seq().take(iter.index() as int),
            iter.seq() == text@,
    {
        chars.push(c);
        assert(iter.seq().take(iter.index() + 1) =~= iter.seq().take(iter.index() as int).push(c));
    }
    assert(text@.take(text@.len() as int) =~= text@);
    chars
}

/// Two texts with the same UTF-8 form are the same text.
pub proof fn lemma_utf8_injective(left: Seq<char>, right: Seq<char>)
    requires
        encode_utf8(left) == encode_utf8(right),
    ensures
        left == right,
{
    vstd::utf8::encode_utf8_decode_utf8(left);
    vstd::utf8::encode_utf8_decode_utf8(right);
}

/// Only the empty text has an empty UTF-8 form.
pub proof fn lemma_utf8_empty(text: Seq<char>)
    ensures
        utf8_len(text) == 0 <==> text.len() == 0,
{
    vstd::utf8::encode_utf8_decode_utf8(text);
    vstd::utf8::encode_utf8_decode_utf8(Seq::<char>::empty());
    if utf8_len(text) == 0 {
        assert(encode_utf8(text) =~= encode_utf8(Seq::<char>::empty()));
    }
    if text.len() == 0 {
        assert(text =~= Seq::<char>::empty());
    }
}

/// No byte sequence comes before itself.
pub proof fn lemma_bytes_irreflexive(bytes: Seq<u8>)
    ensures
        !bytes_before(bytes, bytes),
    decreases bytes.len(),
{
    if bytes.len() > 0 {
        lemma_bytes_irreflexive(bytes.drop_first());
    }
}

/// The order of byte sequences is transitive.
pub proof fn lemma_bytes_transitive(a: Seq<u8>, b: Seq<u8>, c: Seq<u8>)
    requires
        bytes_before(a, b),
        bytes_before(b, c),
    ensures
        bytes_before(a, c),
    decreases a.len(),
{
    if a.len() > 0 && a[0] == b[0] && b[0] == c[0] {
        lemma_bytes_transitive(a.drop_first(), b.drop_first(), c.drop_first());
    }
}

/// Of two byte sequences that differ, one comes before the other.
pub proof fn lemma_bytes_total(a: Seq<u8>, b: Seq<u8>)
    ensures
        a == b || bytes_before(a, b) || bytes_before(b, a),
    decreases a.len(),
{
    if a.len() > 0 && b.len() > 0 && a[0] == b[0] {
        lemma_bytes_total(a.drop_first(), b.drop_first());
        if a.drop_first() == b.drop_first() {
            assert(a =~= seq![a[0]] + a.drop_first());
            assert(b =~= seq![b[0]] + b.drop_first());
        }
    } else if a.len() == 0 && b.len() == 0 {
        assert(a =~= b);
    }
}

/// The order of texts is a strict total order: of any two texts exactly one of the three
/// holds, that they are the same, that the first comes before the second, or the reverse.
pub proof fn lemma_text_order(a: Seq<char>, b: Seq<char>)
    ensures
        !text_before(a, a),
        a == b || text_before(a, b) || text_before(b, a),
        !(text_before(a, b) && text_before(b, a)),
        text_before(a, b) ==> a != b,
{
    lemma_bytes_irreflexive(encode_utf8(a));
    lemma_bytes_total(encode_utf8(a), encode_utf8(b));
    if text_before(a, b) && text_before(b, a) {
        lemma_bytes_transitive(encode_utf8(a), encode_utf8(b), encode_utf8(a));
    }
    if encode_utf8(a) == encode_utf8(b) {
        lemma_utf8_injective(a, b);
    }
}

/// The order of texts is transitive.
pub proof fn lemma_text_transitive(a: Seq<char>, b: Seq<char>, c: Seq<char>)
    requires
        text_before(a, b),
        text_before(b, c),
    ensures
        text_before(a, c),
{
    lemma_bytes_transitive(encode_utf8(a), encode_utf8(b), encode_utf8(c));
}

/// A common prefix does not bear on the order of byte sequences.
proof fn lemma_common_prefix(a: Seq<u8>, b: Seq<u8>, n: int)
    requires
        0 <= n <= a.len(),
        n <= b.len(),
        a.take(n) == b.take(n),
    ensures
        bytes_before(a, b) == bytes_before(a.skip(n), b.skip(n)),
    decreases n,
{
    if n == 0 {
        assert(a.skip(0) =~= a);
        assert(b.skip(0) =~= b);
    } else {
        assert(a[0] == a.take(n)[0] && b[0] == b.take(n)[0]);
        assert(a.drop_first().take(n - 1) =~= a.take(n).drop_first());
        assert(b.drop_first().take(n - 1) =~= b.take(n).drop_first());
        lemma_common_prefix(a.drop_first(), b.drop_first(), n - 1);
        assert(a.drop_first().skip(n - 1) =~= a.skip(n));
        assert(b.drop_first().skip(n - 1) =~= b.skip(n));
    }
}

/// Number of bytes of the UTF-8 form of `text`.
pub fn byte_len(text: &str) -> (n: usize)
    ensures
        n == utf8_len(text@),
{
    text.as_bytes().len()
}

/// Where `left` stands relative to `right` in byte order.
pub fn place(left: &str, right: &str) -> (p: Place)
    ensures
        p == Place::Before <==> text_before(left@, right@),
        p == Place::Same <==> left@ == right@,
        p == Place::After <==> text_before(right@, left@),
{
    proof {
        lemma_text_order(left@, right@);
    }
    let a = left.as_bytes();
    let b = right.as_bytes();
    let mut i: usize = 0;
    while i < a.len() && i < b.len()
        invariant
            a@ == encode_utf8(left@),
            b@ == encode_utf8(right@),
            i <= a@.len(),
            i <= b@.len(),
            a@.take(i as int) == b@.take(i as int),
        decreases a@.len() - i,
    {
        if a[i] != b[i] {
            proof {
                lemma_text_order(left@, right@);
                lemma_common_prefix(a@, b@, i as int);
                lemma_common_prefix(b@, a@, i as int);
                assert(a@.skip(i as int)[0] == a@[i as int]);
                assert(b@.skip(i as int)[0] == b@[i as int]);
            }
            if a[i] < b[i] {
                return Place::Before;
            } else {
                return Place::After;
            }
        }
        i += 1;
        proof {
            assert(a@.take(i as int) =~= a@.take(i - 1).push(a@[i - 1]));
            assert(b@.take(i as int) =~= b@.take(i - 1).push(b@[i - 1]));
        }
    }
    proof {
        lemma_common_prefix(a@, b@, i as int);
        lemma_common_prefix(b@, a@, i as int);
    }
    if i < b.len() {
        Place::Before
    } else if i < a.len() {
        Place::After
    } else {
        proof {
            assert(a@.take(i as int) =~= a@);
            assert(b@.take(i as int) =~= b@);
            lemma_utf8_injective(left@, right@);
        }
        Place::Same
    }
}

/// Whether `left` and `right` are the same text.
pub fn same_text(left: &str, right: &str) -> (same: bool)
    ensures
        same == (left@ == right@),
{
    let a = left.as_bytes();
    let b = right.as_bytes();
    if a.len() != b.len() {
        return false;
    }
    let mut i: usize = 0;
    while i < a.len()
        invariant
            a@ == encode_utf8(left@),
            b@ == encode_utf8(right@),
            a@.len() == b@.len(),
            i <= a@.len(),
            forall|j: int| 0 <= j < i ==> a@[j] == b@[j],
        decreases a@.len() - i,
    {
        if a[i] != b[i] {
            return false;
        }
        i += 1;
    }
    proof {
        assert(a@ =~= b@);
        lemma_utf8_injective(left@, right@);
    }
    true
}

/// Whether `c` is white space.
pub fn space(c: char) -> (r: bool)
    ensures
        r == is_space(c),
{
    let code: u32 = c as u32;
    (0x09 <= code && code <= 0x0d) || code == 0x20 || code == 0x85 || code == 0xa0
        || code == 0x1680 || (0x2000 <= code && code <= 0x200a) || code == 0x2028
        || code == 0x2029 || code == 0x202f || code == 0x205f || code == 0x3000
}

/// `text` with every ASCII upper-case letter replaced by its lower-case form.
pub fn to_ascii_lowercase(text: &str) -> (lower: String)
    ensures
        lower@ == ascii_lower(text@),
{
    let chars = chars_of(text);
    let mut lower = String::new();
    let mut i: usize = 0;
    while i < chars.len()
        invariant
            chars@ == text@,
            i <= chars@.len(),
            lower@ == ascii_lower(text@.take(i as int)),
        decreases chars@.len() - i,
    {
        let c = chars[i];
        if 'A' <= c && c <= 'Z' {
            lower.push((c as u8 + 32) as char);
        } else {
            lower.push(c);
        }
        i += 1;
        assert(lower@ =~= ascii_lower(text@.take(i as int)));
    }
    assert(text@.take(i as int) =~= text@);
    lower
}

/// Trimming leaves nothing exactly where there is nothing but white space.
pub proof fn lemma_trimmed_blank(text: Seq<char>)
    ensures
        trimmed(text).len() == 0 <==> is_blank(text),
    decreases text.len(),
{
    if text.len() > 0 && is_space(text[0]) {
        lemma_trimmed_blank(text.drop_first());
        if is_blank(text.drop_first()) {
            assert forall|i: int| 0 <= i < text.len() implies is_space(#[trigger] text[i]) by {
                if i > 0 {
                    assert(text[i] == text.drop_first()[i - 1]);
                }
            }
        }
        if is_blank(text) {
            assert forall|i: int| 0 <= i < text.drop_first().len() implies is_space(
                #[trigger] text.drop_first()[i],
            ) by {
                assert(text.drop_first()[i] == text[i + 1]);
            }
        }
    } else if text.len() > 0 {
        lemma_trim_end_keeps(text);
    }
}

/// Trimming the end stops at a first character that is not white space.
proof fn lemma_trim_end_keeps(text: Seq<char>)
    requires
        text.len() > 0,
        !is_space(text[0]),
    ensures
        trim_end(text).len() > 0,
    decreases text.len(),
{
    if is_space(text.last()) {
        lemma_trim_end_keeps(text.drop_last());
    }
}

/// Whether `text` holds nothing but white space.
pub fn blank(text: &str) -> (r: bool)
    ensures
        r == is_blank(text@),
        r == (trimmed(text@).len() == 0),
{
    proof {
        lemma_trimmed_blank(text@);
    }
    let chars = chars_of(text);
    let mut i: usize = 0;
    while i < chars.len()
        invariant
            chars@ == text@,
            i <= chars@.len(),
            forall|j: int| 0 <= j < i ==> is_space(#[trigger] text@[j]),
            is_blank(text@) <==> trimmed(text@).len() == 0,
        decreases chars@.len() - i,
    {
        if !space(chars[i]) {
            assert(!is_space(text@[i as int]));
            return false;
        }
        i += 1;
    }
    true
}

/// `text` without its leading and trailing white space.
pub fn trim(text: &str) -> (r: String)
    ensures
        r@ == trimmed(text@),
{
    let chars = chars_of(text);
    let mut from: usize = 0;
    assert(text@.skip(0) =~= text@);
    while from < chars.len() && space(chars[from])
        invariant
            chars@ == text@,
            from <= chars@.len(),
            trim_start(text@.skip(from as int)) == trim_start(text@),
        decreases chars@.len() - from,
    {
        assert(text@.skip(from as int).drop_first() =~= text@.skip(from + 1));
        from += 1;
    }
    let mut to: usize = chars.len();
    let ghost rest = text@.skip(from as int);
    assert(trim_start(text@) == rest);
    assert(rest.take(to - from) =~= rest);
    while from < to && space(chars[to - 1])
        invariant
            chars@ == text@,
            from <= to <= chars@.len(),
            rest == text@.skip(from as int),
            trim_end(rest.take(to - from)) == trim_end(rest),
        decreases to,
    {
        assert(rest.take(to - from).drop_last() =~= rest.take(to - from - 1));
        to -= 1;
    }
    let mut r = String::new();
    let mut i: usize = from;
    while i < to
        invariant
            chars@ == text@,
            from <= i <= to <= chars@.len(),
            rest == text@.skip(from as int),
            r@ == rest.take(i - from),
        decreases to - i,
    {
        r.push(chars[i]);
        i += 1;
        assert(rest.take(i - from) =~= rest.take(i - from - 1).push(rest[i - from - 1]));
    }
    r
}

/// The views of a list of texts.
pub open spec fn texts(list: Seq<String>) -> Seq<Seq<char>> {
    list.map_values(|text: String| text@)
}

/// The pieces of `text` between the occurrences of `separator`.
pub fn split(text: &str, separator: char) -> (pieces: Vec<String>)
    ensures
        texts(pieces@) == fields(text@, separator),
        pieces@.len() >= 1,
{
    let chars = chars_of(text);
    let mut pieces: Vec<String> = Vec::new();
    let mut piece = String::new();
    let mut i: usize = 0;
    proof {
        assert(texts(pieces@).push(piece@) =~= fields(text@.take(0), separator));
    }
    while i < chars.len()
        invariant
            chars@ == text@,
            i <= chars@.len(),
            texts(pieces@).push(piece@) == fields(text@.take(i as int), separator),
        decreases chars@.len() - i,
    {
        let c = chars[i];
        let ghost before = texts(pieces@);
        let ghost partial = piece@;
        if c == separator {
            pieces.push(piece);
            piece = String::new();
            assert(texts(pieces@) =~= before.push(partial));
            assert(piece@ =~= Seq::<char>::empty());
        } else {
            piece.push(c);
        }
        i += 1;
        proof {
            let done = text@.take(i as int);
            assert(done.drop_last() =~= text@.take(i - 1));
            assert(done.last() == c);
            assert(before.push(partial).drop_last() =~= before);
        }
    }
    proof {
        assert(text@.take(i as int) =~= text@);
    }
    let ghost before = texts(pieces@);
    let ghost partial = piece@;
    pieces.push(piece);
    assert(texts(pieces@) =~= before.push(partial));
    pieces
}

/// What precedes and what follows the first `separator` in `text`.
pub fn split_once(text: &str, separator: char) -> (halves: Option<(String, String)>)
    ensures
        match halves {
            Some((head, tail)) => split_first(text@, separator) == Some((head@, tail@)),
            None => split_first(text@, separator) is None,
        },
{
    proof {
        text@.index_of_first_ensures(separator);
    }
    let chars = chars_of(text);
    let mut i: usize = 0;
    let mut head = String::new();
    while i < chars.len() && chars[i] != separator
        invariant
            chars@ == text@,
            i <= chars@.len(),
            head@ == text@.take(i as int),
            forall|j: int| 0 <= j < i ==> text@[j] != separator,
        decreases chars@.len() - i,
    {
        head.push(chars[i]);
        i += 1;
        assert(text@.take(i as int) =~= text@.take(i - 1).push(text@[i - 1]));
    }
    if i == chars.len() {
        return None;
    }
    assert(text@[i as int] == separator);
    let mut tail = String::new();
    let mut j: usize = i + 1;
    while j < chars.len()
        invariant
            chars@ == text@,
            i < j <= chars@.len(),
            tail@ == text@.subrange(i + 1, j as int),
        decreases chars@.len() - j,
    {
        tail.push(chars[j]);
        j += 1;
        assert(text@.subrange(i + 1, j as int) =~= text@.subrange(i + 1, j - 1).push(
            text@[j - 1],
        ));
    }
    assert(tail@ =~= text@.skip(i + 1));
    Some((head, tail))
}

/// Joining one more piece appends a space and the piece.
proof fn lemma_joined_push(parts: Seq<Seq<char>>, part: Seq<char>)
    ensures
        joined(parts.push(part)) == if parts.len() == 0 {
            part
        } else {
            joined(parts).push(' ') + part
        },
{
    assert(parts.push(part).drop_last() =~= parts);
}

/// The identity by which two contents count as the same memory.
pub fn normalize_identity(content: &str) -> (identity: String)
    ensures
        identity@ == identity_of(content@),
{
    let chars = chars_of(content);
    let mut identity = String::new();
    let mut word = String::new();
    let mut count: usize = 0;
    let mut in_word = false;
    let mut i: usize = 0;
    let ghost lower = |w: Seq<char>| lowercase(w);
    // The words that are complete.
    let ghost mut done: Seq<Seq<char>> = Seq::empty();
    proof {
        assert(done.map_values(lower) =~= Seq::empty());
        assert(identity@ =~= joined(done.map_values(lower)));
        assert(words(content@.take(0)) =~= done);
    }
    while i < chars.len()
        invariant
            chars@ == content@,
            i <= chars@.len(),
            lower == (|w: Seq<char>| lowercase(w)),
            count == done.len(),
            count <= i,
            identity@ == joined(done.map_values(lower)),
            in_word == (i > 0 && !is_space(content@[i - 1])),
            in_word ==> words(content@.take(i as int)) == done.push(word@) && count < i,
            !in_word ==> words(content@.take(i as int)) == done && word@.len() == 0,
        decreases chars@.len() - i,
    {
        let c = chars[i];
        let ghost seen = content@.take(i + 1);
        proof {
            assert(seen.drop_last() =~= content@.take(i as int));
            assert(seen.last() == c);
            if i > 0 {
                assert(seen[seen.len() - 2] == content@[i - 1]);
            }
        }
        if space(c) {
            if in_word {
                let ghost parts = done.map_values(lower);
                let part = to_lowercase(word.as_str());
                if count > 0 {
                    identity.push(' ');
                }
                identity.append(part.as_str());
                proof {
                    lemma_joined_push(parts, part@);
                    assert(done.push(word@).map_values(lower) =~= parts.push(part@));
                    if done.len() == 0 {
                        assert(identity@ =~= part@);
                    }
                    done = done.push(word@);
                }
                count += 1;
                word = String::new();
                assert(word@ =~= Seq::<char>::empty());
            }
            in_word = false;
        } else {
            let ghost partial = word@;
            word.push(c);
            proof {
                if in_word {
                    assert(done.push(partial).drop_last() =~= done);
                } else {
                    assert(word@ =~= seq![c]);
                }
            }
            in_word = true;
        }
        i += 1;
    }
    assert(content@.take(i as int) =~= content@);
    if in_word {
        let ghost parts = done.map_values(lower);
        let part = to_lowercase(word.as_str());
        if count > 0 {
            identity.push(' ');
        }
        identity.append(part.as_str());
        proof {
            lemma_joined_push(parts, part@);
            assert(done.push(word@).map_values(lower) =~= parts.push(part@));
            if done.len() == 0 {
                assert(identity@ =~= part@);
            }
        }
    }
    identity
}

/// A text that ends in a character that is not white space has a last word.
proof fn lemma_last_word(text: Seq<char>)
    requires
        text.len() > 0,
        !is_space(text.last()),
    ensures
        words(text).len() > 0,
    decreases text.len(),
{
    if text.len() >= 2 && !is_space(text[text.len() - 2]) {
        lemma_last_word(text.drop_last());
    }
}

/// White space separates words: the words of two texts with white space between them are those of
/// the one and then those of the other.
pub proof fn law_space_separates_words(a: Seq<char>, space: char, b: Seq<char>)
    requires
        is_space(space),
    ensures
        words(a.push(space) + b) == words(a) + words(b),
    decreases b.len(),
{
    let text = a.push(space) + b;
    if b.len() == 0 {
        assert(text =~= a.push(space));
        assert(text.drop_last() =~= a);
        assert(words(a) + words(b) =~= words(a));
    } else {
        let rest = b.drop_last();
        law_space_separates_words(a, space, rest);
        assert(text.drop_last() =~= a.push(space) + rest);
        assert(text.last() == b.last());
        let before = words(a) + words(rest);
        if is_space(b.last()) {
        } else if b.len() >= 2 && !is_space(b[b.len() - 2]) {
            assert(text[text.len() - 2] == b[b.len() - 2]);
            assert(rest.last() == b[b.len() - 2]);
            lemma_last_word(rest);
            assert(words(text) =~= words(a) + words(b));
        } else {
            if b.len() >= 2 {
                assert(text[text.len() - 2] == b[b.len() - 2]);
            } else {
                assert(text[text.len() - 2] == space);
            }
            assert(words(text) =~= words(a) + words(b));
        }
    }
}

/// The identity of a content does not depend on white space before it, after it, or repeated
/// within it.
pub proof fn law_identity_ignores_spacing(a: Seq<char>, space: char, more: char, b: Seq<char>)
    requires
        is_space(space),
        is_space(more),
    ensures
        identity_of(seq![space] + a) == identity_of(a),
        identity_of(a.push(space)) == identity_of(a),
        identity_of(a.push(space).push(more) + b) == identity_of(a.push(space) + b),
{
    let none = Seq::<char>::empty();
    law_space_separates_words(none, space, a);
    assert(none.push(space) + a =~= seq![space] + a);
    assert(words(none) + words(a) =~= words(a));
    law_space_separates_words(a, space, none);
    assert(a.push(space) + none =~= a.push(space));
    assert(words(a) + words(none) =~= words(a));
    law_space_separates_words(a.push(space), more, b);
    law_space_separates_words(a, space, b);
}

} // verus!
