//! Laws of splitting, trimming, ordering and identifying texts.

use vstd::prelude::*;

use crate::text::{
    bytes_before, fields, identity_of, is_space, joined, law_space_separates_words, lowercase,
    split_first, trim_end, trim_start, trimmed, words,
};

verus! {

/// `parts` with one `separator` between each and the next.
pub open spec fn rejoined(parts: Seq<Seq<char>>, separator: char) -> Seq<char>
    decreases parts.len(),
{
    if parts.len() == 0 {
        Seq::empty()
    } else if parts.len() == 1 {
        parts[0]
    } else {
        rejoined(parts.drop_last(), separator).push(separator) + parts.last()
    }
}

/// The fields of a text hold no separator, and put together again with one separator between each
/// and the next they are the text.
pub proof fn law_fields_rejoin(text: Seq<char>, separator: char)
    ensures
        fields(text, separator).len() >= 1,
        rejoined(fields(text, separator), separator) == text,
        forall|i: int|
            0 <= i < fields(text, separator).len() ==> !(#[trigger] fields(
                text,
                separator,
            )[i]).contains(separator),
    decreases text.len(),
{
    if text.len() == 0 {
        assert(fields(text, separator) =~= seq![Seq::<char>::empty()]);
        assert(rejoined(fields(text, separator), separator) =~= text);
        assert forall|i: int| 0 <= i < fields(text, separator).len() implies !(#[trigger] fields(
            text,
            separator,
        )[i]).contains(separator) by {
            assert(fields(text, separator)[i] == Seq::<char>::empty());
        }
    } else {
        let rest = text.drop_last();
        let c = text.last();
        law_fields_rejoin(rest, separator);
        let before = fields(rest, separator);
        let all = fields(text, separator);
        assert(text =~= rest.push(c));
        if c == separator {
            assert(all == before.push(Seq::empty()));
            assert(all.drop_last() =~= before);
            assert(rejoined(all, separator) =~= text);
            assert forall|i: int| 0 <= i < all.len() implies !(#[trigger] all[i]).contains(
                separator,
            ) by {
                if i < before.len() {
                    assert(all[i] == before[i]);
                } else {
                    assert(all[i] =~= Seq::<char>::empty());
                }
            }
        } else {
            let last = before.last().push(c);
            assert(all == before.drop_last().push(last));
            assert(all.drop_last() =~= before.drop_last());
            if all.len() == 1 {
                assert(all[0] == last);
                assert(before[0] == rest);
                assert(rejoined(all, separator) =~= text);
            } else {
                assert(rejoined(all, separator) =~= text);
            }
            assert forall|i: int| 0 <= i < all.len() implies !(#[trigger] all[i]).contains(
                separator,
            ) by {
                if i < before.len() - 1 {
                    assert(all[i] == before[i]);
                } else {
                    assert(!before[i].contains(separator));
                    if last.contains(separator) {
                        let k = choose|k: int| 0 <= k < last.len() && last[k] == separator;
                        assert(before.last()[k] == separator);
                    }
                }
            }
        }
    }
}

/// Parts that hold no separator are the fields of what they make together.
pub proof fn law_rejoined_fields(parts: Seq<Seq<char>>, separator: char)
    requires
        parts.len() >= 1,
        forall|i: int| 0 <= i < parts.len() ==> !(#[trigger] parts[i]).contains(separator),
    ensures
        fields(rejoined(parts, separator), separator) == parts,
    decreases parts.len(), parts.last().len(),
{
    let text = rejoined(parts, separator);
    let last = parts.last();
    if last.len() == 0 {
        if parts.len() == 1 {
            assert(text.len() == 0);
            assert(fields(text, separator) =~= parts) by {
                assert(parts[0] =~= Seq::<char>::empty());
            }
        } else {
            let earlier = parts.drop_last();
            assert forall|i: int| 0 <= i < earlier.len() implies !(#[trigger] earlier[i]).contains(
                separator,
            ) by {
                assert(earlier[i] == parts[i]);
            }
            law_rejoined_fields(earlier, separator);
            let before = rejoined(earlier, separator);
            assert(text =~= before.push(separator));
            assert(text.drop_last() =~= before);
            assert(last =~= Seq::<char>::empty());
            assert(fields(text, separator) =~= parts);
        }
    } else {
        let shorter = parts.drop_last().push(last.drop_last());
        let c = last.last();
        assert(last[last.len() - 1] == c);
        assert(parts[parts.len() - 1] == last);
        assert(c != separator);
        assert forall|i: int| 0 <= i < shorter.len() implies !(#[trigger] shorter[i]).contains(
            separator,
        ) by {
            if i < parts.len() - 1 {
                assert(shorter[i] == parts[i]);
            } else if shorter[i].contains(separator) {
                let k = choose|k: int| 0 <= k < shorter[i].len() && shorter[i][k] == separator;
                assert(last[k] == separator);
            }
        }
        law_rejoined_fields(shorter, separator);
        assert(shorter.drop_last() =~= parts.drop_last());
        let before = rejoined(shorter, separator);
        assert(text =~= before.push(c));
        assert(text.drop_last() =~= before);
        assert(last.drop_last().push(c) =~= last);
        assert(fields(text, separator) =~= parts);
    }
}

/// A text is split at its first separator: what comes before holds none, and the two halves with
/// the separator between them are the text. A text without the separator is not split.
pub proof fn law_split_at_first(text: Seq<char>, separator: char)
    ensures
        split_first(text, separator) is None <==> !text.contains(separator),
        split_first(text, separator) is Some ==> ({
            let (head, tail) = split_first(text, separator)->0;
            !head.contains(separator) && head.push(separator) + tail == text
        }),
{
    text.index_of_first_ensures(separator);
    if split_first(text, separator) is Some {
        let (head, tail) = split_first(text, separator)->0;
        assert(head.push(separator) + tail =~= text);
        if head.contains(separator) {
            let k = choose|k: int| 0 <= k < head.len() && head[k] == separator;
            assert(text[k] == separator);
        }
    }
}

/// A head without the separator, the separator, and any tail are split into head and tail.
pub proof fn law_split_halves(head: Seq<char>, separator: char, tail: Seq<char>)
    requires
        !head.contains(separator),
    ensures
        split_first(head.push(separator) + tail, separator) == Some((head, tail)),
{
    let text = head.push(separator) + tail;
    text.index_of_first_ensures(separator);
    let n = head.len() as int;
    assert(text[n] == separator);
    assert forall|i: int| 0 <= i < n implies text[i] != separator by {
        assert(head[i] == text[i]);
        assert(head.contains(head[i]));
    }
    assert(text.take(n) =~= head);
    assert(text.skip(n + 1) =~= tail);
}

/// Trimming takes white space off both ends, and nothing else: what is left neither starts nor ends
/// with white space, and white space before and after it makes the text.
pub proof fn law_trimmed(text: Seq<char>)
    ensures
        trimmed(text).len() > 0 ==> !is_space(trimmed(text)[0]) && !is_space(trimmed(text).last()),
        exists|a: int, b: int|
            0 <= a <= b <= text.len() && #[trigger] text.subrange(a, b) == trimmed(text) && (
            forall|i: int| 0 <= i < a ==> is_space(#[trigger] text[i])) && (forall|i: int|
                b <= i < text.len() ==> is_space(#[trigger] text[i])),
{
    let a = lemma_trim_start(text);
    let rest = trim_start(text);
    let b = lemma_trim_end(rest);
    assert(text.subrange(a, a + b) =~= rest.take(b));
    assert forall|i: int| a + b <= i < text.len() implies is_space(#[trigger] text[i]) by {
        assert(rest[i - a] == text[i]);
    }
    assert(text.subrange(a, a + b) == trimmed(text));
    if trimmed(text).len() > 0 {
        assert(trimmed(text)[0] == rest[0]);
    }
}

proof fn lemma_trim_start(text: Seq<char>) -> (a: int)
    ensures
        0 <= a <= text.len(),
        trim_start(text) == text.skip(a),
        forall|i: int| 0 <= i < a ==> is_space(#[trigger] text[i]),
        trim_start(text).len() > 0 ==> !is_space(trim_start(text)[0]),
    decreases text.len(),
{
    if text.len() > 0 && is_space(text[0]) {
        let rest = text.drop_first();
        let a = lemma_trim_start(rest);
        assert(rest.skip(a) =~= text.skip(a + 1));
        assert forall|i: int| 0 <= i < a + 1 implies is_space(#[trigger] text[i]) by {
            if i > 0 {
                assert(rest[i - 1] == text[i]);
            }
        }
        a + 1
    } else {
        assert(text.skip(0) =~= text);
        0
    }
}

proof fn lemma_trim_end(text: Seq<char>) -> (b: int)
    ensures
        0 <= b <= text.len(),
        trim_end(text) == text.take(b),
        forall|i: int| b <= i < text.len() ==> is_space(#[trigger] text[i]),
        trim_end(text).len() > 0 ==> !is_space(trim_end(text).last()),
    decreases text.len(),
{
    if text.len() > 0 && is_space(text.last()) {
        let rest = text.drop_last();
        let b = lemma_trim_end(rest);
        assert(rest.take(b) =~= text.take(b));
        assert forall|i: int| b <= i < text.len() implies is_space(#[trigger] text[i]) by {
            if i < rest.len() {
                assert(rest[i] == text[i]);
            }
        }
        b
    } else {
        assert(text.take(text.len() as int) =~= text);
        text.len() as int
    }
}

/// A text that neither starts nor ends with white space is left as it is.
pub proof fn law_trimmed_keeps(text: Seq<char>)
    requires
        text.len() > 0 ==> !is_space(text[0]) && !is_space(text.last()),
    ensures
        trimmed(text) == text,
{
}

/// Byte order is that of the first difference, and a proper prefix comes first.
pub proof fn law_byte_order(left: Seq<u8>, right: Seq<u8>, n: int)
    requires
        0 <= n <= left.len(),
        n <= right.len(),
        left.take(n) == right.take(n),
    ensures
        n < left.len() && n < right.len() && left[n] != right[n] ==> (bytes_before(left, right)
            <==> left[n] < right[n]),
        n == left.len() ==> (bytes_before(left, right) <==> left.len() < right.len()),
        n == right.len() ==> !bytes_before(left, right),
    decreases n,
{
    if n > 0 {
        let a = left.drop_first();
        let b = right.drop_first();
        assert(left[0] == left.take(n)[0] && right[0] == right.take(n)[0]);
        assert(a.take(n - 1) =~= left.take(n).drop_first());
        assert(b.take(n - 1) =~= right.take(n).drop_first());
        law_byte_order(a, b, n - 1);
        if n < left.len() {
            assert(a[n - 1] == left[n]);
        }
        if n < right.len() {
            assert(b[n - 1] == right[n]);
        }
    }
}

/// The identity of a single word is its lower-case form.
pub proof fn law_identity_of_word(word: Seq<char>)
    requires
        word.len() > 0,
        forall|i: int| 0 <= i < word.len() ==> !is_space(#[trigger] word[i]),
    ensures
        identity_of(word) == lowercase(word),
{
    lemma_single_word(word);
    let lower = |w: Seq<char>| lowercase(w);
    assert(words(word).map_values(lower) =~= seq![lowercase(word)]);
}

proof fn lemma_single_word(word: Seq<char>)
    requires
        word.len() > 0,
        forall|i: int| 0 <= i < word.len() ==> !is_space(#[trigger] word[i]),
    ensures
        words(word) == seq![word],
    decreases word.len(),
{
    let rest = word.drop_last();
    assert(!is_space(word[word.len() - 1]));
    if word.len() == 1 {
        assert(words(rest) =~= Seq::empty());
        assert(word =~= seq![word.last()]);
        assert(words(word) =~= seq![word]);
    } else {
        assert forall|i: int| 0 <= i < rest.len() implies !is_space(#[trigger] rest[i]) by {
            assert(rest[i] == word[i]);
        }
        lemma_single_word(rest);
        assert(!is_space(word[word.len() - 2]));
        assert(rest.push(word.last()) =~= word);
        assert(words(word) =~= seq![word]);
    }
}

/// The identity of two texts that are not blank, with white space between them, is that of the one,
/// one space, and that of the other.
pub proof fn law_identity_of_texts(a: Seq<char>, space: char, b: Seq<char>)
    requires
        is_space(space),
        exists|i: int| 0 <= i < a.len() && !is_space(#[trigger] a[i]),
        exists|i: int| 0 <= i < b.len() && !is_space(#[trigger] b[i]),
    ensures
        identity_of(a.push(space) + b) == identity_of(a).push(' ') + identity_of(b),
{
    law_space_separates_words(a, space, b);
    lemma_has_words(a);
    lemma_has_words(b);
    let lower = |w: Seq<char>| lowercase(w);
    let x = words(a).map_values(lower);
    let y = words(b).map_values(lower);
    assert((words(a) + words(b)).map_values(lower) =~= x + y);
    lemma_joined_add(x, y);
}

proof fn lemma_joined_add(x: Seq<Seq<char>>, y: Seq<Seq<char>>)
    requires
        x.len() > 0,
        y.len() > 0,
    ensures
        joined(x + y) == joined(x).push(' ') + joined(y),
    decreases y.len(),
{
    let all = x + y;
    if y.len() == 1 {
        assert(all.drop_last() =~= x);
        assert(all.last() == y[0]);
    } else {
        let rest = y.drop_last();
        lemma_joined_add(x, rest);
        assert(all.drop_last() =~= x + rest);
        assert(all.last() == y.last());
        assert((joined(x).push(' ') + joined(rest)).push(' ') + y.last() =~= joined(x).push(' ') + (
        joined(rest).push(' ') + y.last()));
    }
}

/// A text has words exactly where it is not blank.
pub proof fn lemma_has_words(text: Seq<char>)
    ensures
        words(text).len() > 0 <==> exists|i: int|
            0 <= i < text.len() && !is_space(#[trigger] text[i]),
    decreases text.len(),
{
    if text.len() > 0 {
        let rest = text.drop_last();
        lemma_has_words(rest);
        if words(rest).len() > 0 {
            let i = choose|i: int| 0 <= i < rest.len() && !is_space(#[trigger] rest[i]);
            assert(!is_space(text[i]));
        }
        if !is_space(text.last()) {
            assert(!is_space(text[text.len() - 1]));
            if text.len() >= 2 && !is_space(text[text.len() - 2]) {
                assert(!is_space(rest[rest.len() - 1]));
            }
        } else if exists|i: int| 0 <= i < text.len() && !is_space(#[trigger] text[i]) {
            let i = choose|i: int| 0 <= i < text.len() && !is_space(#[trigger] text[i]);
            assert(rest[i] == text[i]);
        }
    }
}

/// A blank text has the empty identity.
pub proof fn law_identity_of_blank(text: Seq<char>)
    requires
        forall|i: int| 0 <= i < text.len() ==> is_space(#[trigger] text[i]),
    ensures
        identity_of(text) == Seq::<char>::empty(),
{
    lemma_has_words(text);
    let lower = |w: Seq<char>| lowercase(w);
    assert(words(text).map_values(lower) =~= Seq::empty());
}

} // verus!
