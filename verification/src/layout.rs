//! Prose for a terminal: one paragraph a sentence, wrapped to a width.

use crate::text;
use vstd::prelude::*;

verus! {

/// The width to which prose is wrapped, in bytes.
pub const PRETTY_WRAP_WIDTH: usize = 80;

/// Whether `c` ends a sentence.
pub open spec fn is_terminator(c: char) -> bool {
    c == '.' || c == '!' || c == '?'
}

/// The predicate of characters that end no sentence.
pub open spec fn non_terminators() -> spec_fn(char) -> bool {
    |c: char| !is_terminator(c)
}

/// The sentences of a text, trimmed: each ends with a terminator, but for what follows the last
/// terminator.
pub open spec fn sentences(s: Seq<char>) -> Seq<Seq<char>>
    decreases s.len(),
{
    let n = text::run_len(s, non_terminators()) as int;
    if n < s.len() {
        let rest = text::trim_start(s.skip(n + 1));
        proof {
            text::lemma_run_len(s.skip(n + 1), text::spaces());
        }
        seq![text::trimmed(s.take(n + 1))] + sentences(rest)
    } else if text::trimmed(s).len() > 0 {
        seq![text::trimmed(s)]
    } else {
        seq![]
    }
}

/// The finished lines and the line at hand once another word has been set. A word that would
/// take the line at hand past the width starts a new one.
pub open spec fn set_word(
    state: (Seq<Seq<char>>, Seq<char>),
    word: Seq<char>,
    width: nat,
) -> (Seq<Seq<char>>, Seq<char>) {
    let (lines, line) = state;
    if line.len() == 0 {
        (lines, word)
    } else if text::byte_len(line) + 1 + text::byte_len(word) > width {
        (lines.push(line), word)
    } else {
        (lines, line + seq![' '] + word)
    }
}

/// The finished lines and the line at hand once all words have been set.
pub open spec fn set_words(words: Seq<Seq<char>>, width: nat) -> (Seq<Seq<char>>, Seq<char>)
    decreases words.len(),
{
    if words.len() == 0 {
        (seq![], seq![])
    } else {
        set_word(set_words(words.drop_last(), width), words.last(), width)
    }
}

/// The lines of a text that is wrapped to a width.
pub open spec fn wrapped_lines(s: Seq<char>, width: nat) -> Seq<Seq<char>> {
    let (lines, line) = set_words(text::words(s), width);
    if line.len() > 0 {
        lines.push(line)
    } else {
        lines
    }
}

/// A text wrapped to a width.
pub open spec fn wrapped(s: Seq<char>, width: nat) -> Seq<char> {
    text::join(wrapped_lines(s, width), "\n"@)
}

/// The sentences of a text, each wrapped, with a blank line between neighbours.
pub open spec fn pretty(s: Seq<char>) -> Seq<char> {
    text::join(
        sentences(s).map_values(|x: Seq<char>| wrapped(x, PRETTY_WRAP_WIDTH as nat)),
        "\n\n"@,
    )
}

/// Whether `c` ends a sentence.
fn ends_sentence(c: char) -> (r: bool)
    ensures
        r == is_terminator(c),
{
    c == '.' || c == '!' || c == '?'
}

/// The first position at or after `from` whose character ends a sentence, or the end.
fn find_terminator(chars: &Vec<char>, from: usize) -> (i: usize)
    requires
        from <= chars@.len(),
    ensures
        from <= i <= chars@.len(),
        i - from == text::run_len(chars@.skip(from as int), non_terminators()),
{
    let mut i: usize = from;
    let ghost rest = chars@.skip(from as int);
    while i < chars.len() && !ends_sentence(chars[i])
        invariant
            from <= i <= chars@.len(),
            rest == chars@.skip(from as int),
            forall|k: int| 0 <= k < i - from ==> !is_terminator(#[trigger] rest[k]),
        decreases chars@.len() - i,
    {
        i += 1;
    }
    proof {
        text::lemma_run_len_is(rest, non_terminators(), i - from);
    }
    i
}

/// The sentences of a text.
pub fn split_into_sentences(s: &str) -> (r: Vec<String>)
    ensures
        r.deep_view() == sentences(s@),
{
    let chars = text::chars_of(s);
    let mut r: Vec<String> = Vec::new();
    let mut from: usize = 0;
    assert(chars@.skip(0) =~= s@);
    let mut end = find_terminator(&chars, 0);
    assert(r.deep_view() =~= seq![]);
    assert(r.deep_view() + sentences(s@) =~= sentences(s@));
    while end < chars.len()
        invariant
            from <= end <= chars@.len(),
            end - from == text::run_len(chars@.skip(from as int), non_terminators()),
            r.deep_view() + sentences(chars@.skip(from as int)) == sentences(s@),
        decreases chars@.len() - from,
    {
        let ghost rest = chars@.skip(from as int);
        let raw = text::text_between(&chars, from, end + 1);
        let sentence = text::trim(raw.as_str());
        let next = text::skip_spaces(&chars, end + 1);
        proof {
            let n = end - from;
            assert(rest.take(n + 1) =~= raw@);
            assert(rest.skip(n + 1) =~= chars@.skip(end + 1));
            assert(chars@.skip(end + 1).skip(next - end - 1) =~= chars@.skip(next as int));
            assert(r.deep_view() + sentences(rest) =~= r.deep_view().push(sentence@) + sentences(
                chars@.skip(next as int),
            ));
        }
        let ghost before = r.deep_view();
        r.push(sentence);
        assert(r.deep_view() =~= before.push(sentence@));
        from = next;
        end = find_terminator(&chars, from);
    }
    let raw = text::text_between(&chars, from, chars.len());
    assert(raw@ =~= chars@.skip(from as int));
    let trailing = text::trim(raw.as_str());
    let ghost before = r.deep_view();
    if !trailing.as_str().is_empty() {
        r.push(trailing);
        assert(r.deep_view() =~= before + seq![trailing@]);
    } else {
        assert(r.deep_view() =~= before + seq![]);
    }
    r
}

/// A text wrapped to a width.
pub fn wrap_text(s: &str, width: usize) -> (r: String)
    ensures
        r@ == wrapped(s@, width as nat),
{
    let words = text::split_words(s);
    let ghost all = words.deep_view();
    let mut lines: Vec<String> = Vec::new();
    let mut line = String::new();
    assert(lines.deep_view() =~= seq![]);
    for i in 0..words.len()
        invariant
            all == words.deep_view(),
            (lines.deep_view(), line@) == set_words(all.take(i as int), width as nat),
    {
        proof {
            let upto = all.take(i + 1);
            assert(upto.drop_last() =~= all.take(i as int));
            assert(upto.last() == words@[i as int]@);
        }
        let word = words[i].as_str();
        if line.as_str().is_empty() {
            line = text::copy_text(word);
        } else if text::byte_count(line.as_str()) as u128 + 1 + text::byte_count(word) as u128
            > width as u128 {
            let ghost before = lines.deep_view();
            let ghost done = line@;
            lines.push(line);
            assert(lines.deep_view() =~= before.push(done));
            line = text::copy_text(word);
        } else {
            let ghost before = line@;
            line.push(' ');
            line.append(word);
            assert(line@ =~= before + seq![' '] + word@);
        }
    }
    assert(all.take(all.len() as int) =~= all);
    if !line.as_str().is_empty() {
        let ghost before = lines.deep_view();
        let ghost done = line@;
        lines.push(line);
        assert(lines.deep_view() =~= before.push(done));
    }
    text::join_texts(&lines, "\n")
}

/// A text with a paragraph for each sentence, wrapped to [`PRETTY_WRAP_WIDTH`].
pub fn pretty_format_summary(summary: &str) -> (r: String)
    ensures
        r@ == pretty(summary@),
{
    let parts = split_into_sentences(summary);
    let ghost all = parts.deep_view();
    let ghost sections = all.map_values(|x: Seq<char>| wrapped(x, PRETTY_WRAP_WIDTH as nat));
    let mut formatted: Vec<String> = Vec::new();
    for i in 0..parts.len()
        invariant
            all == parts.deep_view(),
            sections == all.map_values(|x: Seq<char>| wrapped(x, PRETTY_WRAP_WIDTH as nat)),
            formatted.deep_view() == sections.take(i as int),
    {
        let section = wrap_text(parts[i].as_str(), PRETTY_WRAP_WIDTH);
        assert(section@ == sections[i as int]);
        let ghost before = formatted.deep_view();
        formatted.push(section);
        assert(formatted.deep_view() =~= before.push(section@));
        assert(sections.take(i + 1) =~= sections.take(i as int).push(sections[i as int]));
    }
    assert(sections.take(sections.len() as int) =~= sections);
    text::join_texts(&formatted, "\n\n")
}

/// The shape of sentences: none is empty or has white space at its ends, each has a terminator
/// at most at its end, and all but the last have one there.
pub proof fn lemma_sentences_shape(s: Seq<char>)
    ensures
        forall|i: int| 0 <= i < sentences(s).len() ==> is_sentence(#[trigger] sentences(s)[i]),
        forall|i: int|
            0 <= i < sentences(s).len() - 1 ==> is_terminator((#[trigger] sentences(s)[i]).last()),
    decreases s.len(),
{
    let n = text::run_len(s, non_terminators()) as int;
    text::lemma_run_len(s, non_terminators());
    if n < s.len() {
        let raw = s.take(n + 1);
        let rest = text::trim_start(s.skip(n + 1));
        text::lemma_run_len(s.skip(n + 1), text::spaces());
        lemma_sentences_shape(rest);
        text::lemma_trimmed_ends(raw);
        lemma_trimmed_keeps_end(raw);
        let first = text::trimmed(raw);
        assert(is_sentence(first)) by {
            lemma_trimmed_is_part(raw);
            let at = choose|at: int| 0 <= at && #[trigger] raw.skip(at).len() >= 0 && at
                + first.len() <= raw.len() && first == raw.subrange(at, at + first.len());
            assert forall|k: int| 0 <= k < first.len() - 1 implies !is_terminator(
                #[trigger] first[k],
            ) by {
                assert(first[k] == s[at + k]);
                assert(non_terminators()(s[at + k]));
            }
        }
        let all = sentences(s);
        assert(all =~= seq![first] + sentences(rest));
        assert forall|i: int| 0 <= i < all.len() implies is_sentence(#[trigger] all[i]) by {
            if i > 0 {
                assert(all[i] == sentences(rest)[i - 1]);
            }
        }
        assert forall|i: int| 0 <= i < all.len() - 1 implies is_terminator(
            (#[trigger] all[i]).last(),
        ) by {
            if i > 0 {
                assert(all[i] == sentences(rest)[i - 1]);
            }
        }
    } else {
        text::lemma_trimmed_ends(s);
        lemma_trimmed_is_part(s);
        let first = text::trimmed(s);
        let at = choose|at: int| 0 <= at && #[trigger] s.skip(at).len() >= 0 && at + first.len()
            <= s.len() && first == s.subrange(at, at + first.len());
        assert forall|k: int| 0 <= k < first.len() - 1 implies !is_terminator(
            #[trigger] first[k],
        ) by {
            assert(first[k] == s[at + k]);
            assert(non_terminators()(s[at + k]));
        }
    }
}

/// Whether `s` is not empty, has no white space at its ends and a terminator at most at its end.
pub open spec fn is_sentence(s: Seq<char>) -> bool {
    &&& s.len() > 0
    &&& !text::is_space(s[0])
    &&& !text::is_space(s.last())
    &&& forall|k: int| 0 <= k < s.len() - 1 ==> !is_terminator(#[trigger] s[k])
}

/// What trimming leaves is a part of the text.
proof fn lemma_trimmed_is_part(s: Seq<char>)
    ensures
        exists|at: int|
            0 <= at && #[trigger] s.skip(at).len() >= 0 && at + text::trimmed(s).len() <= s.len()
                && text::trimmed(s) == s.subrange(at, at + text::trimmed(s).len()),
{
    let at = text::run_len(s, text::spaces()) as int;
    text::lemma_run_len(s, text::spaces());
    text::lemma_trim_end(text::trim_start(s));
    let t = text::trimmed(s);
    assert(t =~= s.subrange(at, at + t.len()));
    assert(s.skip(at).len() >= 0);
}

/// Trimming keeps the last character where that is no white space.
proof fn lemma_trimmed_keeps_end(s: Seq<char>)
    requires
        s.len() > 0,
        !text::is_space(s.last()),
    ensures
        text::trimmed(s).len() > 0,
        text::trimmed(s).last() == s.last(),
{
    text::lemma_run_len(s, text::spaces());
    let n = text::run_len(s, text::spaces()) as int;
    if n == s.len() {
        assert(text::spaces()(s[s.len() - 1]));
    }
    assert(text::trim_start(s).last() == s.last());
}

/// The sentences of a text have its ink.
pub proof fn lemma_sentences_ink(s: Seq<char>)
    ensures
        sentences(s).map_values(|x: Seq<char>| text::ink(x)).flatten() == text::ink(s),
    decreases s.len(),
{
    let n = text::run_len(s, non_terminators()) as int;
    text::lemma_run_len(s, non_terminators());
    let inked = sentences(s).map_values(|x: Seq<char>| text::ink(x));
    if n < s.len() {
        let raw = s.take(n + 1);
        let tail = s.skip(n + 1);
        let rest = text::trim_start(tail);
        text::lemma_run_len(tail, text::spaces());
        lemma_sentences_ink(rest);
        text::lemma_ink_trim(raw);
        text::lemma_ink_trim(tail);
        text::lemma_ink_add(raw, tail);
        assert(s =~= raw + tail);
        assert(inked.drop_first() =~= sentences(rest).map_values(|x: Seq<char>| text::ink(x)));
        assert(inked.first() == text::ink(raw));
    } else {
        text::lemma_ink_trim(s);
        text::lemma_trimmed_ends(s);
        if text::trimmed(s).len() > 0 {
            assert(inked =~= seq![text::ink(s)]);
            seq![text::ink(s)].lemma_flatten_one_element();
        } else {
            assert(text::ink(s) =~= Seq::<char>::empty());
        }
    }
}

/// The words of lines, one line after another.
pub open spec fn words_of_lines(lines: Seq<Seq<char>>) -> Seq<Seq<char>>
    decreases lines.len(),
{
    if lines.len() == 0 {
        seq![]
    } else {
        words_of_lines(lines.drop_last()) + text::words(lines.last())
    }
}

/// Setting words keeps them all, in order.
proof fn lemma_set_words_keeps(words: Seq<Seq<char>>, width: nat)
    requires
        forall|i: int| 0 <= i < words.len() ==> text::is_word(#[trigger] words[i]),
    ensures
        words_of_lines(set_words(words, width).0) + text::words(set_words(words, width).1) == words,
    decreases words.len(),
{
    let (lines, line) = set_words(words, width);
    if words.len() == 0 {
        text::lemma_no_words(line);
        assert(words_of_lines(lines) + text::words(line) =~= words);
    } else {
        let front = words.drop_last();
        let word = words.last();
        assert forall|i: int| 0 <= i < front.len() implies text::is_word(#[trigger] front[i]) by {
            assert(front[i] == words[i]);
        }
        lemma_set_words_keeps(front, width);
        let (before, at_hand) = set_words(front, width);
        assert(text::is_word(words[words.len() - 1]));
        text::lemma_words_one(word);
        if at_hand.len() == 0 {
            text::lemma_no_words(at_hand);
        } else if text::byte_len(at_hand) + 1 + text::byte_len(word) > width {
            assert(lines.drop_last() =~= before);
        } else {
            text::lemma_words_parted(at_hand, ' ', word);
        }
        assert(words_of_lines(lines) + text::words(line) =~= front.push(word));
        assert(front.push(word) =~= words);
    }
}

/// Joined lines have the words of the lines.
proof fn lemma_words_of_joined(lines: Seq<Seq<char>>)
    ensures
        text::words(text::join(lines, "\n"@)) == words_of_lines(lines),
    decreases lines.len(),
{
    reveal_strlit("\n");
    assert("\n"@ =~= seq!['\n']);
    if lines.len() == 0 {
        text::lemma_no_words(text::join(lines, "\n"@));
    } else {
        lemma_words_of_joined(lines.drop_last());
        if lines.len() == 1 {
            assert(lines.drop_last() =~= Seq::<Seq<char>>::empty());
            assert(words_of_lines(lines) =~= text::words(lines[0]));
        } else {
            text::lemma_words_parted(text::join(lines.drop_last(), "\n"@), '\n', lines.last());
        }
    }
}

/// Wrapping keeps all words, in order.
pub proof fn lemma_wrapped_words(s: Seq<char>, width: nat)
    ensures
        text::words(wrapped(s, width)) == text::words(s),
{
    let (lines, line) = set_words(text::words(s), width);
    text::lemma_words_are_words(s);
    lemma_set_words_keeps(text::words(s), width);
    lemma_words_of_joined(wrapped_lines(s, width));
    if line.len() > 0 {
        assert(wrapped_lines(s, width).drop_last() =~= lines);
    } else {
        text::lemma_no_words(line);
        assert(words_of_lines(lines) + text::words(line) =~= words_of_lines(lines));
    }
}

/// Wrapping keeps all characters that are no white space, in order.
pub proof fn lemma_wrapped_ink(s: Seq<char>, width: nat)
    ensures
        text::ink(wrapped(s, width)) == text::ink(s),
{
    lemma_wrapped_words(s, width);
    text::lemma_ink_words(wrapped(s, width));
    text::lemma_ink_words(s);
}

/// Whether a line keeps to the width, or cannot since it is a single word.
pub open spec fn keeps_to_width(line: Seq<char>, width: nat) -> bool {
    text::byte_len(line) <= width || text::is_word(line)
}

/// Every line that is set keeps to the width; a finished line and what follows it would not
/// together.
proof fn lemma_set_words_width(words: Seq<Seq<char>>, width: nat)
    requires
        forall|i: int| 0 <= i < words.len() ==> text::is_word(#[trigger] words[i]),
    ensures
        ({
            let (lines, line) = set_words(words, width);
            &&& forall|i: int|
                0 <= i < lines.len() ==> (#[trigger] lines[i]).len() > 0 && keeps_to_width(
                    lines[i],
                    width,
                ) && !lines[i].contains('\n')
            &&& words.len() > 0 ==> line.len() > 0
            &&& keeps_to_width(line, width) && !line.contains('\n')
            &&& forall|i: int|
                0 <= i < lines.len() ==> text::byte_len(#[trigger] lines[i]) + 1 + text::byte_len(
                    if i + 1 < lines.len() {
                        lines[i + 1]
                    } else {
                        line
                    },
                ) > width
        }),
    decreases words.len(),
{
    if words.len() == 0 {
        text::lemma_byte_len_positive(set_words(words, width).1);
    } else {
        let front = words.drop_last();
        let word = words.last();
        assert forall|i: int| 0 <= i < front.len() implies text::is_word(#[trigger] front[i]) by {
            assert(front[i] == words[i]);
        }
        lemma_set_words_width(front, width);
        let (before, at_hand) = set_words(front, width);
        let (lines, line) = set_words(words, width);
        assert(text::is_word(words[words.len() - 1]));
        assert(!word.contains('\n')) by {
            if word.contains('\n') {
                let k = choose|k: int| 0 <= k < word.len() && word[k] == '\n';
                assert(!text::is_space(word[k]));
            }
        }
        if at_hand.len() == 0 {
            assert(front.len() == 0);
        } else if text::byte_len(at_hand) + 1 + text::byte_len(word) > width {
            assert forall|i: int| 0 <= i < lines.len() implies (#[trigger] lines[i]).len() > 0
                && keeps_to_width(lines[i], width) && !lines[i].contains('\n') by {
                if i < before.len() {
                    assert(lines[i] == before[i]);
                }
            }
            assert forall|i: int| 0 <= i < lines.len() implies text::byte_len(#[trigger] lines[i])
                + 1 + text::byte_len(
                if i + 1 < lines.len() {
                    lines[i + 1]
                } else {
                    line
                },
            ) > width by {
                if i < before.len() {
                    assert(lines[i] == before[i]);
                    if i + 1 < before.len() {
                        assert(lines[i + 1] == before[i + 1]);
                    }
                }
            }
        } else {
            let longer = at_hand + seq![' '] + word;
            text::lemma_byte_len_add(at_hand + seq![' '], word);
            text::lemma_byte_len_add(at_hand, seq![' ']);
            lemma_blank_byte_len();
            assert(!longer.contains('\n')) by {
                if longer.contains('\n') {
                    let k = choose|k: int| 0 <= k < longer.len() && longer[k] == '\n';
                    if k < at_hand.len() {
                        assert(at_hand[k] == '\n');
                    } else if k > at_hand.len() {
                        assert(word[k - at_hand.len() - 1] == '\n');
                    }
                }
            }
        }
    }
}

/// A blank takes one byte.
proof fn lemma_blank_byte_len()
    ensures
        text::byte_len(seq![' ']) == 1,
{
    reveal_with_fuel(vstd::utf8::encode_utf8, 2);
    assert(seq![' '].drop_first() =~= Seq::<char>::empty());
}

/// Every line of a wrapped text keeps to the width unless it is a single word, and no two
/// neighbours would fit on one line.
pub proof fn lemma_wrapped_width(s: Seq<char>, width: nat)
    ensures
        forall|i: int|
            0 <= i < wrapped_lines(s, width).len() ==> keeps_to_width(
                #[trigger] wrapped_lines(s, width)[i],
                width,
            ),
        forall|i: int|
            0 <= i < wrapped_lines(s, width).len() - 1 ==> text::byte_len(
                #[trigger] wrapped_lines(s, width)[i],
            ) + 1 + text::byte_len(wrapped_lines(s, width)[i + 1]) > width,
{
    text::lemma_words_are_words(s);
    lemma_set_words_width(text::words(s), width);
    let (lines, line) = set_words(text::words(s), width);
    let all = wrapped_lines(s, width);
    assert forall|i: int| 0 <= i < all.len() implies keeps_to_width(#[trigger] all[i], width) by {
        if i < lines.len() {
            assert(all[i] == lines[i]);
        }
    }
    assert forall|i: int| 0 <= i < all.len() - 1 implies text::byte_len(#[trigger] all[i]) + 1
        + text::byte_len(all[i + 1]) > width by {
        assert(all[i] == lines[i]);
        if i + 1 < lines.len() {
            assert(all[i + 1] == lines[i + 1]);
        }
    }
}

/// Whether every line of a text keeps to a width unless it is a single word.
pub open spec fn lines_keep_to_width(s: Seq<char>, width: nat) -> bool {
    forall|i: int|
        0 <= i < text::split_on(s, '\n').len() ==> keeps_to_width(
            #[trigger] text::split_on(s, '\n')[i],
            width,
        )
}

/// Lines on both sides of a line feed.
proof fn lemma_lines_parted(a: Seq<char>, b: Seq<char>, width: nat)
    requires
        lines_keep_to_width(a, width),
        lines_keep_to_width(b, width),
    ensures
        lines_keep_to_width(a + seq!['\n'] + b, width),
{
    text::lemma_split_parted(a, '\n', b);
    let left = text::split_on(a, '\n');
    let right = text::split_on(b, '\n');
    let all = text::split_on(a + seq!['\n'] + b, '\n');
    assert forall|i: int| 0 <= i < all.len() implies keeps_to_width(#[trigger] all[i], width) by {
        if i < left.len() {
            assert(all[i] == left[i]);
        } else {
            assert(all[i] == right[i - left.len()]);
        }
    }
}

/// A line that keeps to the width is a text whose lines do.
proof fn lemma_one_line(line: Seq<char>, width: nat)
    requires
        keeps_to_width(line, width),
        !line.contains('\n'),
    ensures
        lines_keep_to_width(line, width),
{
    text::lemma_split_whole(line, '\n');
}

/// Joined lines keep to the width where each does.
proof fn lemma_joined_lines(lines: Seq<Seq<char>>, width: nat)
    requires
        forall|i: int|
            0 <= i < lines.len() ==> keeps_to_width(#[trigger] lines[i], width)
                && !lines[i].contains('\n'),
    ensures
        lines_keep_to_width(text::join(lines, "\n"@), width),
    decreases lines.len(),
{
    reveal_strlit("\n");
    assert("\n"@ =~= seq!['\n']);
    if lines.len() == 0 {
        let none = text::join(lines, "\n"@);
        text::lemma_byte_len_positive(none);
        lemma_one_line(none, width);
    } else if lines.len() == 1 {
        lemma_one_line(lines[0], width);
    } else {
        let front = lines.drop_last();
        assert forall|i: int| 0 <= i < front.len() implies keeps_to_width(
            #[trigger] front[i],
            width,
        ) && !front[i].contains('\n') by {
            assert(front[i] == lines[i]);
        }
        lemma_joined_lines(front, width);
        assert(keeps_to_width(lines[lines.len() - 1], width));
        lemma_one_line(lines.last(), width);
        lemma_lines_parted(text::join(front, "\n"@), lines.last(), width);
    }
}

/// The lines of a wrapped text keep to the width.
pub proof fn lemma_wrapped_lines_keep(s: Seq<char>, width: nat)
    ensures
        lines_keep_to_width(wrapped(s, width), width),
{
    text::lemma_words_are_words(s);
    lemma_set_words_width(text::words(s), width);
    let (lines, line) = set_words(text::words(s), width);
    let all = wrapped_lines(s, width);
    assert forall|i: int| 0 <= i < all.len() implies keeps_to_width(#[trigger] all[i], width)
        && !all[i].contains('\n') by {
        if i < lines.len() {
            assert(all[i] == lines[i]);
        }
    }
    lemma_joined_lines(all, width);
}

/// Sections with blank lines between them keep to the width where each does.
proof fn lemma_joined_sections(sections: Seq<Seq<char>>, width: nat)
    requires
        forall|i: int|
            0 <= i < sections.len() ==> lines_keep_to_width(#[trigger] sections[i], width),
    ensures
        lines_keep_to_width(text::join(sections, "\n\n"@), width),
    decreases sections.len(),
{
    reveal_strlit("\n\n");
    let gap = "\n\n"@;
    let none = Seq::<char>::empty();
    text::lemma_byte_len_positive(none);
    lemma_one_line(none, width);
    if sections.len() == 0 {
        assert(text::join(sections, gap) =~= none);
    } else if sections.len() > 1 {
        let front = sections.drop_last();
        assert forall|i: int| 0 <= i < front.len() implies lines_keep_to_width(
            #[trigger] front[i],
            width,
        ) by {
            assert(front[i] == sections[i]);
        }
        lemma_joined_sections(front, width);
        let start = text::join(front, gap);
        assert(lines_keep_to_width(sections[sections.len() - 1], width));
        lemma_lines_parted(start, none, width);
        lemma_lines_parted(start + seq!['\n'] + none, sections.last(), width);
        assert(start + seq!['\n'] + none + seq!['\n'] + sections.last() =~= start + gap
            + sections.last());
    }
}

/// Every line of a pretty summary keeps to the width unless it is a single word.
pub proof fn lemma_pretty_lines_keep(s: Seq<char>)
    ensures
        lines_keep_to_width(pretty(s), PRETTY_WRAP_WIDTH as nat),
{
    let width = PRETTY_WRAP_WIDTH as nat;
    let sections = sentences(s).map_values(|x: Seq<char>| wrapped(x, PRETTY_WRAP_WIDTH as nat));
    assert forall|i: int| 0 <= i < sections.len() implies lines_keep_to_width(
        #[trigger] sections[i],
        width,
    ) by {
        lemma_wrapped_lines_keep(sentences(s)[i], width);
    }
    lemma_joined_sections(sections, width);
}

/// A pretty summary has all characters of the summary that are no white space, in order.
pub proof fn lemma_pretty_ink(s: Seq<char>)
    ensures
        text::ink(pretty(s)) == text::ink(s),
{
    reveal_strlit("\n\n");
    let width = PRETTY_WRAP_WIDTH as nat;
    let sections = sentences(s).map_values(|x: Seq<char>| wrapped(x, PRETTY_WRAP_WIDTH as nat));
    text::lemma_ink_spaces("\n\n"@);
    text::lemma_ink_join(sections, "\n\n"@);
    lemma_sentences_ink(s);
    let inked_sections = sections.map_values(|p: Seq<char>| text::ink(p));
    let inked_sentences = sentences(s).map_values(|x: Seq<char>| text::ink(x));
    assert forall|i: int| 0 <= i < sections.len() implies #[trigger] inked_sections[i]
        == inked_sentences[i] by {
        lemma_wrapped_ink(sentences(s)[i], width);
    }
    assert(inked_sections =~= inked_sentences);
}

/// No paragraph of a pretty summary is empty: there is one for each sentence.
pub proof fn lemma_paragraphs_not_empty(s: Seq<char>, i: int)
    requires
        0 <= i < sentences(s).len(),
    ensures
        wrapped(sentences(s)[i], PRETTY_WRAP_WIDTH as nat).len() > 0,
{
    let x = sentences(s)[i];
    lemma_sentences_shape(s);
    assert(is_sentence(x));
    lemma_wrapped_ink(x, PRETTY_WRAP_WIDTH as nat);
    text::lemma_ink_has(x, 0);
    if wrapped(x, PRETTY_WRAP_WIDTH as nat).len() == 0 {
        text::lemma_ink_spaces(wrapped(x, PRETTY_WRAP_WIDTH as nat));
    }
}

/// One more word goes to the end of the last line, behind a blank, if and only if it fits there
/// within the width; otherwise it begins a new line. A text without words has no lines.
pub proof fn lemma_one_more_word(s: Seq<char>, c: char, word: Seq<char>, width: nat)
    requires
        text::is_space(c),
        word.len() > 0,
        forall|i: int| 0 <= i < word.len() ==> !text::is_space(#[trigger] word[i]),
    ensures
        text::words(s).len() == 0 ==> wrapped_lines(s, width) == Seq::<Seq<char>>::empty(),
        ({
            let before = wrapped_lines(s, width);
            wrapped_lines(s + seq![c] + word, width) == if before.len() > 0 && text::byte_len(
                before.last(),
            ) + 1 + text::byte_len(word) <= width {
                before.drop_last().push(before.last() + seq![' '] + word)
            } else {
                before.push(word)
            }
        }),
{
    let words = text::words(s);
    text::lemma_words_parted(s, c, word);
    text::lemma_words_one(word);
    assert(words + seq![word] =~= words.push(word));
    assert(words.push(word).drop_last() =~= words);
    text::lemma_words_are_words(s);
    lemma_set_words_width(words, width);
    let (lines, line) = set_words(words, width);
    let before = wrapped_lines(s, width);
    if words.len() == 0 {
        assert(before =~= Seq::<Seq<char>>::empty());
    } else {
        assert(before.drop_last() =~= lines);
        assert(before.last() == line);
    }
    assert(wrapped_lines(s + seq![c] + word, width) =~= if before.len() > 0 && text::byte_len(
        before.last(),
    ) + 1 + text::byte_len(word) <= width {
        before.drop_last().push(before.last() + seq![' '] + word)
    } else {
        before.push(word)
    });
}

/// A text is wrapped by its words alone: how they are spaced does not matter. The lines of what is
/// wrapped, parted at line feeds, are those lines, and none of them is empty.
pub proof fn lemma_wrapped_is(s: Seq<char>, other: Seq<char>, width: nat)
    ensures
        text::words(s) == text::words(other) ==> wrapped(s, width) == wrapped(other, width),
        text::words(s).len() == 0 ==> wrapped(s, width) == Seq::<char>::empty(),
        text::words(s).len() > 0 ==> text::split_on(wrapped(s, width), '\n') == wrapped_lines(
            s,
            width,
        ),
        forall|i: int|
            0 <= i < wrapped_lines(s, width).len() ==> (#[trigger] wrapped_lines(s, width)[i]).len()
                > 0,
{
    let words = text::words(s);
    text::lemma_words_are_words(s);
    lemma_set_words_width(words, width);
    let (lines, line) = set_words(words, width);
    let all = wrapped_lines(s, width);
    if words.len() == 0 {
        assert(all =~= Seq::<Seq<char>>::empty());
    } else {
        assert forall|i: int| 0 <= i < all.len() implies (#[trigger] all[i]).len() > 0
            && !all[i].contains('\n') by {
            if i < lines.len() {
                assert(all[i] == lines[i]);
            }
        }
        lemma_split_joined(all);
    }
}

/// Lines without line feeds that are joined by them are parted by them again.
pub proof fn lemma_split_joined(lines: Seq<Seq<char>>)
    requires
        lines.len() > 0,
        forall|i: int| 0 <= i < lines.len() ==> !(#[trigger] lines[i]).contains('\n'),
    ensures
        text::split_on(text::join(lines, "\n"@), '\n') == lines,
    decreases lines.len(),
{
    reveal_strlit("\n");
    assert("\n"@ =~= seq!['\n']);
    assert(!lines[lines.len() - 1].contains('\n'));
    text::lemma_split_whole(lines.last(), '\n');
    if lines.len() == 1 {
        assert(lines =~= seq![lines[0]]);
    } else {
        let front = lines.drop_last();
        assert forall|i: int| 0 <= i < front.len() implies !(#[trigger] front[i]).contains(
            '\n',
        ) by {
            assert(front[i] == lines[i]);
        }
        lemma_split_joined(front);
        text::lemma_split_parted(text::join(front, "\n"@), '\n', lines.last());
        assert(front + seq![lines.last()] =~= lines);
    }
}

/// A terminator ends a sentence, and what follows makes the further ones; a text without terminator
/// is one sentence, trimmed, or none where it holds nothing but white space.
pub proof fn lemma_sentences_are(a: Seq<char>, c: char, b: Seq<char>)
    requires
        forall|i: int|
            0 <= i < a.len() ==> #[trigger] a[i] != '.' && a[i] != '!' && a[i] != '?',
        c == '.' || c == '!' || c == '?',
    ensures
        sentences(a + seq![c] + b) == seq![text::trimmed(a.push(c))] + sentences(b),
        sentences(a) == if text::trimmed(a).len() > 0 {
            seq![text::trimmed(a)]
        } else {
            Seq::<Seq<char>>::empty()
        },
{
    let s = a + seq![c] + b;
    let n = a.len() as int;
    text::lemma_run_len_is(a, non_terminators(), n);
    assert(s[n] == c);
    assert forall|i: int| 0 <= i < n implies non_terminators()(#[trigger] s[i]) by {
        assert(s[i] == a[i]);
    }
    text::lemma_run_len_is(s, non_terminators(), n);
    assert(s.take(n + 1) =~= a.push(c));
    assert(s.skip(n + 1) =~= b);
    lemma_sentences_skip_spaces(b);
}

/// White space before a text does not change its sentences.
proof fn lemma_sentences_skip_spaces(s: Seq<char>)
    ensures
        sentences(text::trim_start(s)) == sentences(s),
{
    let k = text::run_len(s, text::spaces()) as int;
    text::lemma_run_len(s, text::spaces());
    let t = text::trim_start(s);
    assert(t =~= s.skip(k));
    if t.len() > 0 {
        assert(t[0] == s[k]);
    }
    text::lemma_run_len_is(t, text::spaces(), 0);
    assert(text::trim_start(t) =~= t);
    let n = text::run_len(t, non_terminators()) as int;
    text::lemma_run_len(t, non_terminators());
    assert forall|i: int| 0 <= i < k + n implies non_terminators()(#[trigger] s[i]) by {
        if i < k {
            assert(text::spaces()(s[i]));
        } else {
            assert(t[i - k] == s[i]);
        }
    }
    if n < t.len() {
        assert(s[k + n] == t[n]);
    }
    text::lemma_run_len_is(s, non_terminators(), k + n);
    if n < t.len() {
        let raw = t.take(n + 1);
        let whole = s.take(k + n + 1);
        assert(t.skip(n + 1) =~= s.skip(k + n + 1));
        assert(text::trimmed(whole) == text::trimmed(raw)) by {
            assert(whole =~= s.take(k) + raw);
            lemma_trimmed_after_spaces(s.take(k), raw);
        }
    } else {
        assert(s =~= s.take(k) + t);
        lemma_trimmed_after_spaces(s.take(k), t);
    }
}

/// White space before a text does not change what trimming leaves.
proof fn lemma_trimmed_after_spaces(a: Seq<char>, s: Seq<char>)
    requires
        forall|i: int| 0 <= i < a.len() ==> text::is_space(#[trigger] a[i]),
    ensures
        text::trimmed(a + s) == text::trimmed(s),
{
    let k = text::run_len(s, text::spaces()) as int;
    text::lemma_run_len(s, text::spaces());
    let all = a + s;
    assert forall|i: int| 0 <= i < a.len() + k implies text::spaces()(#[trigger] all[i]) by {
        if i < a.len() {
            assert(all[i] == a[i]);
        } else {
            assert(all[i] == s[i - a.len()]);
            assert(text::spaces()(s[i - a.len()]));
        }
    }
    if k < s.len() {
        assert(all[a.len() + k] == s[k]);
    }
    text::lemma_run_len_is(all, text::spaces(), a.len() + k);
    assert(text::trim_start(all) =~= text::trim_start(s));
}

/// A pretty summary is one paragraph for each sentence, in their order, with a blank line between
/// neighbours: there are as many as there are sentences, each has the words of its sentence, and
/// none is empty or holds a blank line itself, so blank lines part them and nothing else.
pub proof fn lemma_pretty_paragraphs(s: Seq<char>) -> (paragraphs: Seq<Seq<char>>)
    ensures
        pretty(s) == text::join(paragraphs, "\n\n"@),
        paragraphs.len() == sentences(s).len(),
        forall|i: int|
            0 <= i < paragraphs.len() ==> text::words(#[trigger] paragraphs[i]) == text::words(
                sentences(s)[i],
            ),
        forall|i: int, k: int|
            0 <= i < paragraphs.len() && 0 <= k < text::split_on(paragraphs[i], '\n').len()
                ==> (#[trigger] text::split_on(paragraphs[i], '\n')[k]).len() > 0,
        forall|i: int|
            0 <= i < paragraphs.len() ==> #[trigger] paragraphs[i] == wrapped(sentences(s)[i], 80),
{
    let all = sentences(s);
    let paragraphs = all.map_values(|x: Seq<char>| wrapped(x, PRETTY_WRAP_WIDTH as nat));
    lemma_sentences_shape(s);
    assert forall|i: int| 0 <= i < paragraphs.len() implies text::words(#[trigger] paragraphs[i])
        == text::words(all[i]) && paragraphs[i] == wrapped(all[i], 80) by {
        lemma_wrapped_words(all[i], 80);
    }
    assert forall|i: int, k: int|
        0 <= i < paragraphs.len() && 0 <= k < text::split_on(paragraphs[i], '\n').len() implies (
    #[trigger] text::split_on(paragraphs[i], '\n')[k]).len() > 0 by {
        assert(is_sentence(all[i]));
        lemma_has_a_word(all[i]);
        lemma_wrapped_is(all[i], all[i], 80);
        assert(paragraphs[i] == wrapped(all[i], 80));
        assert(text::split_on(paragraphs[i], '\n')[k] == wrapped_lines(all[i], 80)[k]);
    }
    paragraphs
}

/// A text that does not begin with white space has a word.
proof fn lemma_has_a_word(s: Seq<char>)
    requires
        s.len() > 0,
        !text::is_space(s[0]),
    ensures
        text::words(s).len() > 0,
{
    text::lemma_ink_has(s, 0);
    text::lemma_ink_words(s);
    if text::words(s).len() == 0 {
        assert(text::words(s).flatten() =~= Seq::<char>::empty());
    }
}

/// A summary that begins with a sentence is laid out as the paragraph of that sentence, a blank line
/// and the layout of what follows; a single sentence is a single paragraph.
pub proof fn lemma_pretty_in_turn(a: Seq<char>, c: char, b: Seq<char>)
    requires
        forall|i: int|
            0 <= i < a.len() ==> #[trigger] a[i] != '.' && a[i] != '!' && a[i] != '?',
        c == '.' || c == '!' || c == '?',
        sentences(b).len() > 0,
    ensures
        pretty(a + seq![c] + b) == wrapped(text::trimmed(a.push(c)), 80) + "\n\n"@ + pretty(b),
        pretty(a + seq![c]) == wrapped(text::trimmed(a.push(c)), 80),
{
    let none = Seq::<char>::empty();
    lemma_sentences_are(a, c, b);
    lemma_sentences_are(a, c, none);
    assert(a + seq![c] + none =~= a + seq![c]);
    text::lemma_run_len(none, non_terminators());
    text::lemma_trimmed_ends(none);
    assert(sentences(none) =~= Seq::<Seq<char>>::empty());
    let f = |x: Seq<char>| wrapped(x, PRETTY_WRAP_WIDTH as nat);
    let first = wrapped(text::trimmed(a.push(c)), 80);
    let whole = sentences(a + seq![c] + b).map_values(f);
    let rest = sentences(b).map_values(f);
    assert(whole =~= seq![first] + rest);
    lemma_join_front(first, rest, "\n\n"@);
    assert(sentences(a + seq![c]) =~= seq![text::trimmed(a.push(c))]);
    assert(sentences(a + seq![c]).map_values(f) =~= seq![first]);
}

/// Joining with one more part in front.
proof fn lemma_join_front(first: Seq<char>, rest: Seq<Seq<char>>, sep: Seq<char>)
    requires
        rest.len() > 0,
    ensures
        text::join(seq![first] + rest, sep) == first + sep + text::join(rest, sep),
    decreases rest.len(),
{
    let whole = seq![first] + rest;
    if rest.len() == 1 {
        assert(whole.drop_last() =~= seq![first]);
        assert(rest[0] == rest.last());
        assert(whole.last() == rest[0]);
        assert(text::join(whole.drop_last(), sep) == first);
    } else {
        lemma_join_front(first, rest.drop_last(), sep);
        assert(whole.drop_last() =~= seq![first] + rest.drop_last());
        assert(whole.last() == rest.last());
        assert(text::join(whole, sep) =~= first + sep + text::join(rest, sep));
    }
}

} // verus!
