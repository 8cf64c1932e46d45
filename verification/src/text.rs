//! Text as sequences of characters: white space, trimming, words, splitting, joining, searching.

use vstd::prelude::*;

verus! {

/// `String::push` appends one character.
pub assume_specification[ String::push ](s: &mut String, ch: char)
    ensures
        final(s)@ == old(s)@.push(ch),
;

/// Whether `c` has the Unicode `White_Space` property.
pub open spec fn is_space(c: char) -> bool {
    ||| '\u{9}' <= c && c <= '\u{d}'
    ||| c == '\u{20}'
    ||| c == '\u{85}'
    ||| c == '\u{a0}'
    ||| c == '\u{1680}'
    ||| '\u{2000}' <= c && c <= '\u{200a}'
    ||| c == '\u{2028}'
    ||| c == '\u{2029}'
    ||| c == '\u{202f}'
    ||| c == '\u{205f}'
    ||| c == '\u{3000}'
}

/// Decides [`is_space`].
pub fn char_is_space(c: char) -> (r: bool)
    ensures
        r == is_space(c),
{
    ('\u{9}' <= c && c <= '\u{d}') || c == '\u{20}' || c == '\u{85}' || c == '\u{a0}'
        || c == '\u{1680}' || ('\u{2000}' <= c && c <= '\u{200a}') || c == '\u{2028}'
        || c == '\u{2029}' || c == '\u{202f}' || c == '\u{205f}' || c == '\u{3000}'
}

/// The predicate of white space characters.
pub open spec fn spaces() -> spec_fn(char) -> bool {
    |c: char| is_space(c)
}

/// The predicate of characters that are no white space.
pub open spec fn inks() -> spec_fn(char) -> bool {
    |c: char| !is_space(c)
}

/// The predicate of characters other than `sep`.
pub open spec fn other_than(sep: char) -> spec_fn(char) -> bool {
    |c: char| c != sep
}

/// The characters of `s` that are no white space, in their order.
pub open spec fn ink(s: Seq<char>) -> Seq<char> {
    s.filter(inks())
}

/// The length of the longest prefix of `s` whose characters all satisfy `p`.
pub open spec fn run_len(s: Seq<char>, p: spec_fn(char) -> bool) -> nat
    decreases s.len(),
{
    if s.len() > 0 && p(s[0]) {
        1 + run_len(s.drop_first(), p)
    } else {
        0
    }
}

/// `s` without its leading white space.
pub open spec fn trim_start(s: Seq<char>) -> Seq<char> {
    s.skip(run_len(s, spaces()) as int)
}

/// `s` without its trailing white space.
pub open spec fn trim_end(s: Seq<char>) -> Seq<char>
    decreases s.len(),
{
    if s.len() > 0 && is_space(s.last()) {
        trim_end(s.drop_last())
    } else {
        s
    }
}

/// `s` without leading and trailing white space.
pub open spec fn trimmed(s: Seq<char>) -> Seq<char> {
    trim_end(trim_start(s))
}

/// The maximal runs of characters in `s` that hold no white space, in their order.
pub open spec fn words(s: Seq<char>) -> Seq<Seq<char>>
    decreases s.len(),
{
    let t = trim_start(s);
    if t.len() == 0 {
        seq![]
    } else {
        let n = run_len(t, inks()) as int;
        proof {
            lemma_run_len(s, spaces());
            lemma_run_len(t, inks());
        }
        seq![t.take(n)] + words(t.skip(n))
    }
}

/// The parts of `s` between the occurrences of `sep`; one more than there are occurrences.
pub open spec fn split_on(s: Seq<char>, sep: char) -> Seq<Seq<char>>
    decreases s.len(),
{
    let n = run_len(s, other_than(sep)) as int;
    if n < s.len() {
        seq![s.take(n)] + split_on(s.skip(n + 1), sep)
    } else {
        seq![s]
    }
}

/// `parts` one after another with `sep` between neighbours.
pub open spec fn join(parts: Seq<Seq<char>>, sep: Seq<char>) -> Seq<char>
    decreases parts.len(),
{
    if parts.len() == 0 {
        seq![]
    } else if parts.len() == 1 {
        parts[0]
    } else {
        join(parts.drop_last(), sep) + sep + parts.last()
    }
}

/// Whether `needle` occurs in `s` at position `at`.
pub open spec fn occurs_at(s: Seq<char>, needle: Seq<char>, at: int) -> bool {
    &&& 0 <= at
    &&& at + needle.len() <= s.len()
    &&& s.subrange(at, at + needle.len()) == needle
}

/// Whether `needle` occurs somewhere in `s`.
pub open spec fn has_text(s: Seq<char>, needle: Seq<char>) -> bool {
    exists|at: int| occurs_at(s, needle, at)
}

/// `c` with `a` to `z` replaced by `A` to `Z`.
pub open spec fn ascii_upper(c: char) -> char {
    if 'a' <= c && c <= 'z' {
        ((c as u8 - 32) as u8) as char
    } else {
        c
    }
}

/// `c` with `A` to `Z` replaced by `a` to `z`.
pub open spec fn ascii_lower(c: char) -> char {
    if 'A' <= c && c <= 'Z' {
        ((c as u8 + 32) as u8) as char
    } else {
        c
    }
}

/// `s` with its ASCII letters in upper case.
pub open spec fn upper(s: Seq<char>) -> Seq<char> {
    Seq::new(s.len(), |i: int| ascii_upper(s[i]))
}

/// `s` with its ASCII letters in lower case.
pub open spec fn lower(s: Seq<char>) -> Seq<char> {
    Seq::new(s.len(), |i: int| ascii_lower(s[i]))
}

/// The number of bytes that the UTF-8 encoding of `s` takes.
pub open spec fn byte_len(s: Seq<char>) -> nat {
    vstd::utf8::encode_utf8(s).len()
}

/// The first line of `s`: what stands before the first line feed, without the carriage return
/// that belongs to that line feed.
pub open spec fn first_line(s: Seq<char>) -> Seq<char> {
    let n = run_len(s, other_than('\n')) as int;
    if 0 < n && n < s.len() && s[n - 1] == '\r' {
        s.take(n - 1)
    } else {
        s.take(n)
    }
}

/// `run_len` is the position of the first character that does not satisfy `p`.
pub proof fn lemma_run_len(s: Seq<char>, p: spec_fn(char) -> bool)
    ensures
        run_len(s, p) <= s.len(),
        forall|i: int| 0 <= i < run_len(s, p) ==> p(#[trigger] s[i]),
        run_len(s, p) < s.len() ==> !p(s[run_len(s, p) as int]),
    decreases s.len(),
{
    if s.len() > 0 && p(s[0]) {
        let r = s.drop_first();
        lemma_run_len(r, p);
        assert forall|i: int| 0 <= i < run_len(s, p) implies p(#[trigger] s[i]) by {
            if i > 0 {
                assert(s[i] == r[i - 1]);
            }
        }
        if run_len(s, p) < s.len() {
            assert(s[run_len(s, p) as int] == r[run_len(r, p) as int]);
        }
    }
}

/// A position up to which all characters satisfy `p` and at which none does is `run_len`.
pub proof fn lemma_run_len_is(s: Seq<char>, p: spec_fn(char) -> bool, n: int)
    requires
        0 <= n <= s.len(),
        forall|i: int| 0 <= i < n ==> p(#[trigger] s[i]),
        n < s.len() ==> !p(s[n]),
    ensures
        run_len(s, p) == n,
{
    lemma_run_len(s, p);
    let m = run_len(s, p) as int;
    if m < n {
        assert(p(s[m]));
    } else if n < m {
        assert(p(s[n]));
    }
}

/// The characters of a text.
pub fn chars_of(s: &str) -> (chars: Vec<char>)
    ensures
        chars@ == s@,
{
    let mut chars: Vec<char> = Vec::new();
    for ch in it: s.chars()
        invariant
            it.seq() == s@,
            chars@ == s@.take(it.index()),
    {
        chars.push(ch);
        assert(s@.take(it.index() + 1) =~= s@.take(it.index()).push(ch));
    }
    assert(s@.take(s@.len() as int) =~= s@);
    chars
}

/// The text that the characters from `from` up to `to` make.
pub fn text_between(chars: &Vec<char>, from: usize, to: usize) -> (s: String)
    requires
        from <= to <= chars@.len(),
    ensures
        s@ == chars@.subrange(from as int, to as int),
{
    let mut s = String::new();
    for i in from..to
        invariant
            from <= to <= chars@.len(),
            s@ == chars@.subrange(from as int, i as int),
    {
        s.push(chars[i]);
        assert(chars@.subrange(from as int, i + 1) =~= chars@.subrange(from as int, i as int).push(
            chars@[i as int],
        ));
    }
    s
}

/// A copy of a text.
pub fn copy_text(s: &str) -> (r: String)
    ensures
        r@ == s@,
{
    s.to_owned()
}

/// Whether two texts are equal.
pub fn same_text(a: &str, b: &str) -> (r: bool)
    ensures
        r == (a@ == b@),
{
    a.to_owned() == b.to_owned()
}

/// The number of bytes of a text.
pub fn byte_count(s: &str) -> (n: usize)
    ensures
        n == byte_len(s@),
        n == vstd::utf8::encode_utf8(s@).len(),
{
    s.as_bytes().len()
}

/// The first position at or after `from` whose character is no white space, or the end.
pub fn skip_spaces(chars: &Vec<char>, from: usize) -> (i: usize)
    requires
        from <= chars@.len(),
    ensures
        from <= i <= chars@.len(),
        i - from == run_len(chars@.skip(from as int), spaces()),
{
    let mut i: usize = from;
    let ghost rest = chars@.skip(from as int);
    while i < chars.len() && char_is_space(chars[i])
        invariant
            from <= i <= chars@.len(),
            rest == chars@.skip(from as int),
            forall|k: int| 0 <= k < i - from ==> is_space(#[trigger] rest[k]),
        decreases chars@.len() - i,
    {
        i += 1;
    }
    proof {
        lemma_run_len_is(rest, spaces(), i - from);
    }
    i
}

/// The first position at or after `from` whose character is white space, or the end.
pub fn skip_ink(chars: &Vec<char>, from: usize) -> (i: usize)
    requires
        from <= chars@.len(),
    ensures
        from <= i <= chars@.len(),
        i - from == run_len(chars@.skip(from as int), inks()),
{
    let mut i: usize = from;
    let ghost rest = chars@.skip(from as int);
    while i < chars.len() && !char_is_space(chars[i])
        invariant
            from <= i <= chars@.len(),
            rest == chars@.skip(from as int),
            forall|k: int| 0 <= k < i - from ==> !is_space(#[trigger] rest[k]),
        decreases chars@.len() - i,
    {
        i += 1;
    }
    proof {
        lemma_run_len_is(rest, inks(), i - from);
    }
    i
}

/// A text without leading and trailing white space.
pub fn trim(s: &str) -> (r: String)
    ensures
        r@ == trimmed(s@),
{
    let chars = chars_of(s);
    let from = skip_spaces(&chars, 0);
    assert(chars@.skip(0) =~= chars@);
    proof {
        lemma_run_len(s@, spaces());
    }
    let mut to: usize = chars.len();
    assert(chars@.subrange(from as int, to as int) =~= trim_start(s@));
    while from < to && char_is_space(chars[to - 1])
        invariant
            from <= to <= chars@.len(),
            trim_end(chars@.subrange(from as int, to as int)) == trimmed(s@),
        decreases to,
    {
        assert(chars@.subrange(from as int, to as int).drop_last() =~= chars@.subrange(
            from as int,
            to - 1,
        ));
        to -= 1;
    }
    text_between(&chars, from, to)
}

/// The words of a text.
pub fn split_words(s: &str) -> (r: Vec<String>)
    ensures
        r.deep_view() == words(s@),
{
    let chars = chars_of(s);
    let mut r: Vec<String> = Vec::new();
    let mut i = skip_spaces(&chars, 0);
    assert(chars@.skip(0) =~= chars@);
    proof {
        lemma_run_len(s@, spaces());
        lemma_skip_spaces_words(s@);
    }
    while i < chars.len()
        invariant
            i <= chars@.len(),
            i < chars@.len() ==> !is_space(chars@[i as int]),
            r.deep_view() + words(chars@.skip(i as int)) == words(s@),
        decreases chars@.len() - i,
    {
        let ghost rest = chars@.skip(i as int);
        let end = skip_ink(&chars, i);
        let next = skip_spaces(&chars, end);
        let word = text_between(&chars, i, end);
        proof {
            lemma_run_len_is(rest, spaces(), 0);
            assert(rest.skip(0) =~= rest);
            lemma_run_len(rest, inks());
            assert(rest[0] == chars@[i as int]);
            assert(rest.take(end - i) =~= word@);
            assert(rest.skip(end - i) =~= chars@.skip(end as int));
            lemma_skip_spaces_words(chars@.skip(end as int));
            lemma_run_len(chars@.skip(end as int), spaces());
            assert(chars@.skip(end as int).skip(next - end) =~= chars@.skip(next as int));
            if next < chars@.len() {
                assert(chars@.skip(end as int)[next - end] == chars@[next as int]);
            }
            assert(r.deep_view() + words(rest) =~= r.deep_view().push(word@) + words(
                chars@.skip(next as int),
            ));
        }
        let ghost before = r.deep_view();
        r.push(word);
        assert(r.deep_view() =~= before.push(word@));
        i = next;
    }
    assert(chars@.skip(i as int) =~= seq![]);
    proof {
        lemma_no_words(chars@.skip(i as int));
    }
    assert(r.deep_view() =~= words(s@));
    r
}

/// An empty text has no words.
pub proof fn lemma_no_words(s: Seq<char>)
    requires
        s.len() == 0,
    ensures
        words(s) == Seq::<Seq<char>>::empty(),
{
    lemma_run_len(s, spaces());
}

/// Leading white space adds no word.
pub proof fn lemma_skip_spaces_words(s: Seq<char>)
    ensures
        words(trim_start(s)) == words(s),
{
    let t = trim_start(s);
    lemma_run_len(s, spaces());
    if t.len() > 0 {
        assert(t[0] == s[run_len(s, spaces()) as int]);
    }
    lemma_run_len_is(t, spaces(), 0);
    assert(t.skip(0) =~= t);
}

/// `parts` one after another with `sep` between neighbours.
pub fn join_texts(parts: &Vec<String>, sep: &str) -> (r: String)
    ensures
        r@ == join(parts.deep_view(), sep@),
{
    let mut r = String::new();
    let ghost all = parts.deep_view();
    for i in 0..parts.len()
        invariant
            all == parts.deep_view(),
            r@ == join(all.take(i as int), sep@),
    {
        if i > 0 {
            r.append(sep);
        }
        r.append(parts[i].as_str());
        proof {
            let upto = all.take(i + 1);
            assert(upto.drop_last() =~= all.take(i as int));
            assert(upto.last() == parts@[i as int]@);
            assert(r@ =~= join(upto, sep@));
        }
    }
    assert(all.take(all.len() as int) =~= all);
    r
}

/// Whether `needle` occurs at position `at` of `chars`.
fn matches_at(chars: &Vec<char>, needle: &Vec<char>, at: usize) -> (r: bool)
    requires
        at <= chars@.len(),
    ensures
        r == occurs_at(chars@, needle@, at as int),
{
    if needle.len() > chars.len() - at {
        return false;
    }
    for k in 0..needle.len()
        invariant
            at + needle@.len() <= chars@.len() <= usize::MAX,
            forall|j: int| 0 <= j < k ==> chars@[at + j] == #[trigger] needle@[j],
    {
        if chars[at + k] != needle[k] {
            assert(chars@.subrange(at as int, at + needle@.len())[k as int] == chars@[at + k]);
            return false;
        }
    }
    assert(chars@.subrange(at as int, at + needle@.len()) =~= needle@);
    true
}

/// Whether `needle` occurs somewhere in `chars`.
fn occurs_in(chars: &Vec<char>, needle: &Vec<char>) -> (r: bool)
    ensures
        r == has_text(chars@, needle@),
{
    let mut at: usize = 0;
    loop
        invariant
            at <= chars@.len(),
            forall|k: int| 0 <= k < at ==> !occurs_at(chars@, needle@, k),
        decreases chars@.len() - at,
    {
        if matches_at(chars, needle, at) {
            return true;
        }
        if at == chars.len() {
            return false;
        }
        at += 1;
    }
}

/// Whether `needle` occurs somewhere in `s`.
pub fn contains_text(s: &str, needle: &str) -> (r: bool)
    ensures
        r == has_text(s@, needle@),
{
    occurs_in(&chars_of(s), &chars_of(needle))
}

/// Whether `needle` occurs somewhere in `s` once the ASCII letters of `s` are in upper case.
pub fn upper_contains(s: &str, needle: &str) -> (r: bool)
    ensures
        r == has_text(upper(s@), needle@),
{
    let chars = chars_of(s);
    let mut raised: Vec<char> = Vec::new();
    for i in 0..chars.len()
        invariant
            raised@ == upper(chars@).take(i as int),
    {
        raised.push(char_upper(chars[i]));
        assert(raised@ =~= upper(chars@).take(i + 1));
    }
    assert(raised@ =~= upper(s@));
    occurs_in(&raised, &chars_of(needle))
}

/// `c` with `a` to `z` replaced by `A` to `Z`.
pub fn char_upper(c: char) -> (r: char)
    ensures
        r == ascii_upper(c),
        r as int == if 'a' <= c && c <= 'z' {
            c as int - 32
        } else {
            c as int
        },
{
    if 'a' <= c && c <= 'z' {
        (c as u8 - 32) as char
    } else {
        c
    }
}

/// `c` with `A` to `Z` replaced by `a` to `z`.
pub fn char_lower(c: char) -> (r: char)
    ensures
        r == ascii_lower(c),
        r as int == if 'A' <= c && c <= 'Z' {
            c as int + 32
        } else {
            c as int
        },
{
    if 'A' <= c && c <= 'Z' {
        (c as u8 + 32) as char
    } else {
        c
    }
}

/// A text with its ASCII letters in lower case.
pub fn lower_text(s: &str) -> (r: String)
    ensures
        r@ == lower(s@),
{
    let chars = chars_of(s);
    let mut r = String::new();
    for i in 0..chars.len()
        invariant
            r@ == lower(chars@).take(i as int),
    {
        r.push(char_lower(chars[i]));
        assert(r@ =~= lower(chars@).take(i + 1));
    }
    assert(r@ =~= lower(s@));
    r
}

/// Whether two texts are equal but for the case of their ASCII letters.
pub fn same_ignoring_case(a: &str, b: &str) -> (r: bool)
    ensures
        r == (lower(a@) == lower(b@)),
{
    lower_text(a) == lower_text(b)
}

/// The first position of `chars` at or after `from` that holds `c`, or the end.
pub fn find_char(chars: &Vec<char>, from: usize, c: char) -> (i: usize)
    requires
        from <= chars@.len(),
    ensures
        from <= i <= chars@.len(),
        forall|k: int| from <= k < i ==> chars@[k] != c,
        i < chars@.len() ==> chars@[i as int] == c,
{
    let mut i: usize = from;
    while i < chars.len() && chars[i] != c
        invariant
            from <= i <= chars@.len(),
            forall|k: int| from <= k < i ==> chars@[k] != c,
        decreases chars@.len() - i,
    {
        i += 1;
    }
    i
}

/// The first line of a text.
pub fn first_line_of(s: &str) -> (r: String)
    ensures
        r@ == first_line(s@),
{
    let chars = chars_of(s);
    let n = find_char(&chars, 0, '\n');
    proof {
        lemma_run_len_is(s@, other_than('\n'), n as int);
    }
    let end = if 0 < n && n < chars.len() && chars[n - 1] == '\r' {
        n - 1
    } else {
        n
    };
    let r = text_between(&chars, 0, end);
    assert(r@ =~= s@.take(end as int));
    r
}

/// The first `n` characters of a text, or all of a shorter one.
pub fn first_chars(s: &str, n: usize) -> (r: String)
    ensures
        r@ == s@.take(if n < s@.len() {
            n as int
        } else {
            s@.len() as int
        }),
{
    let chars = chars_of(s);
    let end = if n < chars.len() {
        n
    } else {
        chars.len()
    };
    let r = text_between(&chars, 0, end);
    assert(r@ =~= s@.take(end as int));
    r
}

/// The bytes of two texts one after another are those of the one and those of the other.
pub proof fn lemma_byte_len_add(a: Seq<char>, b: Seq<char>)
    ensures
        byte_len(a + b) == byte_len(a) + byte_len(b),
    decreases a.len(),
{
    if a.len() == 0 {
        assert(a + b =~= b);
    } else {
        lemma_byte_len_add(a.drop_first(), b);
        assert((a + b).drop_first() =~= a.drop_first() + b);
    }
}

/// A text that is not empty has bytes.
pub proof fn lemma_byte_len_positive(s: Seq<char>)
    ensures
        s.len() > 0 ==> byte_len(s) > 0,
        s.len() == 0 ==> byte_len(s) == 0,
{
}

/// The non-space characters of two texts one after another.
pub proof fn lemma_ink_add(a: Seq<char>, b: Seq<char>)
    ensures
        ink(a + b) == ink(a) + ink(b),
{
    Seq::filter_distributes_over_add(a, b, inks());
}

/// White space has no ink.
pub proof fn lemma_ink_spaces(s: Seq<char>)
    requires
        forall|i: int| 0 <= i < s.len() ==> is_space(#[trigger] s[i]),
    ensures
        ink(s) == Seq::<char>::empty(),
{
    s.lemma_all_neg_filter_empty(inks());
    assert(ink(s) =~= seq![]);
}

/// A word is all ink.
pub proof fn lemma_ink_word(s: Seq<char>)
    requires
        forall|i: int| 0 <= i < s.len() ==> !is_space(#[trigger] s[i]),
    ensures
        ink(s) == s,
    decreases s.len(),
{
    reveal(Seq::filter);
    if s.len() > 0 {
        lemma_ink_word(s.drop_last());
        assert(!is_space(s[s.len() - 1]));
        assert(s.drop_last().push(s.last()) =~= s);
    }
}

/// Trimming takes no ink away.
pub proof fn lemma_ink_trim(s: Seq<char>)
    ensures
        ink(trim_start(s)) == ink(s),
        ink(trim_end(s)) == ink(s),
        ink(trimmed(s)) == ink(s),
    decreases s.len(),
{
    let n = run_len(s, spaces()) as int;
    lemma_run_len(s, spaces());
    assert(s =~= s.take(n) + s.skip(n));
    lemma_ink_add(s.take(n), s.skip(n));
    lemma_ink_spaces(s.take(n));
    assert(seq![] + ink(s.skip(n)) =~= ink(s.skip(n)));
    lemma_ink_trim_end(s);
    lemma_ink_trim_end(trim_start(s));
}

/// Trimming at the end takes no ink away.
proof fn lemma_ink_trim_end(s: Seq<char>)
    ensures
        ink(trim_end(s)) == ink(s),
    decreases s.len(),
{
    if s.len() > 0 && is_space(s.last()) {
        lemma_ink_trim_end(s.drop_last());
        let last = seq![s.last()];
        assert(s =~= s.drop_last() + last);
        lemma_ink_add(s.drop_last(), last);
        lemma_ink_spaces(last);
        assert(ink(s.drop_last()) + seq![] =~= ink(s.drop_last()));
    }
}

/// What trimming leaves neither begins nor ends with white space, and it is empty exactly where
/// there is nothing but white space.
pub proof fn lemma_trimmed_ends(s: Seq<char>)
    ensures
        trimmed(s).len() > 0 ==> !is_space(trimmed(s)[0]) && !is_space(trimmed(s).last()),
        trimmed(s).len() <= s.len(),
        trimmed(s).len() == 0 <==> ink(s).len() == 0,
{
    lemma_run_len(s, spaces());
    lemma_ink_trim(s);
    let t = trim_start(s);
    lemma_trim_end(t);
    if trimmed(s).len() > 0 {
        assert(t[0] == s[run_len(s, spaces()) as int]);
        lemma_ink_has(trimmed(s), 0);
    } else {
        lemma_ink_spaces(trimmed(s));
    }
}

/// A character that is no white space is ink.
pub proof fn lemma_ink_has(s: Seq<char>, i: int)
    requires
        0 <= i < s.len(),
        !is_space(s[i]),
    ensures
        ink(s).len() > 0,
{
    s.lemma_filter_contains(inks(), i);
}

/// Trimming at the end leaves a prefix that does not end with white space.
pub proof fn lemma_trim_end(s: Seq<char>)
    ensures
        trim_end(s).is_prefix_of(s),
        trim_end(s).len() > 0 ==> !is_space(trim_end(s).last()),
    decreases s.len(),
{
    if s.len() > 0 && is_space(s.last()) {
        lemma_trim_end(s.drop_last());
    }
}

/// A text that begins with white space has the words of what follows.
proof fn lemma_words_space(s: Seq<char>)
    requires
        s.len() > 0,
        is_space(s[0]),
    ensures
        words(s) == words(s.drop_first()),
{
    let r = s.drop_first();
    lemma_run_len(r, spaces());
    assert(trim_start(s) =~= trim_start(r));
    lemma_skip_spaces_words(s);
    lemma_skip_spaces_words(r);
}

/// A text that begins with a word has that word and the words of what follows.
proof fn lemma_words_ink(s: Seq<char>)
    requires
        s.len() > 0,
        !is_space(s[0]),
    ensures
        0 < run_len(s, inks()) <= s.len(),
        words(s) == seq![s.take(run_len(s, inks()) as int)] + words(
            s.skip(run_len(s, inks()) as int),
        ),
{
    lemma_run_len_is(s, spaces(), 0);
    lemma_run_len(s, inks());
    assert(trim_start(s) =~= s);
}

/// White space between two texts parts their words.
pub proof fn lemma_words_parted(a: Seq<char>, c: char, b: Seq<char>)
    requires
        is_space(c),
    ensures
        words(a + seq![c] + b) == words(a) + words(b),
    decreases a.len(),
{
    let s = a + seq![c] + b;
    if a.len() == 0 {
        assert(s[0] == c);
        lemma_words_space(s);
        assert(s.drop_first() =~= b);
        lemma_no_words(a);
        assert(words(a) + words(b) =~= words(b));
    } else if is_space(a[0]) {
        assert(s[0] == a[0]);
        lemma_words_space(s);
        lemma_words_space(a);
        lemma_words_parted(a.drop_first(), c, b);
        assert(s.drop_first() =~= a.drop_first() + seq![c] + b);
    } else {
        assert(s[0] == a[0]);
        lemma_words_ink(s);
        lemma_words_ink(a);
        let n = run_len(a, inks()) as int;
        lemma_run_len(a, inks());
        assert forall|i: int| 0 <= i < n implies inks()(#[trigger] s[i]) by {
            assert(s[i] == a[i]);
        }
        assert(!inks()(s[n])) by {
            if n < a.len() {
                assert(s[n] == a[n]);
            } else {
                assert(s[n] == c);
            }
        }
        lemma_run_len_is(s, inks(), n);
        lemma_words_parted(a.skip(n), c, b);
        assert(s.take(n) =~= a.take(n));
        assert(s.skip(n) =~= a.skip(n) + seq![c] + b);
        assert(words(s) =~= words(a) + words(b));
    }
}

/// A word has itself as its only word.
pub proof fn lemma_words_one(w: Seq<char>)
    requires
        w.len() > 0,
        forall|i: int| 0 <= i < w.len() ==> !is_space(#[trigger] w[i]),
    ensures
        words(w) == seq![w],
{
    lemma_words_ink(w);
    lemma_run_len_is(w, inks(), w.len() as int);
    assert(w.take(w.len() as int) =~= w);
    lemma_no_words(w.skip(w.len() as int));
    assert(words(w) =~= seq![w]);
}

/// Whether `w` is a word: not empty, and without white space.
pub open spec fn is_word(w: Seq<char>) -> bool {
    w.len() > 0 && forall|i: int| 0 <= i < w.len() ==> !is_space(#[trigger] w[i])
}

/// The words of a text are words.
pub proof fn lemma_words_are_words(s: Seq<char>)
    ensures
        forall|i: int| 0 <= i < words(s).len() ==> is_word(#[trigger] words(s)[i]),
    decreases s.len(),
{
    if s.len() == 0 {
        lemma_no_words(s);
    } else if is_space(s[0]) {
        lemma_words_space(s);
        lemma_words_are_words(s.drop_first());
    } else {
        lemma_words_ink(s);
        let n = run_len(s, inks()) as int;
        lemma_run_len(s, inks());
        lemma_words_are_words(s.skip(n));
        assert(is_word(s.take(n)));
        assert forall|i: int| 0 <= i < words(s).len() implies is_word(#[trigger] words(s)[i]) by {
            if i > 0 {
                assert(words(s)[i] == words(s.skip(n))[i - 1]);
            }
        }
    }
}

/// The ink of a text is that of its words.
pub proof fn lemma_ink_words(s: Seq<char>)
    ensures
        ink(s) == words(s).flatten(),
    decreases s.len(),
{
    if s.len() == 0 {
        lemma_no_words(s);
        lemma_ink_spaces(s);
    } else if is_space(s[0]) {
        lemma_words_space(s);
        lemma_ink_words(s.drop_first());
        let first = seq![s[0]];
        assert(s =~= first + s.drop_first());
        lemma_ink_add(first, s.drop_first());
        lemma_ink_spaces(first);
        assert(seq![] + ink(s.drop_first()) =~= ink(s.drop_first()));
    } else {
        lemma_words_ink(s);
        let n = run_len(s, inks()) as int;
        lemma_run_len(s, inks());
        lemma_ink_words(s.skip(n));
        assert(s =~= s.take(n) + s.skip(n));
        lemma_ink_add(s.take(n), s.skip(n));
        lemma_ink_word(s.take(n));
        assert(words(s).drop_first() =~= words(s.skip(n)));
        assert(words(s).first() == s.take(n));
    }
}

/// A separator between two texts parts their parts.
pub proof fn lemma_split_parted(a: Seq<char>, sep: char, b: Seq<char>)
    ensures
        split_on(a + seq![sep] + b, sep) == split_on(a, sep) + split_on(b, sep),
    decreases a.len(),
{
    let s = a + seq![sep] + b;
    let p = other_than(sep);
    let n = run_len(a, p) as int;
    lemma_run_len(a, p);
    assert forall|i: int| 0 <= i < n implies p(#[trigger] s[i]) by {
        assert(s[i] == a[i]);
    }
    assert(s[n] == sep) by {
        if n < a.len() {
            assert(s[n] == a[n]);
        }
    }
    lemma_run_len_is(s, p, n);
    if n < a.len() {
        lemma_split_parted(a.skip(n + 1), sep, b);
        assert(s.skip(n + 1) =~= a.skip(n + 1) + seq![sep] + b);
        assert(s.take(n) =~= a.take(n));
        assert(split_on(s, sep) =~= split_on(a, sep) + split_on(b, sep));
    } else {
        assert(s.take(n) =~= a);
        assert(s.skip(n + 1) =~= b);
        assert(split_on(s, sep) =~= split_on(a, sep) + split_on(b, sep));
    }
}

/// A text without the separator is its only part.
pub proof fn lemma_split_whole(s: Seq<char>, sep: char)
    requires
        !s.contains(sep),
    ensures
        split_on(s, sep) == seq![s],
{
    assert forall|i: int| 0 <= i < s.len() implies s[i] != sep by {
        assert(s.contains(s[i]));
    }
    lemma_run_len_is(s, other_than(sep), s.len() as int);
}

/// A needle without the separator occurs in a text exactly where it occurs in one of the parts.
pub proof fn lemma_needle_in_part(s: Seq<char>, sep: char, needle: Seq<char>)
    requires
        needle.len() > 0,
        !needle.contains(sep),
    ensures
        has_text(s, needle) <==> exists|i: int|
            0 <= i < split_on(s, sep).len() && has_text(#[trigger] split_on(s, sep)[i], needle),
    decreases s.len(),
{
    let p = other_than(sep);
    let n = run_len(s, p) as int;
    lemma_run_len(s, p);
    let parts = split_on(s, sep);
    if n < s.len() {
        let head = s.take(n);
        let tail = s.skip(n + 1);
        lemma_needle_in_part(tail, sep, needle);
        let rest = split_on(tail, sep);
        assert(parts =~= seq![head] + rest);
        if has_text(s, needle) {
            let at = choose|at: int| occurs_at(s, needle, at);
            if at + needle.len() <= n {
                assert(head.subrange(at, at + needle.len()) =~= needle);
                assert(occurs_at(head, needle, at));
                assert(has_text(parts[0], needle));
            } else if at > n {
                assert(tail.subrange(at - n - 1, at - n - 1 + needle.len()) =~= needle);
                assert(occurs_at(tail, needle, at - n - 1));
                let i = choose|i: int| 0 <= i < rest.len() && has_text(#[trigger] rest[i], needle);
                assert(has_text(parts[i + 1], needle));
            } else {
                assert(needle[n - at] == s[n]);
                assert(needle.contains(sep));
            }
        }
        if exists|i: int| 0 <= i < parts.len() && has_text(#[trigger] parts[i], needle) {
            let i = choose|i: int| 0 <= i < parts.len() && has_text(#[trigger] parts[i], needle);
            if i == 0 {
                let at = choose|at: int| occurs_at(head, needle, at);
                assert(s.subrange(at, at + needle.len()) =~= needle);
                assert(occurs_at(s, needle, at));
            } else {
                assert(rest[i - 1] == parts[i]);
                let at = choose|at: int| occurs_at(tail, needle, at);
                assert(s.subrange(at + n + 1, at + n + 1 + needle.len()) =~= needle);
                assert(occurs_at(s, needle, at + n + 1));
            }
        }
    } else {
        assert(parts =~= seq![s]);
        assert(parts[0] == s);
    }
}

/// Joining parts whose separator has no ink joins their ink.
pub proof fn lemma_ink_join(parts: Seq<Seq<char>>, sep: Seq<char>)
    requires
        ink(sep) == Seq::<char>::empty(),
    ensures
        ink(join(parts, sep)) == parts.map_values(|p: Seq<char>| ink(p)).flatten(),
    decreases parts.len(),
{
    let inked = parts.map_values(|p: Seq<char>| ink(p));
    if parts.len() == 0 {
        lemma_ink_spaces(join(parts, sep));
    } else {
        let front = parts.drop_last();
        let last = parts.last();
        lemma_ink_join(front, sep);
        assert(inked.drop_last() =~= front.map_values(|p: Seq<char>| ink(p)));
        inked.lemma_flatten_and_flatten_alt_are_equivalent();
        inked.drop_last().lemma_flatten_and_flatten_alt_are_equivalent();
        if parts.len() == 1 {
            assert(inked.drop_last() =~= Seq::<Seq<char>>::empty());
            assert(Seq::<char>::empty() + ink(last) =~= ink(last));
        } else {
            lemma_ink_add(join(front, sep) + sep, last);
            lemma_ink_add(join(front, sep), sep);
            assert(ink(join(front, sep)) + seq![] =~= ink(join(front, sep)));
        }
    }
}

/// Trimming twice is trimming once.
pub proof fn lemma_trimmed_twice(s: Seq<char>)
    ensures
        trimmed(trimmed(s)) == trimmed(s),
{
    let t = trimmed(s);
    lemma_trimmed_ends(s);
    lemma_run_len_is(t, spaces(), 0);
    assert(trim_start(t) =~= t);
}

/// Trimming takes away the white space at both ends and nothing else.
pub proof fn lemma_trimmed_is(a: Seq<char>, s: Seq<char>, b: Seq<char>)
    requires
        forall|i: int| 0 <= i < a.len() ==> is_space(#[trigger] a[i]),
        forall|i: int| 0 <= i < b.len() ==> is_space(#[trigger] b[i]),
        s.len() > 0 ==> !is_space(s[0]) && !is_space(s.last()),
    ensures
        trimmed(a + s + b) == s,
{
    let all = a + s + b;
    if s.len() > 0 {
        assert(all[a.len() as int] == s[0]);
        lemma_run_len_is(all, spaces(), a.len() as int);
        assert(trim_start(all) =~= s + b);
        lemma_trim_end_is(s, b);
    } else {
        lemma_run_len_is(all, spaces(), all.len() as int);
        assert(trim_start(all) =~= s);
    }
}

/// Trimming at the end takes away the white space there and nothing else.
proof fn lemma_trim_end_is(s: Seq<char>, b: Seq<char>)
    requires
        forall|i: int| 0 <= i < b.len() ==> is_space(#[trigger] b[i]),
        s.len() > 0 ==> !is_space(s.last()),
    ensures
        trim_end(s + b) == s,
    decreases b.len(),
{
    if b.len() == 0 {
        assert(s + b =~= s);
    } else {
        lemma_trim_end_is(s, b.drop_last());
        assert((s + b).drop_last() =~= s + b.drop_last());
        assert((s + b).last() == b[b.len() - 1]);
    }
}

/// Nothing joined is nothing, and one more part is added behind a separator, unless it is the
/// first.
pub proof fn lemma_join_one_more(parts: Seq<Seq<char>>, part: Seq<char>, sep: Seq<char>)
    ensures
        join(Seq::<Seq<char>>::empty(), sep) == Seq::<char>::empty(),
        join(parts.push(part), sep) == if parts.len() == 0 {
            part
        } else {
            join(parts, sep) + sep + part
        },
{
    assert(parts.push(part).drop_last() =~= parts);
}

/// A text occurs in what is put around it, and nowhere else.
pub proof fn lemma_occurrence(a: Seq<char>, needle: Seq<char>, b: Seq<char>)
    ensures
        has_text(a + needle + b, needle),
        forall|s: Seq<char>| #[trigger]
            has_text(s, needle) ==> exists|front: Seq<char>, back: Seq<char>|
                s == #[trigger] (front + needle + back),
{
    let s = a + needle + b;
    assert(s.subrange(a.len() as int, (a.len() + needle.len()) as int) =~= needle);
    assert(occurs_at(s, needle, a.len() as int));
    assert forall|s: Seq<char>| #[trigger] has_text(s, needle) implies exists|
        front: Seq<char>,
        back: Seq<char>,
    |
        s == #[trigger] (front + needle + back) by {
        let at = choose|at: int| occurs_at(s, needle, at);
        let front = s.take(at);
        let back = s.skip(at + needle.len());
        assert(s =~= front + needle + back);
    }
}

/// Upper and lower case change ASCII letters, each to its counterpart, and nothing else.
pub proof fn lemma_cases(s: Seq<char>)
    ensures
        upper(s).len() == s.len(),
        lower(s).len() == s.len(),
        forall|i: int|
            0 <= i < s.len() ==> #[trigger] upper(s)[i] as int == if 'a' <= s[i] && s[i] <= 'z' {
                s[i] as int - 32
            } else {
                s[i] as int
            },
        forall|i: int|
            0 <= i < s.len() ==> #[trigger] lower(s)[i] as int == if 'A' <= s[i] && s[i] <= 'Z' {
                s[i] as int + 32
            } else {
                s[i] as int
            },
{
}

/// The first line is what stands before the first line feed, without a carriage return at its
/// end; a text without line feed is its own first line.
pub proof fn lemma_first_line_is(a: Seq<char>, b: Seq<char>)
    requires
        forall|i: int| 0 <= i < a.len() ==> #[trigger] a[i] != '\n',
    ensures
        first_line(a) == a,
        first_line(a + seq!['\n'] + b) == if a.len() > 0 && a.last() == '\r' {
            a.drop_last()
        } else {
            a
        },
{
    let s = a + seq!['\n'] + b;
    lemma_run_len_is(a, other_than('\n'), a.len() as int);
    assert(a.take(a.len() as int) =~= a);
    assert(s[a.len() as int] == '\n');
    assert forall|i: int| 0 <= i < a.len() implies other_than('\n')(#[trigger] s[i]) by {
        assert(s[i] == a[i]);
    }
    lemma_run_len_is(s, other_than('\n'), a.len() as int);
    assert(s.take(a.len() as int) =~= a);
    if a.len() > 0 {
        assert(s[a.len() - 1] == a.last());
        assert(s.take(a.len() - 1) =~= a.drop_last());
    }
}

/// The characters that are no white space, one character at a time.
pub proof fn lemma_ink_push(s: Seq<char>, c: char)
    ensures
        ink(Seq::<char>::empty()) == Seq::<char>::empty(),
        ink(s.push(c)) == if is_space(c) {
            ink(s)
        } else {
            ink(s).push(c)
        },
{
    Seq::<char>::empty().lemma_filter_len(inks());
    s.lemma_filter_push(c, inks());
}

} // verus!
