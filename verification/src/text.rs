//! Text as a sequence of characters: trimming, searching, quoting and
//! indenting.
use vstd::prelude::*;
use vstd::utf8::encode_utf8;

verus! {

/// `String::push` of the standard library: the character is appended at the
/// end, and nothing else changes.
pub assume_specification[ String::push ](s: &mut String, c: char)
    ensures
        final(s)@ == old(s)@.push(c),
;

/// The characters with Unicode's `White_Space` property.
pub open spec fn is_whitespace(c: char) -> bool {
    ||| '\u{9}' <= c <= '\u{d}'
    ||| c == '\u{20}'
    ||| c == '\u{85}'
    ||| c == '\u{a0}'
    ||| c == '\u{1680}'
    ||| '\u{2000}' <= c <= '\u{200a}'
    ||| c == '\u{2028}'
    ||| c == '\u{2029}'
    ||| c == '\u{202f}'
    ||| c == '\u{205f}'
    ||| c == '\u{3000}'
}

/// The text without its leading whitespace.
pub open spec fn trimmed_start(s: Seq<char>) -> Seq<char>
    decreases s.len(),
{
    if s.len() > 0 && is_whitespace(s[0]) {
        trimmed_start(s.drop_first())
    } else {
        s
    }
}

/// The text without its trailing whitespace.
pub open spec fn trimmed_end(s: Seq<char>) -> Seq<char>
    decreases s.len(),
{
    if s.len() > 0 && is_whitespace(s.last()) {
        trimmed_end(s.drop_last())
    } else {
        s
    }
}

/// The text without leading and trailing whitespace.
pub open spec fn trimmed(s: Seq<char>) -> Seq<char> {
    trimmed_end(trimmed_start(s))
}

/// Whether the text holds nothing but whitespace.
pub open spec fn is_blank(s: Seq<char>) -> bool {
    forall|i: int| 0 <= i < s.len() ==> is_whitespace(#[trigger] s[i])
}

pub open spec fn starts_with(s: Seq<char>, prefix: Seq<char>) -> bool {
    prefix.len() <= s.len() && s.take(prefix.len() as int) == prefix
}

/// Whether `pattern` occurs in `s` at `at`.
pub open spec fn occurs_at(s: Seq<char>, pattern: Seq<char>, at: int) -> bool {
    0 <= at && at + pattern.len() <= s.len() && s.subrange(at, at + pattern.len()) == pattern
}

/// Whether `pattern` occurs anywhere in `s`.
pub open spec fn contains(s: Seq<char>, pattern: Seq<char>) -> bool {
    exists|at: int| #[trigger] occurs_at(s, pattern, at)
}

/// `n` space characters.
pub open spec fn spaces(n: nat) -> Seq<char> {
    Seq::new(n, |i: int| ' ')
}

/// The number of bytes that the text's leading whitespace takes in UTF-8.
pub open spec fn indent_width(s: Seq<char>) -> nat {
    encode_utf8(s.take(s.len() - trimmed_start(s).len())).len()
}

/// The text with every `'` written twice.
pub open spec fn quotes_doubled(s: Seq<char>) -> Seq<char>
    decreases s.len(),
{
    if s.len() == 0 {
        Seq::empty()
    } else if s.last() == '\'' {
        quotes_doubled(s.drop_last()).push('\'').push('\'')
    } else {
        quotes_doubled(s.drop_last()).push(s.last())
    }
}

/// The views of a sequence of strings.
pub open spec fn texts(lines: Seq<String>) -> Seq<Seq<char>> {
    Seq::new(lines.len(), |i: int| lines[i]@)
}

/// The leading whitespace is exactly what `trimmed_start` leaves out.
pub proof fn lemma_trimmed_start(s: Seq<char>)
    ensures
        trimmed_start(s).len() <= s.len(),
        trimmed_start(s) == s.skip(s.len() - trimmed_start(s).len()),
        is_blank(s.take(s.len() - trimmed_start(s).len())),
        trimmed_start(s).len() > 0 ==> !is_whitespace(trimmed_start(s)[0]),
        trimmed_start(s).len() == 0 <==> is_blank(s),
    decreases s.len(),
{
    if s.len() > 0 && is_whitespace(s[0]) {
        let t = s.drop_first();
        lemma_trimmed_start(t);
        let k = t.len() - trimmed_start(t).len();
        assert(s.skip(k + 1) =~= t.skip(k));
        assert forall|i: int| 0 <= i < k + 1 implies is_whitespace(#[trigger] s.take(k + 1)[i]) by {
            if i > 0 {
                assert(t.take(k)[i - 1] == s[i]);
            }
        }
        if is_blank(s) {
            assert forall|i: int| 0 <= i < t.len() implies is_whitespace(#[trigger] t[i]) by {
                assert(t[i] == s[i + 1]);
            }
        }
        if is_blank(t) {
            assert forall|i: int| 0 <= i < s.len() implies is_whitespace(#[trigger] s[i]) by {
                if i > 0 {
                    assert(s[i] == t[i - 1]);
                }
            }
        }
    } else {
        assert(s.skip(0) =~= s);
    }
}

/// Whitespace before a character that is none is what `trimmed_start` leaves
/// out.
pub proof fn lemma_trimmed_start_at(s: Seq<char>, k: int)
    requires
        0 <= k <= s.len(),
        forall|i: int| 0 <= i < k ==> is_whitespace(#[trigger] s[i]),
        k < s.len() ==> !is_whitespace(s[k]),
    ensures
        trimmed_start(s) == s.skip(k),
    decreases k,
{
    if k > 0 {
        let t = s.drop_first();
        assert forall|i: int| 0 <= i < k - 1 implies is_whitespace(#[trigger] t[i]) by {
            assert(t[i] == s[i + 1]);
        }
        lemma_trimmed_start_at(t, k - 1);
        assert(t.skip(k - 1) =~= s.skip(k));
    } else {
        assert(s.skip(0) =~= s);
    }
}

/// The trailing whitespace is exactly what `trimmed_end` leaves out.
pub proof fn lemma_trimmed_end(s: Seq<char>)
    ensures
        trimmed_end(s).len() <= s.len(),
        trimmed_end(s) == s.take(trimmed_end(s).len() as int),
        is_blank(s.skip(trimmed_end(s).len() as int)),
        trimmed_end(s).len() > 0 ==> !is_whitespace(trimmed_end(s).last()),
        trimmed_end(s).len() == 0 <==> is_blank(s),
    decreases s.len(),
{
    if s.len() > 0 && is_whitespace(s.last()) {
        let t = s.drop_last();
        lemma_trimmed_end(t);
        let k = trimmed_end(t).len() as int;
        assert(t.take(k) =~= s.take(k));
        assert forall|i: int| 0 <= i < s.len() - k implies is_whitespace(#[trigger] s.skip(k)[i]) by {
            if i < t.len() - k {
                assert(t.skip(k)[i] == s[k + i]);
            }
        }
        if is_blank(s) {
            assert forall|i: int| 0 <= i < t.len() implies is_whitespace(#[trigger] t[i]) by {
                assert(t[i] == s[i]);
            }
        }
        if is_blank(t) {
            assert forall|i: int| 0 <= i < s.len() implies is_whitespace(#[trigger] s[i]) by {
                if i < t.len() {
                    assert(s[i] == t[i]);
                }
            }
        }
    } else {
        assert(s.take(s.len() as int) =~= s);
    }
}

/// Whitespace after a character that is none is what `trimmed_end` leaves
/// out.
pub proof fn lemma_trimmed_end_at(s: Seq<char>, k: int)
    requires
        0 <= k <= s.len(),
        forall|i: int| k <= i < s.len() ==> is_whitespace(#[trigger] s[i]),
        k > 0 ==> !is_whitespace(s[k - 1]),
    ensures
        trimmed_end(s) == s.take(k),
    decreases s.len() - k,
{
    if k < s.len() {
        let t = s.drop_last();
        assert forall|i: int| k <= i < t.len() implies is_whitespace(#[trigger] t[i]) by {
            assert(t[i] == s[i]);
        }
        lemma_trimmed_end_at(t, k);
        assert(t.take(k) =~= s.take(k));
    } else {
        assert(s.take(k) =~= s);
    }
}

/// UTF-8 encodes a concatenation piece by piece.
pub proof fn lemma_encode_concat(a: Seq<char>, b: Seq<char>)
    ensures
        encode_utf8(a + b) == encode_utf8(a) + encode_utf8(b),
    decreases a.len(),
{
    if a.len() == 0 {
        assert(a + b =~= b);
        assert(encode_utf8(a) + encode_utf8(b) =~= encode_utf8(b));
    } else {
        assert((a + b).drop_first() =~= a.drop_first() + b);
        lemma_encode_concat(a.drop_first(), b);
        assert(encode_utf8(a + b) =~= encode_utf8(a) + encode_utf8(b));
    }
}

/// The characters of a string slice, in order.
pub fn chars_of(s: &str) -> (chars: Vec<char>)
    ensures
        chars@ == s@,
{
    let mut chars: Vec<char> = Vec::new();
    for c in it: s.chars()
        invariant
            it.seq() == s@,
            chars@ == s@.take(it.index() as int),
    {
        chars.push(c);
    }
    chars
}

/// Whether a character has Unicode's `White_Space` property.
pub fn char_is_whitespace(c: char) -> (space: bool)
    ensures
        space == is_whitespace(c),
{
    ('\u{9}' <= c && c <= '\u{d}') || c == '\u{20}' || c == '\u{85}' || c == '\u{a0}' || c
        == '\u{1680}' || ('\u{2000}' <= c && c <= '\u{200a}') || c == '\u{2028}' || c == '\u{2029}'
        || c == '\u{202f}' || c == '\u{205f}' || c == '\u{3000}'
}

/// The string slice without its leading whitespace.
pub fn trim_start(s: &str) -> (rest: &str)
    ensures
        rest@ == trimmed_start(s@),
{
    let chars = chars_of(s);
    let mut k: usize = 0;
    while k < chars.len() && char_is_whitespace(chars[k])
        invariant
            chars@ == s@,
            k <= chars@.len(),
            forall|i: int| 0 <= i < k ==> is_whitespace(#[trigger] chars@[i]),
        decreases chars@.len() - k,
    {
        k += 1;
    }
    proof {
        lemma_trimmed_start_at(s@, k as int);
    }
    s.substring_char(k, chars.len())
}

/// The string slice without its trailing whitespace.
pub fn trim_end(s: &str) -> (rest: &str)
    ensures
        rest@ == trimmed_end(s@),
{
    let chars = chars_of(s);
    let mut k: usize = chars.len();
    while k > 0 && char_is_whitespace(chars[k - 1])
        invariant
            chars@ == s@,
            k <= chars@.len(),
            forall|i: int| k <= i < chars@.len() ==> is_whitespace(#[trigger] chars@[i]),
        decreases k,
    {
        k -= 1;
    }
    proof {
        lemma_trimmed_end_at(s@, k as int);
    }
    s.substring_char(0, k)
}

/// The string slice without leading and trailing whitespace.
pub fn trim(s: &str) -> (rest: &str)
    ensures
        rest@ == trimmed(s@),
{
    trim_end(trim_start(s))
}

/// Whether a string slice holds nothing but whitespace.
pub fn blank(s: &str) -> (all_space: bool)
    ensures
        all_space == is_blank(s@),
{
    proof {
        lemma_trimmed_start(s@);
    }
    trim_start(s).is_empty()
}

/// Whether two string slices hold the same characters.
pub fn same_text(a: &str, b: &str) -> (same: bool)
    ensures
        same == (a@ == b@),
{
    a.to_owned() == b.to_owned()
}

/// What follows `prefix` in `s`, if `s` starts with it.
pub fn strip_prefix<'a>(s: &'a str, prefix: &str) -> (rest: Option<&'a str>)
    ensures
        match rest {
            Some(rest) => starts_with(s@, prefix@) && rest@ == s@.skip(prefix@.len() as int),
            None => !starts_with(s@, prefix@),
        },
{
    let len = s.unicode_len();
    let n = prefix.unicode_len();
    if n <= len && same_text(s.substring_char(0, n), prefix) {
        Some(s.substring_char(n, len))
    } else {
        None
    }
}

/// Whether `pattern` occurs in `s`.
pub fn has_pattern(s: &str, pattern: &str) -> (found: bool)
    ensures
        found == contains(s@, pattern@),
{
    let text = chars_of(s);
    let wanted = chars_of(pattern);
    if wanted.len() > text.len() {
        return false;
    }
    let last: usize = text.len() - wanted.len();
    let mut at: usize = 0;
    loop
        invariant
            text@ == s@,
            wanted@ == pattern@,
            last + wanted@.len() == text.len(),
            at <= last,
            forall|i: int| 0 <= i < at ==> !#[trigger] occurs_at(s@, pattern@, i),
        decreases last - at,
    {
        let mut k: usize = 0;
        while k < wanted.len() && text[at + k] == wanted[k]
            invariant
                text@ == s@,
                wanted@ == pattern@,
                at + wanted@.len() <= text.len(),
                k <= wanted@.len(),
                forall|i: int| 0 <= i < k ==> s@[at + i] == #[trigger] pattern@[i],
            decreases wanted@.len() - k,
        {
            k += 1;
        }
        if k == wanted.len() {
            assert(s@.subrange(at as int, at + pattern@.len()) =~= pattern@);
            assert(occurs_at(s@, pattern@, at as int));
            return true;
        }
        assert(s@.subrange(at as int, at + pattern@.len())[k as int] != pattern@[k as int]);
        if at == last {
            return false;
        }
        at += 1;
    }
}

/// The string slice with every `'` written twice.
pub fn double_quotes(s: &str) -> (doubled: String)
    ensures
        doubled@ == quotes_doubled(s@),
{
    let mut doubled = String::new();
    for c in it: s.chars()
        invariant
            it.seq() == s@,
            doubled@ == quotes_doubled(s@.take(it.index() as int)),
    {
        proof {
            assert(s@.take(it.index() + 1).drop_last() =~= s@.take(it.index() as int));
        }
        doubled.push(c);
        if c == '\'' {
            doubled.push(c);
        }
    }
    proof {
        assert(s@.take(s@.len() as int) =~= s@);
    }
    doubled
}

/// A string of `n` spaces.
pub fn space_run(n: usize) -> (run: String)
    ensures
        run@ == spaces(n as nat),
{
    let mut run = String::new();
    for i in 0..n
        invariant
            run@ == spaces(i as nat),
    {
        run.push(' ');
    }
    run
}

/// The number of bytes that the leading whitespace of a string slice takes.
pub fn indent_of(s: &str) -> (width: usize)
    ensures
        width == indent_width(s@),
{
    let rest = trim_start(s);
    proof {
        lemma_trimmed_start(s@);
        let k = s@.len() - rest@.len();
        assert(s@ =~= s@.take(k) + rest@);
        lemma_encode_concat(s@.take(k), rest@);
    }
    s.as_bytes().len() - rest.as_bytes().len()
}

} // verus!
