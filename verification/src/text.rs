//! Text handling: splitting a string into words and normalizing a word.

use vstd::prelude::*;
use vstd::string::StringSliceAdditionalSpecFns;
use vstd::utf8::valid_utf8;

verus! {

/// Trusted: the type `core::str::Utf8Error`, the error of
/// `core::str::from_utf8`. Nothing is read from it.
#[verifier::external_type_specification]
#[verifier::external_body]
pub struct ExUtf8Error(core::str::Utf8Error);

/// Trusted: `core::str::from_utf8` succeeds exactly on the byte strings
/// that are valid UTF-8, and the string it gives is made of these bytes.
pub assume_specification[ core::str::from_utf8 ](v: &[u8]) -> (r: Result<&str, core::str::Utf8Error>)
    ensures
        match r {
            Ok(s) => valid_utf8(v@) && s.spec_bytes() == v@,
            Err(_) => !valid_utf8(v@),
        },
;

/// Trusted: `String::push` appends one character.
pub assume_specification[ String::push ](s: &mut String, c: char)
    ensures
        final(s)@ == old(s)@.push(c),
;

/// Whether a character survives normalization unchanged: a lowercase ASCII
/// letter or an ASCII digit.
pub open spec fn is_plain(c: char) -> bool {
    ('a' <= c && c <= 'z') || ('0' <= c && c <= '9')
}

/// What normalization makes of one character: uppercase ASCII letters are
/// lowered, a fixed set of accented lowercase vowels loses the accent,
/// lowercase ASCII letters and digits stay, and everything else is dropped.
pub open spec fn normalize_char(c: char) -> Option<char> {
    if 'A' <= c && c <= 'Z' {
        Some(((c as u8) + 32) as char)
    } else if is_plain(c) {
        Some(c)
    } else if c == 'á' || c == 'â' || c == 'à' || c == 'ä' {
        Some('a')
    } else if c == 'é' || c == 'ê' || c == 'è' || c == 'ë' {
        Some('e')
    } else if c == 'í' || c == 'î' || c == 'ì' || c == 'ï' {
        Some('i')
    } else if c == 'ó' || c == 'ô' || c == 'ò' || c == 'ö' {
        Some('o')
    } else if c == 'ú' || c == 'û' || c == 'ù' || c == 'ü' {
        Some('u')
    } else {
        None
    }
}

/// The normal form of a string: each character is normalized on its own
/// and the survivors keep their order.
pub open spec fn normalize_spec(s: Seq<char>) -> Seq<char>
    decreases s.len(),
{
    if s.len() == 0 {
        Seq::empty()
    } else {
        match normalize_char(s.last()) {
            Some(c) => normalize_spec(s.drop_last()).push(c),
            None => normalize_spec(s.drop_last()),
        }
    }
}

/// Whether every character of `s` is a lowercase ASCII letter or a digit.
pub open spec fn is_normalized(s: Seq<char>) -> bool {
    forall|i: int| 0 <= i < s.len() ==> is_plain(#[trigger] s[i])
}

/// Normalizes one character.
pub fn normalize_one(c: char) -> (r: Option<char>)
    ensures
        r == normalize_char(c),
{
    if 'A' <= c && c <= 'Z' {
        Some(((c as u8) + 32) as char)
    } else if ('a' <= c && c <= 'z') || ('0' <= c && c <= '9') {
        Some(c)
    } else if c == 'á' || c == 'â' || c == 'à' || c == 'ä' {
        Some('a')
    } else if c == 'é' || c == 'ê' || c == 'è' || c == 'ë' {
        Some('e')
    } else if c == 'í' || c == 'î' || c == 'ì' || c == 'ï' {
        Some('i')
    } else if c == 'ó' || c == 'ô' || c == 'ò' || c == 'ö' {
        Some('o')
    } else if c == 'ú' || c == 'û' || c == 'ù' || c == 'ü' {
        Some('u')
    } else {
        None
    }
}

/// Canonicalizes a word: lowercases ASCII letters, strips the accent of a
/// small set of vowels and drops everything that is not a letter or digit.
pub fn normalize(s: &str) -> (r: String)
    ensures
        r@ == normalize_spec(s@),
        is_normalized(r@),
{
    let mut out = String::new();
    for c in it: s.chars()
        invariant
            it.seq() == s@,
            out@ == normalize_spec(s@.take(it.index() as int)),
    {
        proof {
            let i = it.index() as int;
            assert(s@.take(i + 1).drop_last() == s@.take(i));
            assert(s@.take(i + 1).last() == c);
        }
        match normalize_one(c) {
            Some(d) => out.push(d),
            None => {},
        }
    }
    proof {
        assert(s@.take(s@.len() as int) == s@);
        lemma_normalize_is_normalized(s@);
    }
    out
}

/// Whether a character separates words: the Unicode `White_Space` code points.
pub open spec fn is_whitespace(c: char) -> bool {
    let n = c as u32;
    (0x09 <= n && n <= 0x0D) || n == 0x20 || n == 0x85 || n == 0xA0 || n == 0x1680 || (0x2000 <= n
        && n <= 0x200A) || n == 0x2028 || n == 0x2029 || n == 0x202F || n == 0x205F || n == 0x3000
}

/// Tells whether a character separates words.
pub fn char_is_whitespace(c: char) -> (r: bool)
    ensures
        r == is_whitespace(c),
{
    let n = c as u32;
    (0x09 <= n && n <= 0x0D) || n == 0x20 || n == 0x85 || n == 0xA0 || n == 0x1680 || (0x2000 <= n
        && n <= 0x200A) || n == 0x2028 || n == 0x2029 || n == 0x202F || n == 0x205F || n == 0x3000
}

/// Reading `s` from the left: the words that have ended so far, and the
/// word that is still open (empty when the last character was a separator).
pub open spec fn scan(s: Seq<char>) -> (Seq<Seq<char>>, Seq<char>)
    decreases s.len(),
{
    if s.len() == 0 {
        (Seq::empty(), Seq::empty())
    } else {
        let (done, open) = scan(s.drop_last());
        if is_whitespace(s.last()) {
            if open.len() > 0 {
                (done.push(open), Seq::empty())
            } else {
                (done, open)
            }
        } else {
            (done, open.push(s.last()))
        }
    }
}

/// The words of a string: its maximal runs of characters that are not
/// whitespace, from left to right.
pub open spec fn tokens(s: Seq<char>) -> Seq<Seq<char>> {
    let (done, open) = scan(s);
    if open.len() > 0 {
        done.push(open)
    } else {
        done
    }
}

/// The character sequences of a sequence of strings.
pub open spec fn strings_view(v: Seq<String>) -> Seq<Seq<char>> {
    Seq::new(v.len(), |i: int| v[i]@)
}

/// Splits a string into its words.
pub fn split_whitespace(s: &str) -> (r: Vec<String>)
    ensures
        strings_view(r@) == tokens(s@),
{
    let mut done: Vec<String> = Vec::new();
    let mut open = String::new();
    for c in it: s.chars()
        invariant
            it.seq() == s@,
            (strings_view(done@), open@) == scan(s@.take(it.index() as int)),
    {
        proof {
            let i = it.index() as int;
            assert(s@.take(i + 1).drop_last() == s@.take(i));
            assert(s@.take(i + 1).last() == c);
        }
        let ghost before = strings_view(done@);
        if char_is_whitespace(c) {
            if !open.as_str().is_empty() {
                let ghost word = open@;
                done.push(open);
                open = String::new();
                assert(strings_view(done@) == before.push(word));
            }
        } else {
            open.push(c);
        }
    }
    proof {
        assert(s@.take(s@.len() as int) == s@);
    }
    let ghost before = strings_view(done@);
    if !open.as_str().is_empty() {
        let ghost word = open@;
        done.push(open);
        assert(strings_view(done@) == before.push(word));
    }
    done
}

/// Whether `w` is free of whitespace.
pub open spec fn has_no_whitespace(w: Seq<char>) -> bool {
    forall|j: int| 0 <= j < w.len() ==> !is_whitespace(#[trigger] w[j])
}

/// No word is empty and no word holds a whitespace character.
pub proof fn lemma_tokens_are_words(s: Seq<char>)
    ensures
        forall|i: int|
            0 <= i < tokens(s).len() ==> (#[trigger] tokens(s)[i]).len() > 0 && has_no_whitespace(
                tokens(s)[i],
            ),
{
    lemma_scan_words(s);
}

proof fn lemma_scan_words(s: Seq<char>)
    ensures
        has_no_whitespace(scan(s).1),
        forall|i: int|
            0 <= i < scan(s).0.len() ==> (#[trigger] scan(s).0[i]).len() > 0 && has_no_whitespace(
                scan(s).0[i],
            ),
    decreases s.len(),
{
    if s.len() > 0 {
        lemma_scan_words(s.drop_last());
        let (done, open) = scan(s.drop_last());
        if is_whitespace(s.last()) {
            if open.len() > 0 {
                assert forall|i: int| 0 <= i < scan(s).0.len() implies (#[trigger] scan(
                    s,
                ).0[i]).len() > 0 && has_no_whitespace(scan(s).0[i]) by {
                    if i < done.len() {
                        assert(scan(s).0[i] == done[i]);
                    } else {
                        assert(scan(s).0[i] == open);
                    }
                }
            }
        } else {
            assert forall|j: int| 0 <= j < scan(s).1.len() implies !is_whitespace(
                #[trigger] scan(s).1[j],
            ) by {
                if j < open.len() {
                    assert(scan(s).1[j] == open[j]);
                }
            }
        }
    }
}

/// A string of nothing but whitespace has no words.
pub proof fn lemma_blank_has_no_tokens(s: Seq<char>)
    requires
        forall|i: int| 0 <= i < s.len() ==> is_whitespace(#[trigger] s[i]),
    ensures
        tokens(s) == Seq::<Seq<char>>::empty(),
        scan(s) == (Seq::<Seq<char>>::empty(), Seq::<char>::empty()),
    decreases s.len(),
{
    if s.len() > 0 {
        assert forall|i: int| 0 <= i < s.drop_last().len() implies is_whitespace(
            #[trigger] s.drop_last()[i],
        ) by {
            assert(s.drop_last()[i] == s[i]);
        }
        lemma_blank_has_no_tokens(s.drop_last());
        assert(is_whitespace(s[s.len() - 1]));
    }
}

/// A normal form holds only lowercase ASCII letters and digits.
pub proof fn lemma_normalize_is_normalized(s: Seq<char>)
    ensures
        is_normalized(normalize_spec(s)),
    decreases s.len(),
{
    if s.len() > 0 {
        lemma_normalize_is_normalized(s.drop_last());
    }
}

/// Normalizing a string that is already in normal form changes nothing.
pub proof fn lemma_normalize_fixes_normalized(s: Seq<char>)
    requires
        is_normalized(s),
    ensures
        normalize_spec(s) == s,
    decreases s.len(),
{
    if s.len() > 0 {
        lemma_normalize_fixes_normalized(s.drop_last());
        assert(s.drop_last().push(s.last()) == s);
    }
}

/// Normalization is idempotent: normalizing twice gives what normalizing
/// once gives.
pub proof fn lemma_normalize_idempotent(s: Seq<char>)
    ensures
        normalize_spec(normalize_spec(s)) == normalize_spec(s),
{
    lemma_normalize_is_normalized(s);
    lemma_normalize_fixes_normalized(normalize_spec(s));
}

} // verus!
