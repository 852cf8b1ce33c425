//! What this crate takes from the standard library's Unicode tables and
//! string buffers, stated over `Seq<char>`.
//!
//! The White_Space property is a short list of characters and is written
//! out here (`char::is_whitespace` is then computed in verified code).  The
//! Unicode case mappings take pages to write out, so each gets a name;
//! beside each name stands what the standard library's own code and
//! documentation show.

use vstd::prelude::*;

verus! {

/// The Unicode lowercase form of a string.
pub uninterp spec fn unicode_lowercase(s: Seq<char>) -> Seq<char>;

/// The Unicode uppercase form of a string.
pub uninterp spec fn unicode_uppercase(s: Seq<char>) -> Seq<char>;

/// A character below U+0080.
pub open spec fn is_ascii_char(c: char) -> bool {
    c <= '\u{7f}'
}

/// A sequence made only of ASCII characters.
pub open spec fn all_ascii(s: Seq<char>) -> bool {
    forall|i: int| 0 <= i < s.len() ==> is_ascii_char(#[trigger] s[i])
}

/// The characters with the Unicode White_Space property (PropList.txt):
/// `'\t'` through `'\r'`, space, U+0085, U+00A0, U+1680, U+2000 through
/// U+200A, U+2028, U+2029, U+202F, U+205F and U+3000.
pub open spec fn char_is_whitespace(c: char) -> bool {
    ||| ('\t' <= c && c <= '\r')
    ||| c == ' '
    ||| c == '\u{85}'
    ||| c == '\u{a0}'
    ||| c == '\u{1680}'
    ||| ('\u{2000}' <= c && c <= '\u{200a}')
    ||| c == '\u{2028}'
    ||| c == '\u{2029}'
    ||| c == '\u{202f}'
    ||| c == '\u{205f}'
    ||| c == '\u{3000}'
}

/// What `str::to_lowercase` returns.  Its code maps ASCII characters with
/// `u8::to_ascii_lowercase`, so an all-ASCII string comes back with
/// `'A'..='Z'` lowered and nothing else changed; any other string is left to
/// the name `unicode_lowercase`.
pub open spec fn str_lowercase(s: Seq<char>) -> Seq<char> {
    if all_ascii(s) {
        s.map_values(|c: char| ascii_lower(c))
    } else {
        unicode_lowercase(s)
    }
}

/// What `str::to_uppercase` returns: as with `str_lowercase`, an all-ASCII
/// string has `'a'..='z'` raised and nothing else changed; any other string
/// is left to the name `unicode_uppercase`.
pub open spec fn str_uppercase(s: Seq<char>) -> Seq<char> {
    if all_ascii(s) {
        s.map_values(|c: char| ascii_upper(c))
    } else {
        unicode_uppercase(s)
    }
}

/// `char::to_ascii_lowercase`: `'A'..='Z'` become `'a'..='z'`, nothing else changes.
pub open spec fn ascii_lower(c: char) -> char {
    if 'A' <= c && c <= 'Z' {
        ((c as u32) + 32) as char
    } else {
        c
    }
}

/// `char::to_ascii_uppercase`: `'a'..='z'` become `'A'..='Z'`, nothing else changes.
pub open spec fn ascii_upper(c: char) -> char {
    if 'a' <= c && c <= 'z' {
        ((c as u32) - 32) as char
    } else {
        c
    }
}

/// `str::to_lowercase`: the Unicode lowercase form of `s`, as a new string.
/// Every character lowercases to one or more characters (as
/// `char::to_lowercase` documents; the final-sigma rule picks one of two
/// single characters), so the result is at least as long as `s`; and no
/// character's lowercase mapping in Unicode's tables holds `/` but `/`'s
/// own, so a `/` in the result comes from one in `s`.
pub assume_specification[ str::to_lowercase ](s: &str) -> (res: String)
    ensures
        all_ascii(s@) ==> res@ == s@.map_values(|c: char| ascii_lower(c)),
        !all_ascii(s@) ==> res@ == unicode_lowercase(s@),
        res@.len() >= s@.len(),
        res@.contains('/') ==> s@.contains('/'),
;

/// `str::to_uppercase`: the Unicode uppercase form of `s`, as a new string.
pub assume_specification[ str::to_uppercase ](s: &str) -> (res: String)
    ensures
        all_ascii(s@) ==> res@ == s@.map_values(|c: char| ascii_upper(c)),
        !all_ascii(s@) ==> res@ == unicode_uppercase(s@),
;

/// `String::push`: appends `ch` to the end of the string.
pub assume_specification[ String::push ](s: &mut String, ch: char)
    ensures
        final(s)@ == old(s)@.push(ch),
;

} // verus!
