//! The two std string transformations that card and suit parsing apply to
//! their input before matching: trimming and Unicode upper-casing.

use vstd::prelude::*;
use vstd::utf8::is_ascii_chars;

verus! {

/// A character with the Unicode White_Space property: U+0009..U+000D, U+0020,
/// U+0085, U+00A0, U+1680, U+2000..U+200A, U+2028, U+2029, U+202F, U+205F,
/// U+3000 (what `char::is_whitespace` accepts).
pub open spec fn white_space(c: char) -> bool {
    ||| '\u{9}' <= c <= '\u{d}'
    ||| c == ' '
    ||| c == '\u{85}'
    ||| c == '\u{a0}'
    ||| c == '\u{1680}'
    ||| '\u{2000}' <= c <= '\u{200a}'
    ||| c == '\u{2028}'
    ||| c == '\u{2029}'
    ||| c == '\u{202f}'
    ||| c == '\u{205f}'
    ||| c == '\u{3000}'
}

/// Every character of `s` is white space.
pub open spec fn all_white_space(s: Seq<char>) -> bool {
    forall|i: int| 0 <= i < s.len() ==> white_space(#[trigger] s[i])
}

/// `s` without its leading white space.
pub open spec fn trim_start(s: Seq<char>) -> Seq<char>
    decreases s.len(),
{
    if s.len() > 0 && white_space(s[0]) {
        trim_start(s.drop_first())
    } else {
        s
    }
}

/// `s` without its trailing white space.
pub open spec fn trim_end(s: Seq<char>) -> Seq<char>
    decreases s.len(),
{
    if s.len() > 0 && white_space(s.last()) {
        trim_end(s.drop_last())
    } else {
        s
    }
}

/// `s` with leading and trailing white space removed.
pub open spec fn trimmed(s: Seq<char>) -> Seq<char> {
    trim_end(trim_start(s))
}

/// What `str::to_uppercase` gives back for a string: its Unicode upper-case
/// mapping (which may change the length for some non-ASCII characters).
pub uninterp spec fn uppercased(s: Seq<char>) -> Seq<char>;

/// True when every character is printable ASCII ('!'..='~'), so none is whitespace.
pub open spec fn printable_ascii(s: Seq<char>) -> bool {
    forall|i: int| 0 <= i < s.len() ==> '!' <= #[trigger] s[i] <= '~'
}

/// The ASCII upper-case mapping of one character: 'a'..='z' become 'A'..='Z',
/// every other character is unchanged.
pub open spec fn ascii_upper_char(c: char) -> char {
    if 'a' <= c <= 'z' {
        ((c as u32) - 32) as char
    } else {
        c
    }
}

pub open spec fn ascii_upper(s: Seq<char>) -> Seq<char> {
    s.map_values(|c: char| ascii_upper_char(c))
}

/// Calls `str::trim`: leading and trailing characters with the Unicode
/// White_Space property are removed, as the function's documentation states.
#[verifier::external_body]
pub(crate) fn trim_str(s: &str) -> (r: &str)
    ensures
        r@ == trimmed(s@),
{
    s.trim()
}

/// Calls `str::to_uppercase`. Claims its result is `uppercased` of the input,
/// and that on an all-ASCII string it is the ASCII upper-case mapping
/// (a..z to A..Z, everything else unchanged).
#[verifier::external_body]
pub(crate) fn uppercase_str(s: &str) -> (r: String)
    ensures
        r@ == uppercased(s@),
        is_ascii_chars(s@) ==> r@ == ascii_upper(s@),
{
    s.to_uppercase()
}

/// A string of printable ASCII characters has no white space to trim.
pub proof fn lemma_trim_printable(s: Seq<char>)
    requires
        printable_ascii(s),
    ensures
        trimmed(s) == s,
{
    if s.len() > 0 {
        assert('!' <= s[0] <= '~');
        assert('!' <= s.last() <= '~');
    }
}

/// White space alone trims to nothing.
proof fn lemma_trim_start_all_space(s: Seq<char>)
    requires
        all_white_space(s),
    ensures
        trim_start(s) == Seq::<char>::empty(),
    decreases s.len(),
{
    if s.len() > 0 {
        assert(white_space(s[0]));
        lemma_trim_start_all_space(s.drop_first());
    } else {
        assert(s =~= Seq::<char>::empty());
    }
}

/// Trimming the start of `a + t`: past an all-white `a`, as trimming `t`;
/// otherwise the trim stops inside `a`.
proof fn lemma_trim_start_append(a: Seq<char>, t: Seq<char>)
    ensures
        all_white_space(a) ==> trim_start(a + t) == trim_start(t),
        !all_white_space(a) ==> trim_start(a + t) == trim_start(a) + t,
    decreases a.len(),
{
    if a.len() == 0 {
        assert(a + t =~= t);
    } else {
        assert((a + t)[0] == a[0]);
        assert((a + t).drop_first() =~= a.drop_first() + t);
        lemma_trim_start_append(a.drop_first(), t);
        if white_space(a[0]) {
            if all_white_space(a) {
                assert(all_white_space(a.drop_first()));
            } else {
                let i = choose|i: int| 0 <= i < a.len() && !white_space(#[trigger] a[i]);
                assert(a.drop_first()[i - 1] == a[i]);
            }
        } else {
            assert(!white_space(a[0]));
        }
    }
}

/// Trailing white space does not change what trimming the end gives.
proof fn lemma_trim_end_append(t: Seq<char>, b: Seq<char>)
    requires
        all_white_space(b),
    ensures
        trim_end(t + b) == trim_end(t),
    decreases b.len(),
{
    if b.len() == 0 {
        assert(t + b =~= t);
    } else {
        assert((t + b).last() == b.last());
        assert((t + b).drop_last() =~= t + b.drop_last());
        assert(white_space(b[b.len() - 1]));
        lemma_trim_end_append(t, b.drop_last());
    }
}

/// Surrounding white space does not change what trimming gives.
pub proof fn lemma_trim_surrounding(pre: Seq<char>, s: Seq<char>, post: Seq<char>)
    requires
        all_white_space(pre),
        all_white_space(post),
    ensures
        trimmed(pre + s + post) == trimmed(s),
{
    assert(pre + s + post =~= pre + (s + post));
    lemma_trim_start_append(pre, s + post);
    lemma_trim_start_append(s, post);
    if all_white_space(s) {
        lemma_trim_start_all_space(post);
        lemma_trim_start_all_space(s);
    } else {
        lemma_trim_end_append(trim_start(s), post);
    }
}

} // verus!
