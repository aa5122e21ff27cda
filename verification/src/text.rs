//! Character classes, trimming, and the standardisation of names and versions.
//!
//! Names are standardised before they are stored or compared, so that, for
//! example, "Linux" and "linux" denote the same element.

use vstd::prelude::*;

use crate::information::{first_index, lemma_first_index};

verus! {

/// Versions keep at most this many characters.
pub const VERSION_MAX_LENGTH: usize = 50;

/// Summaries of custom texts show at most this many bytes of the text.
pub const MAX_CHARS_CUSTOM_REPORT: usize = 64;

/// A character with the Unicode property `White_Space`.
pub open spec fn is_white_space(c: char) -> bool {
    let u = c as u32;
    ||| 0x09 <= u <= 0x0d
    ||| u == 0x20
    ||| u == 0x85
    ||| u == 0xa0
    ||| u == 0x1680
    ||| 0x2000 <= u <= 0x200a
    ||| u == 0x2028
    ||| u == 0x2029
    ||| u == 0x202f
    ||| u == 0x205f
    ||| u == 0x3000
}

/// A character of the Unicode general category `Cc` (control).
pub open spec fn is_control(c: char) -> bool {
    let u = c as u32;
    u <= 0x1f || (0x7f <= u <= 0x9f)
}

/// A character of the ASCII range.
pub open spec fn is_ascii_char(c: char) -> bool {
    (c as u32) < 0x80
}

/// An ASCII upper case letter.
pub open spec fn is_ascii_upper(c: char) -> bool {
    0x41 <= (c as u32) <= 0x5a
}

/// The characters that a standardised text may hold: ASCII and no control.
pub open spec fn is_kept(c: char) -> bool {
    is_ascii_char(c) && !is_control(c)
}

/// The lower case of a character of the ASCII range (other characters are
/// returned unchanged).
pub open spec fn ascii_lower(c: char) -> char {
    if is_ascii_upper(c) {
        ((c as u32) + 32) as char
    } else {
        c
    }
}

/// The upper case of a character of the ASCII range (other characters are
/// returned unchanged).
pub open spec fn ascii_upper(c: char) -> char {
    if 0x61 <= (c as u32) <= 0x7a {
        ((c as u32) - 32) as char
    } else {
        c
    }
}

/// The text without its leading white space.
pub open spec fn trim_start(s: Seq<char>) -> Seq<char>
    decreases s.len(),
{
    if s.len() > 0 && is_white_space(s[0]) {
        trim_start(s.subrange(1, s.len() as int))
    } else {
        s
    }
}

/// The text without its trailing white space.
pub open spec fn trim_end(s: Seq<char>) -> Seq<char>
    decreases s.len(),
{
    if s.len() > 0 && is_white_space(s.last()) {
        trim_end(s.drop_last())
    } else {
        s
    }
}

/// The text without leading and trailing white space.
pub open spec fn trim(s: Seq<char>) -> Seq<char> {
    trim_end(trim_start(s))
}

/// The characters of the text that are ASCII and not control characters, in order.
pub open spec fn retain_kept(s: Seq<char>) -> Seq<char>
    decreases s.len(),
{
    if s.len() == 0 {
        Seq::empty()
    } else if is_kept(s.last()) {
        retain_kept(s.drop_last()).push(s.last())
    } else {
        retain_kept(s.drop_last())
    }
}

/// The text with each ASCII upper case letter replaced by its lower case.
pub open spec fn lower(s: Seq<char>) -> Seq<char> {
    s.map_values(|c: char| ascii_lower(c))
}

/// The text with each ASCII lower case letter replaced by its upper case.
pub open spec fn upper(s: Seq<char>) -> Seq<char> {
    s.map_values(|c: char| ascii_upper(c))
}

/// A standardised name: without non-ASCII and control characters, then
/// trimmed, then in lower case.
pub open spec fn standard_name(s: Seq<char>) -> Seq<char> {
    lower(trim(retain_kept(s)))
}

/// A standardised version: trimmed, then without non-ASCII and control
/// characters, then cut to the first `VERSION_MAX_LENGTH` characters.
pub open spec fn standard_version(s: Seq<char>) -> Seq<char> {
    let r = retain_kept(trim(s));
    if r.len() > VERSION_MAX_LENGTH {
        r.take(VERSION_MAX_LENGTH as int)
    } else {
        r
    }
}

/// Whether a character has the Unicode property `White_Space`.
pub fn is_white_space_char(c: char) -> (b: bool)
    ensures
        b == is_white_space(c),
{
    let u = c as u32;
    (0x09 <= u && u <= 0x0d) || u == 0x20 || u == 0x85 || u == 0xa0 || u == 0x1680 || (0x2000
        <= u && u <= 0x200a) || u == 0x2028 || u == 0x2029 || u == 0x202f || u == 0x205f || u
        == 0x3000
}

/// Whether a character is kept in a standardised text.
pub fn is_kept_char(c: char) -> (b: bool)
    ensures
        b == is_kept(c),
{
    let u = c as u32;
    u < 0x80 && !(u <= 0x1f || (0x7f <= u && u <= 0x9f))
}

/// The lower case of an ASCII character.
pub fn ascii_lower_char(c: char) -> (r: char)
    requires
        is_ascii_char(c),
    ensures
        r == ascii_lower(c),
{
    let u = c as u8;
    if 0x41 <= u && u <= 0x5a {
        (u + 32) as char
    } else {
        c
    }
}

/// Reads the characters of a string slice into a vector.
pub fn chars_of(s: &str) -> (v: Vec<char>)
    ensures
        v@ == s@,
{
    broadcast use vstd::string::axiom_spec_iter;

    let mut v: Vec<char> = Vec::new();
    for c in it: s.chars()
        invariant
            v@ == it.seq().take(it.index() as int),
            it.seq() == s@,
    {
        v.push(c);
    }
    v
}

/// Whether two texts are equal, character by character.
pub fn same_text(a: &str, b: &str) -> (r: bool)
    ensures
        r == (a@ == b@),
{
    let x = chars_of(a);
    let y = chars_of(b);
    if x.len() != y.len() {
        return false;
    }
    let mut i: usize = 0;
    while i < x.len()
        invariant
            i <= x.len() == y.len(),
            x@ == a@,
            y@ == b@,
            forall|k: int| 0 <= k < i ==> x@[k] == y@[k],
        decreases x.len() - i,
    {
        if x[i] != y[i] {
            return false;
        }
        i += 1;
    }
    assert(x@ == y@);
    true
}

/// Appends a character to a string (`String::push`).
#[verifier::external_body]
pub(crate) fn push_char(s: &mut String, c: char)
    ensures
        final(s)@ == old(s)@.push(c),
{
    s.push(c);
}

/// Appends a string slice to a string (`String::push_str`).
#[verifier::external_body]
pub(crate) fn push_str(s: &mut String, t: &str)
    ensures
        final(s)@ == old(s)@ + t@,
{
    s.push_str(t);
}

/// Builds a string from the characters `v[lo..hi]`.
pub fn string_from_range(v: &Vec<char>, lo: usize, hi: usize) -> (s: String)
    requires
        lo <= hi <= v.len(),
    ensures
        s@ == v@.subrange(lo as int, hi as int),
{
    let mut s = String::new();
    let mut i = lo;
    while i < hi
        invariant
            lo <= i <= hi <= v.len(),
            s@ == v@.subrange(lo as int, i as int),
        decreases hi - i,
    {
        push_char(&mut s, v[i]);
        assert(v@.subrange(lo as int, i + 1) == v@.subrange(lo as int, i as int).push(v@[i as int]));
        i += 1;
    }
    s
}

/// Builds a string from a sequence of characters.
pub fn string_from_chars(v: &Vec<char>) -> (s: String)
    ensures
        s@ == v@,
{
    let s = string_from_range(v, 0, v.len());
    assert(v@.subrange(0, v.len() as int) == v@);
    s
}

/// Skipping leading white space one character at a time gives the same trim.
proof fn lemma_trim_start_skip(s: Seq<char>, i: int)
    requires
        0 <= i <= s.len(),
        forall|k: int| 0 <= k < i ==> is_white_space(#[trigger] s[k]),
    ensures
        trim_start(s) == trim_start(s.subrange(i, s.len() as int)),
    decreases i,
{
    if i > 0 {
        let t = s.subrange(1, s.len() as int);
        assert forall|k: int| 0 <= k < i - 1 implies is_white_space(#[trigger] t[k]) by {
            assert(t[k] == s[k + 1]);
        }
        lemma_trim_start_skip(t, i - 1);
        assert(t.subrange(i - 1, t.len() as int) == s.subrange(i, s.len() as int));
    } else {
        assert(s.subrange(0, s.len() as int) == s);
    }
}

/// Dropping trailing white space one character at a time gives the same trim.
proof fn lemma_trim_end_skip(s: Seq<char>, j: int)
    requires
        0 <= j <= s.len(),
        forall|k: int| j <= k < s.len() ==> is_white_space(#[trigger] s[k]),
    ensures
        trim_end(s) == trim_end(s.subrange(0, j)),
    decreases s.len() - j,
{
    if j < s.len() {
        let t = s.drop_last();
        lemma_trim_end_skip(t, j);
        assert(t.subrange(0, j) == s.subrange(0, j));
    } else {
        assert(s.subrange(0, s.len() as int) == s);
    }
}

/// The bounds `(lo, hi)` of the trimmed part of a text.
pub fn trim_bounds(v: &Vec<char>) -> (r: (usize, usize))
    ensures
        r.0 <= r.1 <= v.len(),
        v@.subrange(r.0 as int, r.1 as int) == trim(v@),
{
    let n = v.len();
    let mut i: usize = 0;
    while i < n && is_white_space_char(v[i])
        invariant
            i <= n == v.len(),
            forall|k: int| 0 <= k < i ==> is_white_space(#[trigger] v@[k]),
        decreases n - i,
    {
        i += 1;
    }
    let mut j: usize = n;
    while j > i && is_white_space_char(v[j - 1])
        invariant
            i <= j <= n == v.len(),
            forall|k: int| j <= k < n ==> is_white_space(#[trigger] v@[k]),
        decreases j - i,
    {
        j -= 1;
    }
    proof {
        lemma_trim_start_skip(v@, i as int);
        let t = v@.subrange(i as int, n as int);
        assert(trim_start(t) == t);
        assert forall|k: int| j - i <= k < t.len() implies is_white_space(#[trigger] t[k]) by {
            assert(t[k] == v@[k + i]);
        }
        lemma_trim_end_skip(t, j - i);
        let u = t.subrange(0, j - i);
        assert(u == v@.subrange(i as int, j as int));
        assert(trim_end(u) == u);
    }
    (i, j)
}

/// The text of `v[lo..hi]` without non-ASCII and control characters.
pub fn retain_kept_range(v: &Vec<char>, lo: usize, hi: usize) -> (out: Vec<char>)
    requires
        lo <= hi <= v.len(),
    ensures
        out@ == retain_kept(v@.subrange(lo as int, hi as int)),
{
    let mut out: Vec<char> = Vec::new();
    let mut i = lo;
    assert(v@.subrange(lo as int, lo as int) =~= Seq::<char>::empty());
    while i < hi
        invariant
            lo <= i <= hi <= v.len(),
            out@ == retain_kept(v@.subrange(lo as int, i as int)),
        decreases hi - i,
    {
        let c = v[i];
        assert(v@.subrange(lo as int, i + 1).drop_last() == v@.subrange(lo as int, i as int));
        if is_kept_char(c) {
            out.push(c);
        }
        i += 1;
    }
    out
}

/// Every character of `retain_kept(s)` is kept.
pub proof fn lemma_retain_kept_all_kept(s: Seq<char>)
    ensures
        forall|k: int| 0 <= k < retain_kept(s).len() ==> is_kept(#[trigger] retain_kept(s)[k]),
    decreases s.len(),
{
    if s.len() > 0 {
        let p = s.drop_last();
        lemma_retain_kept_all_kept(p);
        let r = retain_kept(s);
        assert forall|k: int| 0 <= k < r.len() implies is_kept(#[trigger] r[k]) by {
            if k < retain_kept(p).len() {
                assert(r[k] == retain_kept(p)[k]);
            }
        }
    }
}

/// Changing the case of an ASCII letter changes neither whether a character is
/// white space nor whether it is kept, and the lower case stays the same.
proof fn lemma_upper_char(c: char)
    ensures
        is_white_space(ascii_upper(c)) == is_white_space(c),
        is_kept(ascii_upper(c)) == is_kept(c),
        ascii_lower(ascii_upper(c)) == ascii_lower(c),
{
}

proof fn lemma_upper_trim_start(s: Seq<char>)
    ensures
        trim_start(upper(s)) == upper(trim_start(s)),
    decreases s.len(),
{
    if s.len() > 0 {
        lemma_upper_char(s[0]);
        let t = s.subrange(1, s.len() as int);
        assert(upper(s).subrange(1, s.len() as int) == upper(t));
        lemma_upper_trim_start(t);
    }
}

proof fn lemma_upper_trim_end(s: Seq<char>)
    ensures
        trim_end(upper(s)) == upper(trim_end(s)),
    decreases s.len(),
{
    if s.len() > 0 {
        lemma_upper_char(s.last());
        assert(upper(s).drop_last() == upper(s.drop_last()));
        lemma_upper_trim_end(s.drop_last());
    }
}

proof fn lemma_upper_retain(s: Seq<char>)
    ensures
        retain_kept(upper(s)) == upper(retain_kept(s)),
    decreases s.len(),
{
    if s.len() > 0 {
        lemma_upper_char(s.last());
        assert(upper(s).drop_last() == upper(s.drop_last()));
        lemma_upper_retain(s.drop_last());
        if is_kept(s.last()) {
            assert(upper(retain_kept(s.drop_last()).push(s.last())) == upper(
                retain_kept(s.drop_last()),
            ).push(ascii_upper(s.last())));
        }
    } else {
        assert(upper(s) == Seq::<char>::empty());
    }
}

proof fn lemma_lower_char(c: char)
    ensures
        is_white_space(ascii_lower(c)) == is_white_space(c),
{
}

/// Upper-casing before standardising changes nothing.
proof fn lemma_standard_name_upper(s: Seq<char>)
    ensures
        standard_name(upper(s)) == standard_name(s),
{
    lemma_upper_retain(s);
    let r = retain_kept(s);
    lemma_upper_trim_start(r);
    lemma_upper_trim_end(trim_start(r));
    let t = trim(r);
    assert forall|k: int| 0 <= k < t.len() implies #[trigger] lower(upper(t))[k] == lower(t)[k] by {
        lemma_upper_char(t[k]);
    }
    assert(lower(upper(t)) == lower(t));
}

/// Names that differ only in the case of their ASCII letters are standardised
/// to the same name.
pub proof fn law_standard_name_ignores_case(s: Seq<char>)
    ensures
        standard_name(upper(s)) == standard_name(s),
        standard_name(lower(s)) == standard_name(s),
{
    lemma_standard_name_upper(s);
    lemma_standard_name_upper(lower(s));
    assert forall|k: int| 0 <= k < s.len() implies #[trigger] upper(lower(s))[k] == upper(s)[k] by {
    }
    assert(upper(lower(s)) == upper(s));
}

/// A trimmed text starts and ends with something other than white space.
proof fn lemma_trim_start_first(s: Seq<char>)
    ensures
        trim_start(s).len() > 0 ==> !is_white_space(trim_start(s)[0]),
    decreases s.len(),
{
    if s.len() > 0 && is_white_space(s[0]) {
        lemma_trim_start_first(s.subrange(1, s.len() as int));
    }
}

/// `trim_end` keeps a prefix, whose last character is not white space.
proof fn lemma_trim_end_prefix(s: Seq<char>)
    ensures
        trim_end(s).len() <= s.len(),
        trim_end(s) == s.take(trim_end(s).len() as int),
        trim_end(s).len() > 0 ==> !is_white_space(trim_end(s).last()),
    decreases s.len(),
{
    if s.len() > 0 && is_white_space(s.last()) {
        lemma_trim_end_prefix(s.drop_last());
        assert(s.drop_last().take(trim_end(s).len() as int) == s.take(trim_end(s).len() as int));
    } else {
        assert(s.take(s.len() as int) == s);
    }
}

/// The ends of a trimmed text are not white space.
proof fn lemma_trim_ends(s: Seq<char>)
    ensures
        trim(s).len() > 0 ==> !is_white_space(trim(s)[0]) && !is_white_space(trim(s).last()),
{
    lemma_trim_start_first(s);
    lemma_trim_end_prefix(trim_start(s));
    if trim(s).len() > 0 {
        assert(trim(s)[0] == trim_start(s)[0]);
    }
}

/// `trim_start` keeps a suffix.
proof fn lemma_trim_start_suffix(s: Seq<char>)
    ensures
        trim_start(s).len() <= s.len(),
        trim_start(s) == s.skip(s.len() - trim_start(s).len()),
    decreases s.len(),
{
    if s.len() > 0 && is_white_space(s[0]) {
        let t = s.subrange(1, s.len() as int);
        lemma_trim_start_suffix(t);
        assert(t.skip(t.len() - trim_start(t).len()) == s.skip(s.len() - trim_start(t).len()));
    } else {
        assert(s.skip(0) == s);
    }
}

/// Trimming a text of kept characters leaves kept characters.
proof fn lemma_trim_keeps_kept(s: Seq<char>)
    requires
        forall|k: int| 0 <= k < s.len() ==> is_kept(#[trigger] s[k]),
    ensures
        forall|k: int| 0 <= k < trim(s).len() ==> is_kept(#[trigger] trim(s)[k]),
{
    lemma_trim_start_suffix(s);
    let u = trim_start(s);
    let d = s.len() - u.len();
    assert forall|k: int| 0 <= k < u.len() implies is_kept(#[trigger] u[k]) by {
        assert(u[k] == s[d + k]);
    }
    lemma_trim_end_prefix(u);
    assert forall|k: int| 0 <= k < trim(s).len() implies is_kept(#[trigger] trim(s)[k]) by {
        assert(trim(s)[k] == u[k]);
    }
}

/// A text whose ends are not white space is its own trim.
proof fn lemma_trimmed_identity(t: Seq<char>)
    requires
        t.len() > 0 ==> !is_white_space(t[0]) && !is_white_space(t.last()),
    ensures
        trim(t) == t,
{
}

/// A text of kept characters is unchanged by `retain_kept`.
proof fn lemma_retain_all_kept(s: Seq<char>)
    requires
        forall|k: int| 0 <= k < s.len() ==> is_kept(#[trigger] s[k]),
    ensures
        retain_kept(s) == s,
    decreases s.len(),
{
    if s.len() > 0 {
        lemma_retain_all_kept(s.drop_last());
        assert(s.drop_last().push(s.last()) == s);
    }
}

/// A standardised name holds only ASCII characters that are not control
/// characters, and no upper case letter, and it is trimmed.
pub proof fn law_standard_name_form(s: Seq<char>)
    ensures
        forall|k: int|
            0 <= k < standard_name(s).len() ==> is_kept(#[trigger] standard_name(s)[k])
                && !is_ascii_upper(standard_name(s)[k]),
        trim(standard_name(s)) == standard_name(s),
{
    let r = retain_kept(s);
    lemma_retain_kept_all_kept(s);
    let t = trim(r);
    lemma_trim_keeps_kept(r);
    lemma_trim_ends(r);
    let n = standard_name(s);
    if n.len() > 0 {
        lemma_lower_char(t[0]);
        lemma_lower_char(t.last());
        assert(n[0] == ascii_lower(t[0]));
        assert(n.last() == ascii_lower(t.last()));
    }
    lemma_trimmed_identity(n);
}

/// A name that is already trimmed, made of ASCII characters that are not
/// control characters, and without upper case letters is its own
/// standardisation.
pub proof fn law_standard_name_identity(s: Seq<char>)
    requires
        trim(s) == s,
        forall|k: int| 0 <= k < s.len() ==> is_kept(#[trigger] s[k]) && !is_ascii_upper(s[k]),
    ensures
        standard_name(s) == s,
{
    lemma_retain_all_kept(s);
    assert(lower(s) == s);
}

/// Standardising a standardised name changes nothing.
pub proof fn law_standard_name_idempotent(s: Seq<char>)
    ensures
        standard_name(standard_name(s)) == standard_name(s),
{
    law_standard_name_form(s);
    law_standard_name_identity(standard_name(s));
}

/// A version that is already trimmed, made of ASCII characters that are not
/// control characters, and at most `VERSION_MAX_LENGTH` long is its own
/// standardisation; standardising a version keeps the case of its letters.
pub proof fn law_standard_version_identity(s: Seq<char>)
    requires
        trim(s) == s,
        s.len() <= VERSION_MAX_LENGTH,
        forall|k: int| 0 <= k < s.len() ==> is_kept(#[trigger] s[k]),
    ensures
        standard_version(s) == s,
{
    lemma_retain_all_kept(s);
}

/// A standardised version holds at most `VERSION_MAX_LENGTH` characters, all
/// of them ASCII and none a control character.
pub proof fn law_standard_version_form(s: Seq<char>)
    ensures
        standard_version(s).len() <= VERSION_MAX_LENGTH,
        forall|k: int| 0 <= k < standard_version(s).len() ==> is_kept(#[trigger] standard_version(s)[k]),
{
    lemma_retain_kept_all_kept(trim(s));
    let r = retain_kept(trim(s));
    assert forall|k: int| 0 <= k < standard_version(s).len() implies is_kept(#[trigger] standard_version(s)[k]) by {
        assert(standard_version(s)[k] == r[k]);
    }
}

/// Standardising a standardised version changes nothing, unless removing
/// or cutting characters left white space at one of its ends.
pub proof fn law_standard_version_idempotent(s: Seq<char>)
    requires
        trim(standard_version(s)) == standard_version(s),
    ensures
        standard_version(standard_version(s)) == standard_version(s),
{
    law_standard_version_form(s);
    law_standard_version_identity(standard_version(s));
}

/// Standardises a name: removes the non-ASCII and control characters, then
/// leading and trailing white space, then sets every letter to lower case.
pub fn standardize_name(name: &str) -> (r: String)
    ensures
        r@ == standard_name(name@),
{
    let v = chars_of(name);
    let kept = retain_kept_range(&v, 0, v.len());
    assert(v@.subrange(0, v.len() as int) == name@);
    let (lo, hi) = trim_bounds(&kept);
    proof {
        lemma_retain_kept_all_kept(name@);
    }
    let ghost t = kept@.subrange(lo as int, hi as int);
    let mut out: Vec<char> = Vec::new();
    let mut i: usize = lo;
    while i < hi
        invariant
            lo <= i <= hi <= kept.len(),
            t == kept@.subrange(lo as int, hi as int),
            t == trim(retain_kept(name@)),
            forall|k: int| 0 <= k < kept.len() ==> is_kept(#[trigger] kept@[k]),
            out@ == t.take(i - lo).map_values(|c: char| ascii_lower(c)),
        decreases hi - i,
    {
        let c = ascii_lower_char(kept[i]);
        out.push(c);
        assert(t[i - lo] == kept@[i as int]);
        assert(t.take(i - lo + 1).map_values(|c: char| ascii_lower(c)) == t.take(
            i - lo,
        ).map_values(|c: char| ascii_lower(c)).push(c));
        i += 1;
    }
    assert(t.take(hi - lo) == t);
    string_from_chars(&out)
}

/// Standardises a version: removes leading and trailing white space, then the
/// non-ASCII and control characters, then keeps at most the first
/// `VERSION_MAX_LENGTH` characters. Letters keep their case.
pub fn standardize_version(version: &str) -> (r: String)
    ensures
        r@ == standard_version(version@),
{
    let v = chars_of(version);
    let (lo, hi) = trim_bounds(&v);
    let kept = retain_kept_range(&v, lo, hi);
    if kept.len() > VERSION_MAX_LENGTH {
        string_from_range(&kept, 0, VERSION_MAX_LENGTH)
    } else {
        string_from_chars(&kept)
    }
}


/// The number of bytes of a character in UTF-8.
pub open spec fn utf8_width(c: char) -> nat {
    let u = c as u32;
    if u < 0x80 {
        1
    } else if u < 0x800 {
        2
    } else if u < 0x10000 {
        3
    } else {
        4
    }
}

/// The number of bytes of a text in UTF-8.
pub open spec fn utf8_len(s: Seq<char>) -> nat
    decreases s.len(),
{
    if s.len() == 0 {
        0
    } else {
        utf8_len(s.drop_last()) + utf8_width(s.last())
    }
}

/// The first `n` bytes of the text end on a character boundary.
pub open spec fn has_boundary_at(s: Seq<char>, n: nat) -> bool {
    exists|k: int| 0 <= k <= s.len() && #[trigger] utf8_len(s.take(k)) == n
}

/// The number of characters in the first `n` bytes of the text (meaningful
/// when `has_boundary_at(s, n)`).
pub open spec fn chars_in_bytes(s: Seq<char>, n: nat) -> int {
    choose|k: int| 0 <= k <= s.len() && #[trigger] utf8_len(s.take(k)) == n
}

/// A summary of a custom text can be made: when the trimmed text is longer
/// than `MAX_CHARS_CUSTOM_REPORT` bytes, that many bytes end on a character
/// boundary.
pub open spec fn summary_defined(content: Seq<char>) -> bool {
    utf8_len(trim(content)) > MAX_CHARS_CUSTOM_REPORT ==> has_boundary_at(
        trim(content),
        MAX_CHARS_CUSTOM_REPORT as nat,
    )
}

/// The trimmed text is longer than `MAX_CHARS_CUSTOM_REPORT` bytes.
pub open spec fn summary_is_long(content: Seq<char>) -> bool {
    utf8_len(trim(content)) > MAX_CHARS_CUSTOM_REPORT
}

/// The trimmed text, cut to its first `MAX_CHARS_CUSTOM_REPORT` bytes.
pub open spec fn summary_cut(content: Seq<char>) -> Seq<char> {
    let t = trim(content);
    if summary_is_long(content) {
        t.take(chars_in_bytes(t, MAX_CHARS_CUSTOM_REPORT as nat))
    } else {
        t
    }
}

/// The part of a custom text that its summary shows: the cut text, before
/// its first line break.
pub open spec fn summary_shown(content: Seq<char>) -> Seq<char> {
    summary_cut(content).take(first_index(summary_cut(content), '\n'))
}

/// Something of the custom text is not shown in its summary.
pub open spec fn summary_has_more(content: Seq<char>) -> bool {
    summary_is_long(content) || first_index(summary_cut(content), '\n') < summary_cut(content).len()
}

/// The one-line summary of a custom text: `custom: ` and the trimmed text,
/// cut to its first `MAX_CHARS_CUSTOM_REPORT` bytes and before its first line
/// break, followed by `...` when anything was cut.
pub open spec fn custom_summary(content: Seq<char>) -> Seq<char> {
    "custom: "@ + summary_shown(content) + if summary_has_more(content) {
        seq!['.', '.', '.']
    } else {
        Seq::empty()
    }
}

/// Longer prefixes have more bytes.
proof fn lemma_utf8_len_prefix(s: Seq<char>, j: int, k: int)
    requires
        0 <= j < k <= s.len(),
    ensures
        utf8_len(s.take(j)) < utf8_len(s.take(k)),
    decreases k - j,
{
    assert(s.take(k).drop_last() == s.take(k - 1));
    if j < k - 1 {
        lemma_utf8_len_prefix(s, j, k - 1);
    }
}

/// The number of bytes of a character in UTF-8.
pub fn utf8_width_of(c: char) -> (w: usize)
    ensures
        w == utf8_width(c),
{
    let u = c as u32;
    if u < 0x80 {
        1
    } else if u < 0x800 {
        2
    } else if u < 0x10000 {
        3
    } else {
        4
    }
}

/// The one-line summary of a custom text (see `custom_summary`).
pub fn summarize_custom(content: &str) -> (r: String)
    requires
        summary_defined(content@),
    ensures
        r@ == custom_summary(content@),
{
    let v = chars_of(content);
    let (lo, hi) = trim_bounds(&v);
    let ghost t = v@.subrange(lo as int, hi as int);
    let mut i = lo;
    let mut b: usize = 0;
    while i < hi && b < MAX_CHARS_CUSTOM_REPORT
        invariant
            lo <= i <= hi <= v.len(),
            t == v@.subrange(lo as int, hi as int),
            b == utf8_len(t.take(i - lo)),
            i > lo ==> utf8_len(t.take(i - lo - 1)) < MAX_CHARS_CUSTOM_REPORT,
        decreases hi - i,
    {
        assert(t.take(i - lo + 1).drop_last() == t.take(i - lo));
        assert(t[i - lo] == v@[i as int]);
        b += utf8_width_of(v[i]);
        i += 1;
    }
    let long = b > MAX_CHARS_CUSTOM_REPORT || i < hi;
    proof {
        assert(t.take(t.len() as int) == t);
        if i < hi {
            lemma_utf8_len_prefix(t, i - lo, t.len() as int);
        }
        assert(long == (utf8_len(t) > MAX_CHARS_CUSTOM_REPORT));
        if long {
            assert(has_boundary_at(t, MAX_CHARS_CUSTOM_REPORT as nat));
            let k = chars_in_bytes(t, MAX_CHARS_CUSTOM_REPORT as nat);
            if k < i - lo {
                if i - lo - 1 > k {
                    lemma_utf8_len_prefix(t, k, i - lo - 1);
                }
            }
            if k > i - lo {
                lemma_utf8_len_prefix(t, i - lo, k);
            }
            assert(k == i - lo);
        }
    }
    let end = if long {
        i
    } else {
        hi
    };
    let ghost cut = v@.subrange(lo as int, end as int);
    assert(cut == if long {
        t.take(chars_in_bytes(t, MAX_CHARS_CUSTOM_REPORT as nat))
    } else {
        t
    });
    let mut j = lo;
    while j < end && v[j] != '\n'
        invariant
            lo <= j <= end <= hi <= v.len(),
            cut == v@.subrange(lo as int, end as int),
            forall|k: int| 0 <= k < j - lo ==> #[trigger] cut[k] != '\n',
        decreases end - j,
    {
        assert(cut[j - lo] == v@[j as int]);
        j += 1;
    }
    proof {
        lemma_first_index(cut, '\n');
        let f = first_index(cut, '\n');
        if f < j - lo {
            assert(cut[f] == '\n');
        }
        if j < end {
            assert(cut[j - lo] == v@[j as int]);
        }
        if f > j - lo {
            assert(cut[j - lo] != '\n');
        }
        assert(f == j - lo);
    }
    let dots = long || j < end;
    let mut r = "custom: ".to_owned();
    let mut k = lo;
    while k < j
        invariant
            lo <= k <= j <= v.len(),
            r@ == "custom: "@ + v@.subrange(lo as int, k as int),
        decreases j - k,
    {
        push_char(&mut r, v[k]);
        assert(v@.subrange(lo as int, k + 1) == v@.subrange(lo as int, k as int).push(v@[k as int]));
        k += 1;
    }
    assert(v@.subrange(lo as int, j as int) == cut.take(j - lo));
    if dots {
        push_char(&mut r, '.');
        push_char(&mut r, '.');
        push_char(&mut r, '.');
        assert(r@ == "custom: "@ + cut.take(j - lo) + seq!['.', '.', '.']);
    } else {
        assert(r@ == "custom: "@ + cut.take(j - lo) + Seq::<char>::empty());
    }
    r
}


/// An ASCII decimal digit.
pub open spec fn is_digit(c: char) -> bool {
    0x30 <= (c as u32) <= 0x39
}

/// The value of a sequence of decimal digits.
pub open spec fn digits_value(s: Seq<char>) -> nat
    decreases s.len(),
{
    if s.len() == 0 {
        0
    } else {
        digits_value(s.drop_last()) * 10 + ((s.last() as u32) - 0x30) as nat
    }
}

/// The digits of an unsigned decimal number: the text without a leading `+`.
pub open spec fn unsigned_digits(s: Seq<char>) -> Seq<char> {
    if s.len() > 0 && s[0] == '+' {
        s.drop_first()
    } else {
        s
    }
}

/// The text is an unsigned decimal number: an optional `+` and at least one
/// decimal digit, and nothing else.
pub open spec fn is_unsigned_number(s: Seq<char>) -> bool {
    let d = unsigned_digits(s);
    d.len() > 0 && forall|k: int| 0 <= k < d.len() ==> is_digit(#[trigger] d[k])
}

/// A longer prefix of digits has at least the value of a shorter one.
proof fn lemma_digits_value_prefix(d: Seq<char>, j: int, k: int)
    requires
        0 <= j <= k <= d.len(),
        forall|m: int| 0 <= m < d.len() ==> is_digit(#[trigger] d[m]),
    ensures
        digits_value(d.take(j)) <= digits_value(d.take(k)),
    decreases k - j,
{
    if j < k {
        lemma_digits_value_prefix(d, j, k - 1);
        assert(d.take(k).drop_last() == d.take(k - 1));
        assert(d.take(k).last() == d[k - 1]);
        let v = digits_value(d.take(k - 1));
        assert(v <= v * 10) by (nonlinear_arith);
    }
}

/// The unsigned number the text holds, when it holds one that is at most
/// `max` (as `str::parse` reads unsigned integers).
pub open spec fn parse_unsigned_spec(s: Seq<char>, max: nat) -> Option<nat> {
    if is_unsigned_number(s) && digits_value(unsigned_digits(s)) <= max {
        Some(digits_value(unsigned_digits(s)))
    } else {
        None
    }
}

/// Reads an unsigned decimal number that is at most `max` (see
/// `parse_unsigned_spec`); `None` when the text is not such a number.
pub fn parse_unsigned(s: &str, max: u64) -> (r: Option<u64>)
    ensures
        match parse_unsigned_spec(s@, max as nat) {
            Some(v) => r == Some(v as u64),
            None => r is None,
        },
{
    let v = chars_of(s);
    let start: usize = if v.len() > 0 && v[0] == '+' {
        1
    } else {
        0
    };
    let ghost d = unsigned_digits(s@);
    assert(d == v@.subrange(start as int, v.len() as int));
    if start >= v.len() {
        return None;
    }
    let mut value: u64 = 0;
    let mut i = start;
    while i < v.len()
        invariant
            start <= i <= v.len(),
            start < v.len(),
            v@ == s@,
            d == unsigned_digits(s@),
            d == v@.subrange(start as int, v.len() as int),
            forall|k: int| 0 <= k < i - start ==> is_digit(#[trigger] d[k]),
            value == digits_value(d.take(i - start)),
            value <= max,
        decreases v.len() - i,
    {
        let c = v[i];
        assert(d[i - start] == c);
        let u = c as u32;
        if u < 0x30 || u > 0x39 {
            assert(!is_digit(d[i - start]));
            return None;
        }
        let digit = (u - 0x30) as u64;
        assert(d.take(i - start + 1).drop_last() == d.take(i - start));
        assert(digits_value(d.take(i - start + 1)) == value * 10 + digit);
        if digit > max || value > (max - digit) / 10 {
            proof {
                if digit <= max {
                    assert(value * 10 + digit > max) by (nonlinear_arith)
                        requires
                            value > (max - digit) / 10,
                            digit <= max,
                    ;
                }
                // whatever follows, the text holds no number at most `max`
                if is_unsigned_number(s@) {
                    lemma_digits_value_prefix(d, i - start + 1, d.len() as int);
                    assert(d.take(d.len() as int) == d);
                }
            }
            return None;
        }
        assert(value * 10 + digit <= max) by (nonlinear_arith)
            requires
                value <= (max - digit) / 10,
                digit <= 9;
        value = value * 10 + digit;
        i += 1;
    }
    assert(d.take(d.len() as int) == d);
    Some(value)
}


/// A prefix has no more bytes than the whole text.
proof fn lemma_utf8_len_take(s: Seq<char>, j: int)
    requires
        0 <= j <= s.len(),
    ensures
        utf8_len(s.take(j)) <= utf8_len(s),
{
    assert(s.take(s.len() as int) == s);
    if j < s.len() {
        lemma_utf8_len_prefix(s, j, s.len() as int);
    }
}

/// The summary of a custom text starts with `custom: ` and shows the
/// beginning of the trimmed text: at most `MAX_CHARS_CUSTOM_REPORT` bytes of
/// it, on a single line.
pub proof fn law_summary_fits(content: Seq<char>)
    requires
        summary_defined(content),
    ensures
        utf8_len(summary_shown(content)) <= MAX_CHARS_CUSTOM_REPORT,
        !summary_shown(content).contains('\n'),
        summary_shown(content).len() <= trim(content).len(),
        trim(content).take(summary_shown(content).len() as int) == summary_shown(content),
        custom_summary(content).take(8) == "custom: "@,
{
    let t = trim(content);
    let cut = summary_cut(content);
    lemma_first_index(cut, '\n');
    let nl = first_index(cut, '\n');
    if summary_is_long(content) {
        let k = chars_in_bytes(t, MAX_CHARS_CUSTOM_REPORT as nat);
        assert(utf8_len(t.take(k)) == MAX_CHARS_CUSTOM_REPORT);
        lemma_utf8_len_take(cut, nl);
    } else {
        lemma_utf8_len_take(cut, nl);
    }
    let shown = summary_shown(content);
    assert(t.take(shown.len() as int) == shown);
    if shown.contains('\n') {
        let j = choose|j: int| 0 <= j < shown.len() && shown[j] == '\n';
        assert(cut[j] == '\n');
    }
    reveal_strlit("custom: ");
    assert(custom_summary(content).take(8) == "custom: "@);
}

} // verus!
