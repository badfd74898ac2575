use vstd::prelude::*;
use vstd::string::StringSliceAdditionalSpecFns;

verus! {

/// The result of `onig::Regex::new(pattern)` followed by
/// `match_with_param(text, at, SEARCH_OPTION_NONE, region, MatchParam::default())`
/// and `region.pos(group)`: `None` when the pattern does not compile or the
/// match fails with an error, `Some(None)` when the pattern does not match at
/// the byte offset `at`, and `Some(Some((len, pos)))` when it matches `len`
/// bytes there, `pos` being the byte span of capture group `group`, if that
/// group took part.
pub uninterp spec fn onig_match_at(pattern: Seq<char>, text: Seq<char>, at: usize, group: usize) -> Option<
    Option<(usize, Option<(usize, usize)>)>,
>;

/// Compiles `pattern` with `onig::Regex::new`, matches it at the byte offset
/// `at` of `text` with `onig::Regex::match_with_param` (no search options,
/// default match parameters) and reads capture group `group` with
/// `onig::Region::pos`. The contract only names the result: what onig
/// computes is not restated here.
#[verifier::external_body]
pub(crate) fn onig_match(pattern: &str, text: &str, at: usize, group: usize) -> (r: Option<
    Option<(usize, Option<(usize, usize)>)>,
>)
    requires
        at <= text.spec_bytes().len(),
    ensures
        r == onig_match_at(pattern@, text@, at, group),
{
    let re = match onig::Regex::new(pattern) {
        Ok(re) => re,
        Err(_) => return None,
    };
    let mut region = onig::Region::new();
    match re.match_with_param(text, at, onig::SearchOptions::SEARCH_OPTION_NONE, Some(&mut region), onig::MatchParam::default()) {
        Ok(Some(len)) => Some(Some((len, region.pos(group)))),
        Ok(None) => Some(None),
        Err(_) => None,
    }
}

/// Collects characters into a `String` with `Iterator::collect`.
#[verifier::external_body]
pub(crate) fn string_of(cs: &[char]) -> (s: String)
    ensures
        s@ == cs@,
{
    cs.iter().collect()
}

/// The number of bytes of a character in UTF-8.
pub open spec fn utf8_width(c: char) -> nat {
    let u = c as u32;
    if u < 0x80 {
        1
    } else if u < 0x800 {
        2
    } else if u < 0x1_0000 {
        3
    } else {
        4
    }
}

/// The byte offset of character `i` of `s` in its UTF-8 encoding.
pub open spec fn byte_offset(s: Seq<char>, i: int) -> nat
    decreases i,
{
    if i <= 0 {
        0
    } else {
        byte_offset(s, i - 1) + utf8_width(s[i - 1])
    }
}

pub proof fn lemma_byte_offset_monotone(s: Seq<char>, i: int, j: int)
    requires
        i <= j,
    ensures
        byte_offset(s, i) <= byte_offset(s, j),
    decreases j - i,
{
    if i < j {
        lemma_byte_offset_monotone(s, i, j - 1);
    }
}

proof fn lemma_offset_drop_first(s: Seq<char>, i: int)
    requires
        1 <= i <= s.len(),
    ensures
        byte_offset(s, i) == utf8_width(s[0]) + byte_offset(s.drop_first(), i - 1),
    decreases i,
{
    assert(byte_offset(s, 0) == 0);
    assert(byte_offset(s.drop_first(), 0) == 0);
    if i > 1 {
        lemma_offset_drop_first(s, i - 1);
        assert(s.drop_first()[i - 2] == s[i - 1]);
    }
}

/// The byte offset of the end of `s` is the length of its UTF-8 encoding.
pub proof fn lemma_byte_len(s: Seq<char>)
    ensures
        byte_offset(s, s.len() as int) == vstd::utf8::encode_utf8(s).len(),
    decreases s.len(),
{
    if s.len() > 0 {
        lemma_offset_drop_first(s, s.len() as int);
        lemma_byte_len(s.drop_first());
        vstd::utf8::char_is_scalar(s[0]);
        let u = s[0] as u32;
        assert(vstd::utf8::encode_scalar(u).len() == utf8_width(s[0]));
    }
}

/// Byte offsets grow strictly with the character index.
pub proof fn lemma_byte_offset_strict(s: Seq<char>, i: int, j: int)
    requires
        0 <= i < j,
    ensures
        byte_offset(s, i) < byte_offset(s, j),
    decreases j - i,
{
    if i + 1 < j {
        lemma_byte_offset_strict(s, i, j - 1);
    }
}

/// The character index found for the byte offset of character `i` is `i`.
pub proof fn lemma_char_index_of_offset(s: Seq<char>, i: int)
    requires
        0 <= i <= s.len(),
    ensures
        char_index(s, byte_offset(s, i) as int) == i,
{
    lemma_char_index_from(s, byte_offset(s, i) as int, 0, i);
}

proof fn lemma_char_index_from(s: Seq<char>, b: int, k: int, i: int)
    requires
        0 <= k <= i <= s.len(),
        b == byte_offset(s, i),
    ensures
        char_index_from(s, b, k) == i,
    decreases i - k,
{
    if k < i {
        lemma_byte_offset_strict(s, k, i);
        lemma_char_index_from(s, b, k + 1, i);
    }
}

/// The character index found for a byte offset at or after that of
/// character `i` is at least `i`.
pub proof fn lemma_char_index_after(s: Seq<char>, b: int, i: int)
    requires
        0 <= i <= s.len(),
        b >= byte_offset(s, i),
    ensures
        i <= char_index(s, b) <= s.len(),
{
    lemma_char_index_after_from(s, b, 0, i);
}

proof fn lemma_char_index_after_from(s: Seq<char>, b: int, k: int, i: int)
    requires
        0 <= k <= i <= s.len(),
        b >= byte_offset(s, i),
    ensures
        i <= char_index_from(s, b, k) <= s.len(),
    decreases s.len() - k,
{
    if k < i {
        lemma_byte_offset_strict(s, k, i);
        lemma_char_index_after_from(s, b, k + 1, i);
    } else {
        lemma_char_index_bounded(s, b, k);
    }
}

proof fn lemma_char_index_bounded(s: Seq<char>, b: int, k: int)
    requires
        0 <= k <= s.len(),
    ensures
        k <= char_index_from(s, b, k) <= s.len(),
    decreases s.len() - k,
{
    if k < s.len() && byte_offset(s, k) < b {
        lemma_char_index_bounded(s, b, k + 1);
    }
}

/// A byte offset past the end of `s` falls after its last character.
pub proof fn lemma_char_index_past(s: Seq<char>, b: int)
    requires
        b > byte_offset(s, s.len() as int),
    ensures
        char_index(s, b) == s.len(),
{
    lemma_char_index_past_from(s, b, 0);
}

proof fn lemma_char_index_past_from(s: Seq<char>, b: int, k: int)
    requires
        0 <= k <= s.len(),
        b > byte_offset(s, s.len() as int),
    ensures
        char_index_from(s, b, k) == s.len(),
    decreases s.len() - k,
{
    if k < s.len() {
        lemma_byte_offset_monotone(s, k, s.len() as int);
        lemma_char_index_past_from(s, b, k + 1);
    }
}

/// The first character index from `i` on whose byte offset reaches `b`
/// (the length of `s` when none does).
pub open spec fn char_index_from(s: Seq<char>, b: int, i: int) -> int
    decreases s.len() - i,
{
    if i >= s.len() || byte_offset(s, i) >= b {
        i
    } else {
        char_index_from(s, b, i + 1)
    }
}

/// The first character index whose byte offset reaches `b`.
pub open spec fn char_index(s: Seq<char>, b: int) -> int {
    char_index_from(s, b, 0)
}

/// The number of bytes of `c` in UTF-8.
pub fn char_width(c: char) -> (w: usize)
    ensures
        w == utf8_width(c),
{
    let u = c as u32;
    if u < 0x80 {
        1
    } else if u < 0x800 {
        2
    } else if u < 0x1_0000 {
        3
    } else {
        4
    }
}

/// The byte offsets of every character boundary of `s`.
pub fn byte_offsets(s: &[char]) -> (r: Vec<usize>)
    requires
        byte_offset(s@, s@.len() as int) <= usize::MAX,
    ensures
        r@.len() == s@.len() + 1,
        forall|i: int| 0 <= i <= s@.len() ==> r@[i] == byte_offset(s@, i),
{
    let mut r: Vec<usize> = Vec::new();
    r.push(0);
    let mut acc: usize = 0;
    let mut i: usize = 0;
    while i < s.len()
        invariant
            i <= s@.len(),
            byte_offset(s@, s@.len() as int) <= usize::MAX,
            r@.len() == i + 1,
            acc == byte_offset(s@, i as int),
            forall|j: int| 0 <= j <= i ==> r@[j] == byte_offset(s@, j),
        decreases s@.len() - i,
    {
        proof {
            lemma_byte_offset_monotone(s@, i + 1, s@.len() as int);
        }
        acc = acc + char_width(s[i]);
        r.push(acc);
        i = i + 1;
    }
    r
}

/// The byte offsets of every character boundary of `s`, when the last one
/// fits in a `usize`.
pub fn try_byte_offsets(s: &[char]) -> (r: Option<Vec<usize>>)
    ensures
        r is Some <==> byte_offset(s@, s@.len() as int) <= usize::MAX,
        r matches Some(v) ==> {
            &&& v@.len() == s@.len() + 1
            &&& forall|i: int| 0 <= i <= s@.len() ==> v@[i] == byte_offset(s@, i)
        },
{
    let mut acc: usize = 0;
    let mut i: usize = 0;
    while i < s.len()
        invariant
            i <= s@.len(),
            acc == byte_offset(s@, i as int),
        decreases s@.len() - i,
    {
        let w = char_width(s[i]);
        if w > usize::MAX - acc {
            proof {
                lemma_byte_offset_monotone(s@, i + 1, s@.len() as int);
            }
            return None;
        }
        acc = acc + w;
        i = i + 1;
    }
    Some(byte_offsets(s))
}

/// The first character index whose byte offset (as listed in `offs`)
/// reaches `b`.
pub(crate) fn char_index_of(offs: &Vec<usize>, s: Ghost<Seq<char>>, b: usize) -> (r: usize)
    requires
        offs@.len() == s@.len() + 1,
        forall|i: int| 0 <= i <= s@.len() ==> offs@[i] == byte_offset(s@, i),
    ensures
        r == char_index(s@, b as int),
        r <= s@.len(),
{
    let n = offs.len() - 1;
    let mut i: usize = 0;
    while i < n && offs[i] < b
        invariant
            n == s@.len(),
            offs@.len() == s@.len() + 1,
            forall|j: int| 0 <= j <= s@.len() ==> offs@[j] == byte_offset(s@, j),
            i <= n,
            char_index(s@, b as int) == char_index_from(s@, b as int, i as int),
        decreases n - i,
    {
        i = i + 1;
    }
    i
}

} // verus!
