//! The jamo codec: a precomposed Hangul syllable and its onset, nucleus and
//! optional coda, in both directions.
//!
//! The arithmetic is done by the `hangeul` crate; this module states what
//! that arithmetic is and proves that the two directions invert each other.

use vstd::prelude::*;

verus! {

/// First code point of the precomposed Hangul syllable block.
pub const SYLLABLE_FIRST: u32 = 0xAC00;

/// Last code point of the precomposed Hangul syllable block.
pub const SYLLABLE_LAST: u32 = 0xD7A3;

/// Whether `c` lies in the precomposed Hangul syllable block.
pub open spec fn is_syllable_spec(c: char) -> bool {
    0xAC00 <= c as u32 <= 0xD7A3
}

/// Compatibility-jamo code point of the onset with index `i` (0 to 18).
pub open spec fn onset_code(i: int) -> u32 {
    if i == 0 { 0x3131 }
    else if i == 1 { 0x3132 }
    else if i == 2 { 0x3134 }
    else if i == 3 { 0x3137 }
    else if i == 4 { 0x3138 }
    else if i == 5 { 0x3139 }
    else if i == 6 { 0x3141 }
    else if i == 7 { 0x3142 }
    else if i == 8 { 0x3143 }
    else if i == 9 { 0x3145 }
    else if i == 10 { 0x3146 }
    else if i == 11 { 0x3147 }
    else if i == 12 { 0x3148 }
    else if i == 13 { 0x3149 }
    else if i == 14 { 0x314A }
    else if i == 15 { 0x314B }
    else if i == 16 { 0x314C }
    else if i == 17 { 0x314D }
    else { 0x314E }
}

/// Compatibility-jamo code point of the nucleus with index `i` (0 to 20).
pub open spec fn nucleus_code(i: int) -> u32 {
    (0x314F + i) as u32
}

/// Compatibility-jamo code point of the coda with index `i` (1 to 27).
pub open spec fn coda_code(i: int) -> u32 {
    if i == 1 { 0x3131 }
    else if i == 2 { 0x3132 }
    else if i == 3 { 0x3133 }
    else if i == 4 { 0x3134 }
    else if i == 5 { 0x3135 }
    else if i == 6 { 0x3136 }
    else if i == 7 { 0x3137 }
    else if i == 8 { 0x3139 }
    else if i == 9 { 0x313A }
    else if i == 10 { 0x313B }
    else if i == 11 { 0x313C }
    else if i == 12 { 0x313D }
    else if i == 13 { 0x313E }
    else if i == 14 { 0x313F }
    else if i == 15 { 0x3140 }
    else if i == 16 { 0x3141 }
    else if i == 17 { 0x3142 }
    else if i == 18 { 0x3144 }
    else if i == 19 { 0x3145 }
    else if i == 20 { 0x3146 }
    else if i == 21 { 0x3147 }
    else if i == 22 { 0x3148 }
    else if i == 23 { 0x314A }
    else if i == 24 { 0x314B }
    else if i == 25 { 0x314C }
    else if i == 26 { 0x314D }
    else { 0x314E }
}

/// The decomposition of a code point: for a syllable with offset `v` into
/// the block, the onset `v / 588`, the nucleus `(v % 588) / 28` and the coda
/// `v % 28`, where coda 0 means "no coda"; nothing outside the block.
pub open spec fn decompose_spec(c: char) -> Option<(char, char, Option<char>)> {
    if is_syllable_spec(c) {
        let v = c as u32 as int - 0xAC00;
        Some((
            onset_code(v / 588) as char,
            nucleus_code((v % 588) / 28) as char,
            if v % 28 == 0 { None } else { Some(coda_code(v % 28) as char) },
        ))
    } else {
        None
    }
}

/// Index of an onset consonant, given as a conjoining jamo (U+1100 to
/// U+1112) or as a compatibility jamo; a syllable stands for its own onset.
pub open spec fn onset_index(c: char) -> Option<int> {
    let u = c as u32;
    if 0xAC00 <= u <= 0xD7A3 { Some((u - 0xAC00) / 588) }
    else if 0x1100 <= u <= 0x1112 { Some(u - 0x1100) }
    else if u == 0x3131 { Some(0) }
    else if u == 0x3132 { Some(1) }
    else if u == 0x3134 { Some(2) }
    else if u == 0x3137 { Some(3) }
    else if u == 0x3138 { Some(4) }
    else if u == 0x3139 { Some(5) }
    else if u == 0x3141 { Some(6) }
    else if u == 0x3142 { Some(7) }
    else if u == 0x3143 { Some(8) }
    else if u == 0x3145 { Some(9) }
    else if u == 0x3146 { Some(10) }
    else if u == 0x3147 { Some(11) }
    else if u == 0x3148 { Some(12) }
    else if u == 0x3149 { Some(13) }
    else if u == 0x314A { Some(14) }
    else if u == 0x314B { Some(15) }
    else if u == 0x314C { Some(16) }
    else if u == 0x314D { Some(17) }
    else if u == 0x314E { Some(18) }
    else { None }
}

/// Index of a nucleus vowel, given as a conjoining jamo (U+1161 to U+1175)
/// or as a compatibility jamo (U+314F to U+3163); a syllable stands for its
/// own nucleus.
pub open spec fn nucleus_index(c: char) -> Option<int> {
    let u = c as u32;
    if 0xAC00 <= u <= 0xD7A3 { Some(((u - 0xAC00) % 588) / 28) }
    else if 0x1161 <= u <= 0x1175 { Some(u - 0x1161) }
    else if 0x314F <= u <= 0x3163 { Some(u - 0x314F) }
    else { None }
}

/// Index of a coda consonant, given as a conjoining jamo (U+11A8 to
/// U+11C2) or as a compatibility jamo; a syllable stands for its own coda,
/// 0 where it has none; 0 for anything else.
pub open spec fn coda_char_index(c: char) -> int {
    let u = c as u32;
    if 0xAC00 <= u <= 0xD7A3 { (u - 0xAC00) % 28 }
    else if 0x11A8 <= u <= 0x11C2 { u - 0x11A8 + 1 }
    else if u == 0x3131 { 1 }
    else if u == 0x3132 { 2 }
    else if u == 0x3133 { 3 }
    else if u == 0x3134 { 4 }
    else if u == 0x3135 { 5 }
    else if u == 0x3136 { 6 }
    else if u == 0x3137 { 7 }
    else if u == 0x3139 { 8 }
    else if u == 0x313A { 9 }
    else if u == 0x313B { 10 }
    else if u == 0x313C { 11 }
    else if u == 0x313D { 12 }
    else if u == 0x313E { 13 }
    else if u == 0x313F { 14 }
    else if u == 0x3140 { 15 }
    else if u == 0x3141 { 16 }
    else if u == 0x3142 { 17 }
    else if u == 0x3144 { 18 }
    else if u == 0x3145 { 19 }
    else if u == 0x3146 { 20 }
    else if u == 0x3147 { 21 }
    else if u == 0x3148 { 22 }
    else if u == 0x314A { 23 }
    else if u == 0x314B { 24 }
    else if u == 0x314C { 25 }
    else if u == 0x314D { 26 }
    else if u == 0x314E { 27 }
    else { 0 }
}

/// Index of an optional coda: 0 when it is absent or not a coda consonant.
pub open spec fn coda_index(c: Option<char>) -> int {
    match c {
        Some(ch) => coda_char_index(ch),
        None => 0,
    }
}

/// The composition of three jamo: the syllable at offset
/// `588 * onset + 28 * nucleus + coda` into the block, when the onset and
/// the nucleus are recognised; nothing otherwise.
pub open spec fn compose_spec(onset: char, nucleus: char, coda: Option<char>) -> Option<char> {
    match (onset_index(onset), nucleus_index(nucleus)) {
        (Some(i), Some(j)) => Some((0xAC00 + 588 * i + 28 * j + coda_index(coda)) as u32 as char),
        _ => None,
    }
}

/// Whether the three jamo are what `decompose_spec` yields for some
/// syllable: compatibility jamo throughout, the coda absent or a real coda.
pub open spec fn is_canonical(onset: char, nucleus: char, coda: Option<char>) -> bool {
    &&& 0x3131 <= onset as u32 <= 0x314E
    &&& onset_index(onset) is Some
    &&& 0x314F <= nucleus as u32 <= 0x3163
    &&& match coda {
        Some(ch) => 0x3131 <= ch as u32 <= 0x314E && coda_char_index(ch) != 0,
        None => true,
    }
}

/// Calls `hangeul::decompose_char`. The contract restates that function:
/// it answers only for a code point of the syllable block, and then with the
/// compatibility jamo that the block's index arithmetic selects.
#[verifier::external_body]
fn decompose_char(c: char) -> (r: Option<(char, char, Option<char>)>)
    ensures
        r == decompose_spec(c),
{
    hangeul::decompose_char(&c).ok()
}

/// Calls `hangeul::compose_char`. The contract restates that function: it
/// answers when onset and nucleus are recognised, each as a jamo of either
/// block or as a syllable that stands for its own part; an unrecognised
/// coda counts as none; and the result is the syllable at the summed offset.
#[verifier::external_body]
fn compose_char(onset: char, nucleus: char, coda: Option<char>) -> (r: Option<char>)
    ensures
        r == compose_spec(onset, nucleus, coda),
{
    hangeul::compose_char(&onset, &nucleus, coda.as_ref()).ok()
}

/// Whether `c` is a precomposed Hangul syllable.
pub fn is_syllable(c: char) -> (r: bool)
    ensures
        r == is_syllable_spec(c),
{
    let u: u32 = c as u32;
    SYLLABLE_FIRST <= u && u <= SYLLABLE_LAST
}

/// Splits a syllable into onset, nucleus and optional coda; `None` for any
/// code point outside the syllable block.
pub fn decompose(c: char) -> (r: Option<(char, char, Option<char>)>)
    ensures
        r == decompose_spec(c),
        r is Some <==> is_syllable_spec(c),
{
    decompose_char(c)
}

/// Joins onset, nucleus and optional coda into a syllable; `None` when the
/// onset or the nucleus is not recognised. A jamo of either block is
/// recognised, and so is a whole syllable, which then stands for its own
/// onset, nucleus or coda.
pub fn compose(onset: char, nucleus: char, coda: Option<char>) -> (r: Option<char>)
    ensures
        r == compose_spec(onset, nucleus, coda),
        r is Some <==> onset_index(onset) is Some && nucleus_index(nucleus) is Some,
        r is Some ==> is_syllable_spec(r->0),
{
    proof {
        lemma_compose_in_block(onset, nucleus, coda);
    }
    compose_char(onset, nucleus, coda)
}

/// Every composition lands inside the syllable block.
pub proof fn lemma_compose_in_block(onset: char, nucleus: char, coda: Option<char>)
    ensures
        compose_spec(onset, nucleus, coda) is Some ==> is_syllable_spec(
            compose_spec(onset, nucleus, coda)->0,
        ),
{
}

/// Composing what a syllable decomposes into gives the syllable back.
pub proof fn lemma_compose_decompose(s: char)
    requires
        is_syllable_spec(s),
    ensures
        decompose_spec(s) is Some,
        ({
            let t = decompose_spec(s)->0;
            is_canonical(t.0, t.1, t.2) && compose_spec(t.0, t.1, t.2) == Some(s)
        }),
{
    let v = s as u32 as int - 0xAC00;
    assert(0 <= v / 588 <= 18);
    assert(0 <= (v % 588) / 28 <= 20);
    assert(0 <= v % 28 <= 27);
    assert(v == 588 * (v / 588) + 28 * ((v % 588) / 28) + v % 28);
}

/// The onset table and its inverse agree on compatibility jamo.
proof fn lemma_onset_tables(onset: char)
    requires
        0x3131 <= onset as u32 <= 0x314E,
        onset_index(onset) is Some,
    ensures
        0 <= onset_index(onset)->0 <= 18,
        onset_code(onset_index(onset)->0) as char == onset,
{
}

/// The coda table and its inverse agree on compatibility jamo.
proof fn lemma_coda_tables(coda: char)
    requires
        0x3131 <= coda as u32 <= 0x314E,
        coda_char_index(coda) != 0,
    ensures
        1 <= coda_char_index(coda) <= 27,
        coda_code(coda_char_index(coda)) as char == coda,
{
}

/// The three indices are recovered from the offset they sum to.
proof fn lemma_offset_parts(i: int, j: int, k: int)
    requires
        0 <= i <= 18,
        0 <= j <= 20,
        0 <= k <= 27,
    ensures
        (588 * i + 28 * j + k) / 588 == i,
        ((588 * i + 28 * j + k) % 588) / 28 == j,
        (588 * i + 28 * j + k) % 28 == k,
        0 <= 588 * i + 28 * j + k < 11172,
{
}

/// Decomposing what a canonical triple composes into gives the triple back.
pub proof fn lemma_decompose_compose(onset: char, nucleus: char, coda: Option<char>)
    requires
        is_canonical(onset, nucleus, coda),
    ensures
        compose_spec(onset, nucleus, coda) is Some,
        decompose_spec(compose_spec(onset, nucleus, coda)->0) == Some((onset, nucleus, coda)),
{
    let i = onset_index(onset)->0;
    let j = nucleus_index(nucleus)->0;
    let k = coda_index(coda);
    let v = 588 * i + 28 * j + k;
    lemma_onset_tables(onset);
    if coda is Some {
        lemma_coda_tables(coda->0);
    }
    lemma_offset_parts(i, j, k);
    let s = compose_spec(onset, nucleus, coda)->0;
    assert(s as u32 == 0xAC00 + v);
    assert(nucleus_code(j) as char == nucleus);
}

} // verus!
