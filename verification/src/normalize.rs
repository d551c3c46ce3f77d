//! Fuzzy text evidence: the normal form of free text and its similarity
//! score, from the `rapidfuzz` crate's Indel distance.
use vstd::prelude::*;

use crate::compare::Score;
use crate::text::{compare_chars, lemma_lex_antisym, lex_sign, normal_text, normalize_text, string_of};

verus! {

/// The length of a longest common subsequence of two sequences.
pub open spec fn lcs_len(a: Seq<char>, b: Seq<char>) -> nat
    decreases a.len() + b.len(),
{
    if a.len() == 0 || b.len() == 0 {
        0
    } else if a.last() == b.last() {
        lcs_len(a.drop_last(), b.drop_last()) + 1
    } else {
        let x = lcs_len(a.drop_last(), b);
        let y = lcs_len(a, b.drop_last());
        if x >= y {
            x
        } else {
            y
        }
    }
}

/// The Indel distance of two sequences: the fewest insertions and deletions
/// that turn one into the other, which is both lengths less twice a longest
/// common subsequence.
pub open spec fn rapidfuzz_indel_distance(a: Seq<char>, b: Seq<char>) -> int {
    a.len() + b.len() - 2 * lcs_len(a, b)
}

/// Calls `rapidfuzz::distance::indel::distance` on two character sequences,
/// which its documentation defines as the Indel distance: the minimum number
/// of insertions and deletions that turn one into the other.
#[verifier::external_body]
fn indel_distance(a: &[char], b: &[char]) -> (d: usize)
    ensures
        d as int == rapidfuzz_indel_distance(a@, b@),
{
    rapidfuzz::distance::indel::distance(a.iter().copied(), b.iter().copied())
}

/// The normalized Indel similarity of two sequences, `1 - distance / (len1 + len2)`
/// clamped to `0..=1`, in basis points, computed exactly and rounded half up.
///
/// This is `rapidfuzz::fuzz::ratio` scaled to a score everywhere but at exact
/// ties: that function computes in binary floating point, where a tie can
/// land just below the half and round down (combined length 320 with
/// distance 206 gives 3563 here and 3562 through the floating ratio).
pub open spec fn ratio_basis_points(a: Seq<char>, b: Seq<char>) -> u16 {
    let m: int = (a.len() + b.len()) as int;
    let d: int = rapidfuzz_indel_distance(a, b) as int;
    if m == 0 {
        10_000
    } else if d >= m {
        0
    } else {
        (((m - d) * 20_000 + m) / (2 * m)) as u16
    }
}

/// The similarity of two texts in basis points: zero when either normal form
/// is empty, else the ratio of the normal forms, taken in lexicographic order
/// (the Indel distance is symmetric, so the order only fixes one call).
pub open spec fn similarity_spec(left: Seq<char>, right: Seq<char>) -> u16 {
    let l = normal_text(left);
    let r = normal_text(right);
    if l.len() == 0 || r.len() == 0 {
        0
    } else if lex_sign(l, r) <= 0 {
        ratio_basis_points(l, r)
    } else {
        ratio_basis_points(r, l)
    }
}

/// A common subsequence is no longer than either sequence.
proof fn lemma_lcs_bounded(a: Seq<char>, b: Seq<char>)
    ensures
        lcs_len(a, b) <= a.len(),
        lcs_len(a, b) <= b.len(),
    decreases a.len() + b.len(),
{
    if a.len() > 0 && b.len() > 0 {
        lemma_lcs_bounded(a.drop_last(), b.drop_last());
        lemma_lcs_bounded(a.drop_last(), b);
        lemma_lcs_bounded(a, b.drop_last());
    }
}

/// A ratio is at most the full score.
pub proof fn lemma_ratio_bounded(a: Seq<char>, b: Seq<char>)
    ensures
        ratio_basis_points(a, b) <= 10_000,
{
    let m: int = (a.len() + b.len()) as int;
    let d: int = rapidfuzz_indel_distance(a, b) as int;
    lemma_lcs_bounded(a, b);
    if m != 0 && d < m {
        let v = ((m - d) * 20_000 + m) / (2 * m);
        assert(v <= 10_000) by (nonlinear_arith)
            requires
                m > 0,
                0 <= d < m,
                v == ((m - d) * 20_000 + m) / (2 * m),
        {
            assert((m - d) * 20_000 + m < 10_001 * (2 * m));
        }
    }
}

/// Similarity is at most the full score.
pub proof fn lemma_similarity_bounded(left: Seq<char>, right: Seq<char>)
    ensures
        similarity_spec(left, right) <= 10_000,
{
    lemma_ratio_bounded(normal_text(left), normal_text(right));
    lemma_ratio_bounded(normal_text(right), normal_text(left));
}

/// Similarity does not depend on the order of its arguments.
pub proof fn lemma_similarity_symmetric(left: Seq<char>, right: Seq<char>)
    ensures
        similarity_spec(left, right) == similarity_spec(right, left),
{
    lemma_lex_antisym(normal_text(left), normal_text(right));
}

/// A sequence is its own longest common subsequence.
proof fn lemma_lcs_self(a: Seq<char>)
    ensures
        lcs_len(a, a) == a.len(),
    decreases a.len(),
{
    if a.len() > 0 {
        lemma_lcs_self(a.drop_last());
    }
}

/// A text with a non-empty normal form is fully similar to itself.
pub proof fn lemma_similarity_self(x: Seq<char>)
    requires
        normal_text(x).len() > 0,
    ensures
        similarity_spec(x, x) == 10_000,
{
    let l = normal_text(x);
    lemma_lex_antisym(l, l);
    lemma_lcs_self(l);
    let m: int = (l.len() + l.len()) as int;
    assert(rapidfuzz_indel_distance(l, l) == 0);
    assert((m * 20_000 + m) / (2 * m) == 10_000) by (nonlinear_arith)
        requires
            m > 0,
    {
        assert(m * 20_000 + m == 10_000 * (2 * m) + m);
    }
}

/// Normalizes free text for fuzzy comparison: trimmed, lower-cased, and with
/// alphanumeric words joined by single spaces.
pub fn text(value: &str) -> (r: String)
    ensures
        r@ == normal_text(value@),
{
    let v = normalize_text(value);
    string_of(v.as_slice())
}

fn ratio_score(l: &[char], r: &[char]) -> (s: Score)
    ensures
        s@ == ratio_basis_points(l@, r@),
{
    let d = indel_distance(l, r);
    let m: u128 = l.len() as u128 + r.len() as u128;
    let d_wide: u128 = d as u128;
    if m == 0 {
        return Score::from_valid(10_000);
    }
    if d_wide >= m {
        return Score::from_valid(0);
    }
    let numerator: u128 = (m - d_wide) * 20_000 + m;
    let denominator: u128 = 2 * m;
    let v: u128 = numerator / denominator;
    assert(v <= 10_000) by (nonlinear_arith)
        requires
            m > 0,
            d_wide < m,
            numerator == (m - d_wide) * 20_000 + m,
            denominator == 2 * m,
            v == numerator / denominator,
    {
        assert(numerator < 10_001 * denominator);
    }
    Score::from_valid(v as u16)
}

/// Scores the similarity of two texts after normalization.
pub fn similarity(left: &str, right: &str) -> (s: Score)
    ensures
        s@ == similarity_spec(left@, right@),
{
    let l = normalize_text(left);
    let r = normalize_text(right);
    if l.len() == 0 || r.len() == 0 {
        return Score::from_valid(0);
    }
    if compare_chars(l.as_slice(), r.as_slice()) <= 0 {
        ratio_score(l.as_slice(), r.as_slice())
    } else {
        ratio_score(r.as_slice(), l.as_slice())
    }
}

} // verus!
