//! Scoring one candidate against a pattern.

use crate::score::{Measure, Score};
use crate::substring::{
    find_first, is_leftmost, leftmost, lemma_leftmost_exists, lemma_leftmost_unique, occurs,
    occurs_at,
};
use vstd::prelude::*;
use vstd::string::StringSliceAdditionalSpecFns;
use vstd::utf8::encode_utf8;

verus! {

/// The text that `str::to_uppercase` of the standard library returns for the
/// text `s`: its uppercase form under the Unicode case mapping.
pub uninterp spec fn uppercase(s: Seq<char>) -> Seq<char>;

/// `str::to_uppercase` of the standard library, taken on trust: the string
/// it returns is the uppercase form of its argument, which depends on the
/// characters of the argument alone. Nothing else is claimed of that form.
pub assume_specification[ str::to_uppercase ](s: &str) -> (r: String)
    ensures
        r@ == uppercase(s@),
;

/// The bytes that are searched and measured: the UTF-8 encoding of the
/// uppercase form of `s`.
pub open spec fn folded(s: Seq<char>) -> Seq<u8> {
    encode_utf8(uppercase(s))
}

/// The score of the byte string `pattern` against the byte string
/// `candidate`, both already in uppercase form.
///
/// There is none where the candidate is empty, where the pattern does not
/// occur in it, or where `100 * P - I` is not positive for the leftmost
/// occurrence `I`.
pub open spec fn match_score(pattern: Seq<u8>, candidate: Seq<u8>) -> Option<Measure> {
    let index = leftmost(pattern, candidate);
    if candidate.len() > 0 && occurs(pattern, candidate) && index < 100 * pattern.len() {
        Some(
            Measure {
                pattern_len: pattern.len(),
                candidate_len: candidate.len(),
                index: index as nat,
            },
        )
    } else {
        None
    }
}

/// The score of the text `pattern` against the text `candidate`, compared
/// without regard to case.
pub open spec fn match_of(pattern: Seq<char>, candidate: Seq<char>) -> Option<Measure> {
    match_score(folded(pattern), folded(candidate))
}

/// What an executable result says, as a measure.
pub open spec fn measure_of(r: Option<Score>) -> Option<Measure> {
    match r {
        Some(s) => Some(s@),
        None => None,
    }
}

/// Scores the byte string `pattern` against the byte string `candidate`: the
/// leftmost occurrence is located and measured, and a score that would not be
/// positive is no match.
pub fn score_bytes(pattern: &[u8], candidate: &[u8]) -> (r: Option<Score>)
    ensures
        measure_of(r) == match_score(pattern@, candidate@),
        r matches Some(s) ==> s.wf(),
{
    if candidate.len() == 0 {
        return None;
    }
    match find_first(pattern, candidate) {
        None => None,
        Some(index) => {
            proof {
                lemma_leftmost_unique(pattern@, candidate@, index as int);
            }
            if index / 100 < pattern.len() {
                Some(Score { pattern_len: pattern.len(), candidate_len: candidate.len(), index })
            } else {
                None
            }
        },
    }
}

/// Scores `pattern` against the candidate `s` without regard to case.
///
/// Both texts are put into uppercase form. Where the pattern then occurs in
/// the candidate, the result measures the leftmost occurrence in bytes of the
/// UTF-8 encoding; it is `None` where there is no occurrence, where the
/// candidate is empty, and where the score would not be positive.
pub fn fuzzy_match(pattern: &str, s: &str) -> (r: Option<Score>)
    ensures
        measure_of(r) == match_of(pattern@, s@),
        r matches Some(score) ==> score.wf(),
{
    let candidate = s.to_uppercase();
    let pattern = pattern.to_uppercase();
    score_bytes(pattern.as_str().as_bytes(), candidate.as_str().as_bytes())
}

/// A pattern that does not occur in the candidate has no score.
pub proof fn law_no_occurrence_no_score(pattern: Seq<u8>, candidate: Seq<u8>)
    requires
        !occurs(pattern, candidate),
    ensures
        match_score(pattern, candidate) is None,
{
}

/// Where the uppercase form of the pattern does not occur in the uppercase
/// form of the candidate, the two texts have no score.
pub proof fn law_no_occurrence_no_match(pattern: Seq<char>, candidate: Seq<char>)
    ensures
        !occurs(folded(pattern), folded(candidate)) ==> match_of(pattern, candidate) is None,
{
}

/// A pattern and a candidate with the same, non-empty uppercase form score
/// 100 exactly.
pub proof fn law_same_uppercase_is_perfect(pattern: Seq<char>, candidate: Seq<char>)
    ensures
        uppercase(pattern) == uppercase(candidate) && folded(candidate).len() > 0 ==> {
            &&& match_of(pattern, candidate) is Some
            &&& match_of(pattern, candidate).unwrap().perfect()
            &&& match_of(pattern, candidate).unwrap().index == 0
        },
{
    if uppercase(pattern) == uppercase(candidate) && folded(candidate).len() > 0 {
        law_equal_is_perfect(folded(candidate));
    }
}

/// A non-empty pattern scored against itself has the score 100 exactly.
pub proof fn law_equal_is_perfect(text: Seq<u8>)
    requires
        text.len() > 0,
    ensures
        match_score(text, text) == Some(
            Measure { pattern_len: text.len(), candidate_len: text.len(), index: 0 },
        ),
        match_score(text, text).unwrap().perfect(),
{
    assert(text.subrange(0, text.len() as int) =~= text);
    assert(occurs_at(text, text, 0));
    lemma_leftmost_unique(text, text, 0);
}

/// Every score is greater than 0 and at most 100, and it measures an
/// occurrence of the pattern that no occurrence precedes.
pub proof fn law_score_in_range(pattern: Seq<u8>, candidate: Seq<u8>)
    requires
        match_score(pattern, candidate) is Some,
    ensures
        ({
            let m = match_score(pattern, candidate).unwrap();
            &&& m.wf()
            &&& m.denominator() > 0
            &&& 0 < m.numerator() <= 100 * m.denominator()
            &&& is_leftmost(pattern, candidate, m.index as int)
        }),
{
    let w = choose|i: int| occurs_at(pattern, candidate, i);
    lemma_leftmost_exists(pattern, candidate, w);
}

/// Scored against a fixed candidate, a longer prefix of the candidate is
/// worth at least as much as a shorter one: where the shorter has a score,
/// the longer has one too, and it is not smaller.
pub proof fn law_prefix_monotone(candidate: Seq<u8>, shorter: int, longer: int)
    requires
        0 <= shorter <= longer <= candidate.len(),
        match_score(candidate.subrange(0, shorter), candidate) is Some,
    ensures
        match_score(candidate.subrange(0, longer), candidate) is Some,
        match_score(candidate.subrange(0, longer), candidate).unwrap().at_least(
            match_score(candidate.subrange(0, shorter), candidate).unwrap(),
        ),
{
    let a = candidate.subrange(0, shorter);
    let b = candidate.subrange(0, longer);
    assert(candidate.subrange(0, 0int + a.len()) =~= a);
    assert(candidate.subrange(0, 0int + b.len()) =~= b);
    assert(occurs_at(a, candidate, 0));
    assert(occurs_at(b, candidate, 0));
    lemma_leftmost_unique(a, candidate, 0);
    lemma_leftmost_unique(b, candidate, 0);
    let s = candidate.len() as int;
    assert((100 * longer) * s >= (100 * shorter) * s) by (nonlinear_arith)
        requires
            0 <= shorter <= longer,
            s >= 0,
    ;
}

} // verus!
