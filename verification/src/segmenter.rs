//! Greedy longest-match segmentation.
//!
//! At each position of the input the segmenter looks for the longest
//! dictionary word, at most [`MAX_WORD_LEN`] characters long, that starts
//! there. A match is emitted as a segment and consumed whole; when no length
//! matches, one character is dropped without producing a segment. The output
//! is therefore lossy: characters with no dictionary entry vanish from it.

use vstd::prelude::*;
use vstd::string::StrSliceExecFns;
use vstd::string::StringExecFns;

use crate::dict::Dictionary;

verus! {

/// The fixed ceiling on match length, in characters. It is a pragmatic bound
/// on word length, independent of the dictionary's actual contents: an entry
/// longer than this is never matched.
pub const MAX_WORD_LEN: usize = 4;

/// The longest length `l`, with `1 <= l <= cap`, such that the first `l`
/// characters of `s` form a dictionary word; `0` when no length matches.
pub open spec fn match_len_from(dict: Set<Seq<char>>, s: Seq<char>, cap: int) -> int
    decreases cap,
{
    if cap <= 0 {
        0
    } else if cap <= s.len() && dict.contains(s.take(cap)) {
        cap
    } else {
        match_len_from(dict, s, cap - 1)
    }
}

/// The length consumed by the scanner at the front of `s`: the longest match
/// of at most [`MAX_WORD_LEN`] characters, or `0` when one character is to be
/// dropped.
pub open spec fn match_len_at(dict: Set<Seq<char>>, s: Seq<char>) -> int {
    match_len_from(dict, s, MAX_WORD_LEN as int)
}

/// The ordered sequence of segments the scanner emits for `s`: the longest
/// match at the current position is emitted and consumed; when nothing
/// matches, the front character is dropped and produces no segment.
pub open spec fn segments_of(dict: Set<Seq<char>>, s: Seq<char>) -> Seq<Seq<char>>
    decreases s.len(),
{
    if s.len() == 0 {
        Seq::empty()
    } else {
        let l = match_len_at(dict, s);
        if 1 <= l <= s.len() {
            seq![s.take(l)] + segments_of(dict, s.skip(l))
        } else {
            segments_of(dict, s.skip(1))
        }
    }
}

/// The display form of a segment sequence, built left to right: an empty
/// accumulator is replaced by the segment, a non-empty one gets a `/`
/// separator first, so the result carries no leading or trailing separator.
pub open spec fn join_acc(acc: Seq<char>, segs: Seq<Seq<char>>) -> Seq<char>
    decreases segs.len(),
{
    if segs.len() == 0 {
        acc
    } else if acc.len() == 0 {
        join_acc(segs[0], segs.skip(1))
    } else {
        join_acc(acc + seq!['/'] + segs[0], segs.skip(1))
    }
}

/// The segments joined with a `/` separator; zero segments join to the empty
/// string.
pub open spec fn joined(segs: Seq<Seq<char>>) -> Seq<char> {
    join_acc(Seq::empty(), segs)
}

/// A matched length is between 1 and `cap`, never exceeds the text, and names
/// a dictionary word; a zero result means no admissible length matches.
pub proof fn lemma_match_len_from_bounds(dict: Set<Seq<char>>, s: Seq<char>, cap: int)
    requires
        0 <= cap,
    ensures
        0 <= match_len_from(dict, s, cap) <= cap,
        match_len_from(dict, s, cap) > 0 ==> match_len_from(dict, s, cap) <= s.len()
            && dict.contains(s.take(match_len_from(dict, s, cap))),
        match_len_from(dict, s, cap) == 0 ==> forall|l: int|
            1 <= l <= cap && l <= s.len() ==> !dict.contains(#[trigger] s.take(l)),
    decreases cap,
{
    if cap > 0 && !(cap <= s.len() && dict.contains(s.take(cap))) {
        lemma_match_len_from_bounds(dict, s, cap - 1);
    }
}

/// The longest match at position `pos` of `input`, expressed as the number of
/// characters consumed; `0` when no dictionary word of admissible length
/// starts there.
fn longest_match(input: &str, pos: usize, n: usize, dict: &Dictionary) -> (l: usize)
    requires
        pos < n,
        n == input@.len(),
    ensures
        l as int == match_len_at(dict@, input@.skip(pos as int)),
        l <= n - pos,
{
    let ghost s = input@.skip(pos as int);
    let rem = n - pos;
    let mut cap: usize = MAX_WORD_LEN;
    while cap >= 1
        invariant
            cap <= MAX_WORD_LEN,
            pos < n,
            n == input@.len(),
            rem == n - pos,
            s == input@.skip(pos as int),
            match_len_at(dict@, s) == match_len_from(dict@, s, cap as int),
        decreases cap,
    {
        if cap <= rem {
            let candidate = input.substring_char(pos, pos + cap);
            proof {
                assert(candidate@ =~= s.take(cap as int));
            }
            if dict.contains(candidate) {
                proof {
                    lemma_match_len_from_bounds(dict@, s, cap as int);
                }
                return cap;
            }
        }
        cap -= 1;
    }
    0
}

/// Segments `input` by greedy longest match against `dict`, returning the
/// ordered sequence of matched segments. Unmatched characters are dropped.
pub fn segment_words(input: &str, dict: &Dictionary) -> (segments: Vec<String>)
    ensures
        segments.deep_view() == segments_of(dict@, input@),
{
    let n = input.unicode_len();
    let mut segments: Vec<String> = Vec::new();
    let mut pos: usize = 0;
    proof {
        assert(input@.skip(0) =~= input@);
        assert(segments.deep_view() + segments_of(dict@, input@) =~= segments_of(dict@, input@));
    }
    while pos < n
        invariant
            pos <= n,
            n == input@.len(),
            segments.deep_view() + segments_of(dict@, input@.skip(pos as int)) == segments_of(
                dict@,
                input@,
            ),
        decreases n - pos,
    {
        let ghost s = input@.skip(pos as int);
        let ghost before = segments.deep_view();
        let l = longest_match(input, pos, n, dict);
        proof {
            lemma_match_len_from_bounds(dict@, s, MAX_WORD_LEN as int);
        }
        if l >= 1 {
            let seg = input.substring_char(pos, pos + l);
            segments.push(String::from_str(seg));
            pos = pos + l;
            proof {
                assert(s.take(l as int) =~= seg@);
                assert(s.skip(l as int) =~= input@.skip(pos as int));
                assert(segments_of(dict@, s) == seq![seg@] + segments_of(
                    dict@,
                    input@.skip(pos as int),
                ));
                assert(segments.deep_view() =~= before.push(seg@));
                assert(before.push(seg@) + segments_of(dict@, input@.skip(pos as int)) =~= before
                    + segments_of(dict@, s));
            }
        } else {
            pos = pos + 1;
            proof {
                assert(s.skip(1) =~= input@.skip(pos as int));
                assert(segments_of(dict@, s) == segments_of(dict@, input@.skip(pos as int)));
            }
        }
    }
    proof {
        assert(input@.skip(n as int) =~= Seq::<char>::empty());
        assert(segments.deep_view() + Seq::<Seq<char>>::empty() =~= segments.deep_view());
    }
    segments
}

/// Joins the segments into one display string: a `/` between consecutive
/// non-empty segments, no leading or trailing separator, and the empty string
/// for zero segments.
pub fn join(segments: Vec<String>) -> (r: String)
    ensures
        r@ == joined(segments.deep_view()),
{
    let ghost all = segments.deep_view();
    let mut segmented = String::new();
    let mut i: usize = 0;
    proof {
        assert(all.skip(0) =~= all);
    }
    while i < segments.len()
        invariant
            i <= segments@.len(),
            all == segments.deep_view(),
            join_acc(segmented@, all.skip(i as int)) == joined(all),
        decreases segments@.len() - i,
    {
        let ghost acc = segmented@;
        proof {
            assert(all.skip(i as int)[0] == segments@[i as int]@);
            assert(all.skip(i as int).skip(1) =~= all.skip(i as int + 1));
        }
        if segmented.as_str().is_empty() {
            segmented = segments[i].clone();
        } else {
            segmented.append("/");
            segmented.append(segments[i].as_str());
            proof {
                reveal_strlit("/");
                assert(segmented@ =~= acc + seq!['/'] + segments@[i as int]@);
            }
        }
        i += 1;
    }
    proof {
        assert(all.skip(i as int) =~= Seq::<Seq<char>>::empty());
    }
    segmented
}

/// The segments with a single `/` between each consecutive pair: the natural
/// shape of the display string when no segment is empty.
pub open spec fn interleaved(segs: Seq<Seq<char>>) -> Seq<char>
    decreases segs.len(),
{
    if segs.len() == 0 {
        Seq::empty()
    } else if segs.len() == 1 {
        segs[0]
    } else {
        segs[0] + seq!['/'] + interleaved(segs.skip(1))
    }
}

/// How the left-to-right accumulation unfolds: once the accumulator is
/// non-empty, the remaining non-empty segments are appended behind one `/`
/// each.
proof fn lemma_join_acc_interleaved(acc: Seq<char>, segs: Seq<Seq<char>>)
    requires
        forall|i: int| 0 <= i < segs.len() ==> #[trigger] segs[i].len() > 0,
    ensures
        join_acc(acc, segs) == if segs.len() == 0 {
            acc
        } else if acc.len() == 0 {
            interleaved(segs)
        } else {
            acc + seq!['/'] + interleaved(segs)
        },
    decreases segs.len(),
{
    if segs.len() == 0 {
    } else {
        let rest = segs.skip(1);
        assert(forall|i: int| 0 <= i < rest.len() ==> #[trigger] rest[i].len() > 0);
        if acc.len() == 0 {
            lemma_join_acc_interleaved(segs[0], rest);
        } else {
            lemma_join_acc_interleaved(acc + seq!['/'] + segs[0], rest);
            if rest.len() > 0 {
                assert((acc + seq!['/'] + segs[0]) + seq!['/'] + interleaved(rest) =~= acc
                    + seq!['/'] + (segs[0] + seq!['/'] + interleaved(rest)));
            }
        }
    }
}

/// When no segment is empty (as segmentation guarantees), the joined string
/// is exactly the segments with one `/` between each consecutive pair: no
/// leading or trailing separator, and the empty string for zero segments.
pub proof fn lemma_joined_interleaved(segs: Seq<Seq<char>>)
    requires
        forall|i: int| 0 <= i < segs.len() ==> #[trigger] segs[i].len() > 0,
    ensures
        joined(segs) == interleaved(segs),
{
    lemma_join_acc_interleaved(Seq::empty(), segs);
}

/// Whether `segs` lists contiguous runs of `s`, in left-to-right order and
/// without overlap: either there is nothing left to place, or the first
/// segment is a prefix of `s` and the rest are placed after it, or the first
/// character of `s` is skipped.
pub open spec fn blocks_in_order(segs: Seq<Seq<char>>, s: Seq<char>) -> bool
    decreases segs.len(), s.len(),
{
    if segs.len() == 0 {
        true
    } else if s.len() == 0 {
        false
    } else {
        (segs[0].len() <= s.len() && s.take(segs[0].len() as int) == segs[0] && blocks_in_order(
            segs.skip(1),
            s.skip(segs[0].len() as int),
        )) || blocks_in_order(segs, s.skip(1))
    }
}

/// Segmentation is total and shape-preserving: every emitted segment is a
/// non-empty contiguous run of the input, and the segments appear in the same
/// left-to-right order as in the input.
pub proof fn lemma_segments_well_formed(dict: Set<Seq<char>>, s: Seq<char>)
    ensures
        forall|i: int|
            0 <= i < segments_of(dict, s).len() ==> #[trigger] segments_of(dict, s)[i].len() > 0,
        blocks_in_order(segments_of(dict, s), s),
    decreases s.len(),
{
    if s.len() == 0 {
    } else {
        let l = match_len_at(dict, s);
        let segs = segments_of(dict, s);
        if 1 <= l <= s.len() {
            lemma_segments_well_formed(dict, s.skip(l));
            let rest = segments_of(dict, s.skip(l));
            assert(segs == seq![s.take(l)] + rest);
            assert forall|i: int| 0 <= i < segs.len() implies #[trigger] segs[i].len() > 0 by {
                if i == 0 {
                    assert(segs[0] == s.take(l));
                } else {
                    assert(segs[i] == rest[i - 1]);
                }
            }
            assert(segs[0] == s.take(l));
            assert(s.take(segs[0].len() as int) == segs[0]);
            assert(segs.skip(1) =~= rest);
            assert(blocks_in_order(segs, s));
        } else {
            lemma_segments_well_formed(dict, s.skip(1));
            assert(segs == segments_of(dict, s.skip(1)));
            if segs.len() > 0 {
                assert(blocks_in_order(segs, s.skip(1)));
            }
        }
    }
}

/// The empty input yields the empty segment sequence and joins to the empty
/// string, whatever the dictionary holds.
pub proof fn lemma_empty_input(dict: Set<Seq<char>>)
    ensures
        segments_of(dict, Seq::<char>::empty()) == Seq::<Seq<char>>::empty(),
        joined(segments_of(dict, Seq::<char>::empty())) == Seq::<char>::empty(),
{
}

/// No length ever matches against the empty dictionary.
proof fn lemma_match_len_empty_dict(s: Seq<char>, cap: int)
    ensures
        match_len_from(Set::<Seq<char>>::empty(), s, cap) == 0,
    decreases cap,
{
    if cap > 0 {
        lemma_match_len_empty_dict(s, cap - 1);
    }
}

/// Against the empty dictionary every input yields the empty segment
/// sequence: no single character ever matches, so every character is dropped.
pub proof fn lemma_empty_dict(s: Seq<char>)
    ensures
        segments_of(Set::<Seq<char>>::empty(), s) == Seq::<Seq<char>>::empty(),
    decreases s.len(),
{
    if s.len() > 0 {
        lemma_match_len_empty_dict(s, MAX_WORD_LEN as int);
        lemma_empty_dict(s.skip(1));
    }
}

/// Segmentation is deterministic: the result is a function of the input text
/// and the dictionary contents alone, so any two results produced from equal
/// inputs are equal.
pub proof fn lemma_segment_deterministic(
    dict: Set<Seq<char>>,
    s: Seq<char>,
    r1: Seq<char>,
    r2: Seq<char>,
)
    requires
        r1 == joined(segments_of(dict, s)),
        r2 == joined(segments_of(dict, s)),
    ensures
        r1 == r2,
{
}

/// Segments `input` against `dict` and returns the joined display string.
pub fn segment(input: String, dict: &Dictionary) -> (r: String)
    ensures
        r@ == joined(segments_of(dict@, input@)),
{
    let segments = segment_words(input.as_str(), dict);
    join(segments)
}

} // verus!
