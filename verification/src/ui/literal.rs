//! Literal lines, for paths and identifiers where whitespace is data.
//!
//! Wrapping never deletes or normalises a character: the lines concatenate
//! back to the input exactly, and a glyph wider than the budget keeps a line
//! of its own rather than being lost. Whether a line fits is a measurement
//! in real-valued pixels, so the caller hands it in as a predicate.

use vstd::prelude::*;
use crate::text::push_char;

verus! {

broadcast use vstd::string::group_string_axioms;

/// The lines written one after the other.
pub open spec fn joined(lines: Seq<String>) -> Seq<char>
    decreases lines.len(),
{
    if lines.len() == 0 {
        Seq::empty()
    } else {
        joined(lines.drop_last()) + lines.last()@
    }
}

/// `fits` was asked about `line` and accepted it.
pub open spec fn accepted<F: Fn(&str) -> bool>(fits: F, line: Seq<char>) -> bool {
    exists|s: &str| s@ == line && #[trigger] call_ensures(fits, (s,), true)
}

/// Every prefix of `line` of two characters or more was accepted: the line
/// grew one accepted character at a time.
pub open spec fn grown<F: Fn(&str) -> bool>(fits: F, line: Seq<char>) -> bool {
    forall|j: int| 2 <= j <= line.len() ==> accepted(fits, #[trigger] line.take(j))
}

/// `fits` was asked about `line` and refused it.
pub open spec fn refused<F: Fn(&str) -> bool>(fits: F, line: Seq<char>) -> bool {
    exists|s: &str| s@ == line && #[trigger] call_ensures(fits, (s,), false)
}

proof fn lemma_joined_push(lines: Seq<String>, line: String)
    ensures
        joined(lines.push(line)) == joined(lines) + line@,
{
    assert(lines.push(line).drop_last() =~= lines);
}

/// Wrap `text` into lines without deleting or normalising any character.
/// Characters are added to the current line one at a time; a character
/// starts a new line when the current one is not empty and `fits` refuses
/// the current line with that character added. Empty text gives one empty
/// line.
pub fn wrap_literal<F: Fn(&str) -> bool>(text: &str, fits: F) -> (lines: Vec<String>)
    requires
        forall|s: &str| #[trigger] call_requires(fits, (s,)),
    ensures
        joined(lines@) == text@,
        text@.len() == 0 <==> (lines@.len() == 1 && lines@[0]@.len() == 0),
        text@.len() > 0 ==> forall|i: int| 0 <= i < lines@.len() ==> #[trigger] lines@[i]@.len() > 0,
        forall|i: int| 0 <= i < lines@.len() ==> grown(fits, #[trigger] lines@[i]@),
        forall|i: int| 0 <= i < lines@.len() - 1 ==> refused(fits, #[trigger] lines@[i]@.push(lines@[i + 1]@[0])),
{
    let mut lines: Vec<String> = Vec::new();
    let mut current = String::new();
    for ch in it: text.chars()
        invariant
            it.seq() == text@,
            forall|s: &str| #[trigger] call_requires(fits, (s,)),
            joined(lines@) + current@ == text@.take(it.index()),
            it.index() > 0 ==> current@.len() > 0,
            it.index() == 0 ==> lines@.len() == 0 && current@.len() == 0,
            forall|i: int| 0 <= i < lines@.len() ==> #[trigger] lines@[i]@.len() > 0,
            forall|i: int| 0 <= i < lines@.len() ==> grown(fits, #[trigger] lines@[i]@),
            grown(fits, current@),
            forall|i: int| 0 <= i < lines@.len() - 1 ==> refused(fits, #[trigger] lines@[i]@.push(lines@[i + 1]@[0])),
            lines@.len() > 0 ==> refused(fits, lines@.last()@.push(current@[0])),
    {
        let ghost i = it.index();
        let ghost lines0 = lines@;
        let ghost current0 = current@;
        let mut candidate = current.clone();
        push_char(&mut candidate, ch);
        let mut broke = false;
        if !current.as_str().is_empty() {
            let probe = candidate.as_str();
            let ok = fits(probe);
            if ok {
                proof {
                    assert(probe@ == candidate@);
                    assert(call_ensures(fits, (probe,), true));
                }
            } else {
                proof {
                    assert(probe@ == current0.push(ch));
                    assert(call_ensures(fits, (probe,), false));
                }
                lines.push(current);
                current = String::new();
                broke = true;
            }
        }
        push_char(&mut current, ch);
        proof {
            assert(text@.take(i + 1) =~= text@.take(i).push(ch));
            if broke {
                let line = lines@.last();
                assert(line@ == current0);
                lemma_joined_push(lines0, line);
                assert(lines@ == lines0.push(line));
                assert(joined(lines@) + current@ =~= joined(lines0) + current0 + seq![ch]);
                assert forall|k: int| 0 <= k < lines@.len() implies grown(fits, #[trigger] lines@[k]@) by {
                    if k < lines0.len() {
                        assert(lines@[k] == lines0[k]);
                    }
                }
                assert forall|k: int| 0 <= k < lines@.len() - 1 implies refused(fits, #[trigger] lines@[k]@.push(lines@[k + 1]@[0])) by {
                    if k < lines0.len() - 1 {
                        assert(lines@[k] == lines0[k] && lines@[k + 1] == lines0[k + 1]);
                    } else {
                        assert(lines@[k] == lines0.last());
                        assert(lines@[k + 1]@ == current0);
                    }
                }
                assert(current@ =~= seq![ch]);
                assert(current0.push(ch) == lines@.last()@.push(current@[0]));
            } else {
                assert(current@ == current0.push(ch));
                assert forall|j: int| 2 <= j <= current@.len() implies accepted(fits, #[trigger] current@.take(j)) by {
                    if j < current@.len() {
                        assert(current@.take(j) =~= current0.take(j));
                    } else {
                        assert(current@.take(j) =~= candidate@);
                    }
                }
                assert(joined(lines@) + current@ =~= joined(lines0) + current0 + seq![ch]);
                if lines@.len() > 0 {
                    assert(current@[0] == current0[0]);
                }
            }
        }
    }
    assert(text@.take(text@.len() as int) =~= text@);
    if !current.as_str().is_empty() || lines.len() == 0 {
        let ghost lines0 = lines@;
        let ghost current0 = current@;
        lines.push(current);
        proof {
            let line = lines@.last();
            lemma_joined_push(lines0, line);
            assert(lines@ == lines0.push(line));
            assert forall|k: int| 0 <= k < lines@.len() implies grown(fits, #[trigger] lines@[k]@) by {
                if k < lines0.len() {
                    assert(lines@[k] == lines0[k]);
                }
            }
            assert forall|k: int| 0 <= k < lines@.len() - 1 implies refused(fits, #[trigger] lines@[k]@.push(lines@[k + 1]@[0])) by {
                if k < lines0.len() - 1 {
                    assert(lines@[k] == lines0[k] && lines@[k + 1] == lines0[k + 1]);
                } else {
                    assert(lines@[k] == lines0.last());
                    assert(lines@[k + 1]@ == current0);
                }
            }
            if text@.len() > 0 {
                assert forall|k: int| 0 <= k < lines@.len() implies #[trigger] lines@[k]@.len() > 0 by {
                    if k < lines0.len() {
                        assert(lines@[k] == lines0[k]);
                    }
                }
            }
        }
    }
    lines
}

} // verus!
