//! Word wrapping for text blocks.
//!
//! Text is cut into paragraphs at line feeds and each paragraph into words at
//! whitespace. Words are laid out greedily, joined by single spaces: a word
//! joins the current line when the line with it still fits, starts a new
//! line when it fits alone, and is cut into the longest pieces that fit
//! otherwise. A paragraph with no words is one empty line. Whether a line
//! fits is a measurement in real-valued pixels, so the caller hands it in as
//! a predicate.

use vstd::prelude::*;
use crate::text::push_char;
use crate::ui::number::{lemma_without_concat, without};

verus! {

broadcast use vstd::string::group_string_axioms;

/// Whether `c` is whitespace in the Unicode sense, as `char::is_whitespace`
/// decides it.
pub uninterp spec fn whitespace(c: char) -> bool;

/// Trusted: `char::is_whitespace`, which reports whether `c` has the Unicode
/// `White_Space` property. The contract names that decision, which depends
/// on `c` alone, and states it for ASCII, where the whitespace characters
/// are the space and tab through carriage return; beyond ASCII it rests on
/// the Unicode tables and is left unsaid.
#[verifier::external_body]
fn is_whitespace(c: char) -> (r: bool)
    ensures
        r == whitespace(c),
        (c as u32) < 128 ==> (r <==> (c == ' ' || ('\t' <= c && c <= '\r'))),
{
    c.is_whitespace()
}

/// `fits` answers yes for `line`: some call with that text returned true.
pub open spec fn says<F: Fn(&str) -> bool>(fits: F, line: Seq<char>) -> bool {
    exists|s: &str| s@ == line && #[trigger] call_ensures(fits, (s,), true)
}

/// `fits` gives one answer for one text, whichever string holds it.
pub open spec fn answers_alike<F: Fn(&str) -> bool>(fits: F) -> bool {
    forall|a: &str, b: &str, x: bool, y: bool|
        #![trigger call_ensures(fits, (a,), x), call_ensures(fits, (b,), y)]
        a@ == b@ && call_ensures(fits, (a,), x) && call_ensures(fits, (b,), y) ==> x == y
}

proof fn lemma_answer<F: Fn(&str) -> bool>(fits: F, s: &str, r: bool)
    requires
        answers_alike(fits),
        call_ensures(fits, (s,), r),
    ensures
        says(fits, s@) == r,
{
    if !r && says(fits, s@) {
        let a = choose|a: &str| a@ == s@ && #[trigger] call_ensures(fits, (a,), true);
        assert(call_ensures(fits, (a,), true) && call_ensures(fits, (s,), false));
    }
}

/// The words of each paragraph: paragraphs are separated by line feeds and
/// words are the maximal runs of non-whitespace characters, as
/// `str::split('\n')` and `str::split_whitespace` give them.
pub open spec fn paragraph_words(text: Seq<char>) -> Seq<Seq<Seq<char>>>
    decreases text.len(),
{
    if text.len() == 0 {
        seq![Seq::empty()]
    } else {
        let prev = text.drop_last();
        let ps = paragraph_words(prev);
        let c = text.last();
        if c == '\n' {
            ps.push(Seq::empty())
        } else if whitespace(c) {
            ps
        } else {
            let para = ps.last();
            let para1 = if in_word(prev) {
                para.update(para.len() - 1, para.last().push(c))
            } else {
                para.push(seq![c])
            };
            ps.update(ps.len() - 1, para1)
        }
    }
}

/// `text` ends inside a word.
pub open spec fn in_word(text: Seq<char>) -> bool {
    text.len() > 0 && text.last() != '\n' && !whitespace(text.last())
}

/// An over-long word cut into pieces: characters are added one at a time,
/// and a piece ends when it is not empty and does not fit with the next
/// character. The result is the finished pieces and the piece in progress.
pub open spec fn chunked<F: Fn(&str) -> bool>(fits: F, word: Seq<char>) -> (Seq<Seq<char>>, Seq<char>)
    decreases word.len(),
{
    if word.len() == 0 {
        (Seq::empty(), Seq::empty())
    } else {
        let (done, chunk) = chunked(fits, word.drop_last());
        let c = word.last();
        if chunk.len() > 0 && !says(fits, chunk.push(c)) {
            (done.push(chunk), seq![c])
        } else {
            (done, chunk.push(c))
        }
    }
}

/// Lay `word` out after `lines` with `current` the line in progress.
pub open spec fn placed<F: Fn(&str) -> bool>(
    fits: F,
    lines: Seq<Seq<char>>,
    current: Seq<char>,
    word: Seq<char>,
) -> (Seq<Seq<char>>, Seq<char>) {
    let candidate = if current.len() == 0 { word } else { current + seq![' '] + word };
    if says(fits, candidate) {
        (lines, candidate)
    } else {
        let flushed = if current.len() > 0 { lines.push(current) } else { lines };
        if says(fits, word) {
            (flushed, word)
        } else {
            (flushed + chunked(fits, word).0, chunked(fits, word).1)
        }
    }
}

/// The finished lines and the line in progress after laying out `words`.
pub open spec fn laid_out<F: Fn(&str) -> bool>(fits: F, words: Seq<Seq<char>>) -> (Seq<Seq<char>>, Seq<char>)
    decreases words.len(),
{
    if words.len() == 0 {
        (Seq::empty(), Seq::empty())
    } else {
        let (lines, current) = laid_out(fits, words.drop_last());
        placed(fits, lines, current, words.last())
    }
}

/// The lines of one paragraph: one empty line when it has no words.
pub open spec fn paragraph_lines<F: Fn(&str) -> bool>(fits: F, words: Seq<Seq<char>>) -> Seq<Seq<char>> {
    if words.len() == 0 {
        seq![Seq::empty()]
    } else {
        laid_out(fits, words).0.push(laid_out(fits, words).1)
    }
}

/// The lines of the paragraphs, one paragraph after the other.
pub open spec fn paragraphs_lines<F: Fn(&str) -> bool>(fits: F, paras: Seq<Seq<Seq<char>>>) -> Seq<Seq<char>>
    decreases paras.len(),
{
    if paras.len() == 0 {
        Seq::empty()
    } else {
        paragraphs_lines(fits, paras.drop_last()) + paragraph_lines(fits, paras.last())
    }
}

/// What [`wrap_words`] writes for `text`.
pub open spec fn wrapped<F: Fn(&str) -> bool>(fits: F, text: Seq<char>) -> Seq<Seq<char>> {
    paragraphs_lines(fits, paragraph_words(text))
}

/// The text of each line.
pub open spec fn texts(lines: Seq<String>) -> Seq<Seq<char>> {
    lines.map_values(|l: String| l@)
}

proof fn lemma_texts_push(lines: Seq<String>, line: String)
    ensures
        texts(lines.push(line)) == texts(lines).push(line@),
{
    assert(texts(lines.push(line)) =~= texts(lines).push(line@));
}

/// The lines (or words) written one after the other, with nothing between.
pub open spec fn concat(lines: Seq<Seq<char>>) -> Seq<char>
    decreases lines.len(),
{
    if lines.len() == 0 {
        Seq::empty()
    } else {
        concat(lines.drop_last()) + lines.last()
    }
}

/// The words of all paragraphs, one after the other.
pub open spec fn concat_paragraphs(paras: Seq<Seq<Seq<char>>>) -> Seq<char>
    decreases paras.len(),
{
    if paras.len() == 0 {
        Seq::empty()
    } else {
        concat_paragraphs(paras.drop_last()) + concat(paras.last())
    }
}

/// The characters of `text` that are neither line feeds nor whitespace.
pub open spec fn visible(text: Seq<char>) -> Seq<char>
    decreases text.len(),
{
    if text.len() == 0 {
        Seq::empty()
    } else if text.last() == '\n' || whitespace(text.last()) {
        visible(text.drop_last())
    } else {
        visible(text.drop_last()).push(text.last())
    }
}

proof fn lemma_concat_push(lines: Seq<Seq<char>>, line: Seq<char>)
    ensures
        concat(lines.push(line)) == concat(lines) + line,
{
    assert(lines.push(line).drop_last() =~= lines);
}

proof fn lemma_concat_append(a: Seq<Seq<char>>, b: Seq<Seq<char>>)
    ensures
        concat(a + b) == concat(a) + concat(b),
    decreases b.len(),
{
    if b.len() == 0 {
        assert(a + b =~= a);
        assert(concat(a) + concat(b) =~= concat(a));
    } else {
        assert((a + b).drop_last() =~= a + b.drop_last());
        lemma_concat_append(a, b.drop_last());
        assert(concat(a) + concat(b) =~= concat(a) + concat(b.drop_last()) + b.last());
    }
}

proof fn lemma_concat_update_last(lines: Seq<Seq<char>>, c: char)
    requires
        lines.len() > 0,
    ensures
        concat(lines.update(lines.len() - 1, lines.last().push(c))) == concat(lines).push(c),
{
    let u = lines.update(lines.len() - 1, lines.last().push(c));
    assert(u.drop_last() =~= lines.drop_last());
}

/// The pieces of a cut word, with the piece in progress, are the word.
proof fn lemma_chunks_keep_the_word<F: Fn(&str) -> bool>(fits: F, word: Seq<char>)
    ensures
        concat(chunked(fits, word).0) + chunked(fits, word).1 == word,
    decreases word.len(),
{
    if word.len() > 0 {
        lemma_chunks_keep_the_word(fits, word.drop_last());
        let (done, chunk) = chunked(fits, word.drop_last());
        let c = word.last();
        if chunk.len() > 0 && !says(fits, chunk.push(c)) {
            lemma_concat_push(done, chunk);
        }
        assert(word.drop_last().push(c) =~= word);
    }
}

/// Laying words out keeps every character of every word, in order; only
/// the spaces between words on a line are added.
proof fn lemma_layout_keeps_the_words<F: Fn(&str) -> bool>(fits: F, words: Seq<Seq<char>>)
    ensures
        without(concat(laid_out(fits, words).0) + laid_out(fits, words).1, ' ') == without(concat(words), ' '),
    decreases words.len(),
{
    if words.len() > 0 {
        let prev = words.drop_last();
        let w = words.last();
        lemma_layout_keeps_the_words(fits, prev);
        let (lines, current) = laid_out(fits, prev);
        let a = concat(lines);
        lemma_concat_push(prev, w);
        assert(prev.push(w) =~= words);
        lemma_without_concat(concat(prev), w, ' ');
        lemma_without_concat(a, current, ' ');
        let candidate = if current.len() == 0 { w } else { current + seq![' '] + w };
        if says(fits, candidate) {
            if current.len() > 0 {
                assert(a + candidate =~= (a + current) + (seq![' '] + w));
                lemma_without_concat(a + current, seq![' '] + w, ' ');
                lemma_without_concat(seq![' '], w, ' ');
                assert(without(seq![' '], ' ') =~= Seq::<char>::empty()) by {
                    assert(seq![' '].drop_last() =~= Seq::<char>::empty());
                    reveal_with_fuel(without, 2);
                }
                assert(Seq::<char>::empty() + without(w, ' ') =~= without(w, ' '));
            } else {
                assert(current =~= Seq::<char>::empty());
                assert(a + current =~= a);
                lemma_without_concat(a, w, ' ');
            }
        } else {
            let flushed = if current.len() > 0 { lines.push(current) } else { lines };
            if current.len() > 0 {
                lemma_concat_push(lines, current);
            } else {
                assert(a + current =~= a);
            }
            assert(concat(flushed) == a + current);
            if says(fits, w) {
                lemma_without_concat(a + current, w, ' ');
            } else {
                let (done, rest) = chunked(fits, w);
                lemma_chunks_keep_the_word(fits, w);
                lemma_concat_append(flushed, done);
                assert(concat(flushed + done) + rest =~= (a + current) + (concat(done) + rest));
                lemma_without_concat(a + current, w, ' ');
            }
        }
    }
}

proof fn lemma_paragraph_words_nonempty(text: Seq<char>)
    ensures
        paragraph_words(text).len() >= 1,
    decreases text.len(),
{
    if text.len() > 0 {
        lemma_paragraph_words_nonempty(text.drop_last());
    }
}

/// The words are the visible characters of the text, in order.
proof fn lemma_words_are_the_visible_text(text: Seq<char>)
    ensures
        concat_paragraphs(paragraph_words(text)) == visible(text),
        in_word(text) ==> paragraph_words(text).last().len() > 0,
    decreases text.len(),
{
    if text.len() > 0 {
        let prev = text.drop_last();
        lemma_words_are_the_visible_text(prev);
        lemma_paragraph_words_nonempty(prev);
        let ps = paragraph_words(prev);
        let c = text.last();
        assert(prev.push(c) =~= text);
        if c == '\n' {
            let ps1 = ps.push(Seq::<Seq<char>>::empty());
            assert(paragraph_words(text) == ps1);
            assert(visible(text) == visible(prev));
            assert(ps1.drop_last() =~= ps);
            assert(concat(Seq::<Seq<char>>::empty()) =~= Seq::<char>::empty());
            assert(concat_paragraphs(ps1) =~= concat_paragraphs(ps));
        } else if !whitespace(c) {
            let pw = ps.last();
            let para1 = if in_word(prev) { pw.update(pw.len() - 1, pw.last().push(c)) } else { pw.push(seq![c]) };
            let ps1 = ps.update(ps.len() - 1, para1);
            assert(ps1.drop_last() =~= ps.drop_last());
            assert(ps.drop_last().push(pw) =~= ps);
            if in_word(prev) {
                lemma_concat_update_last(pw, c);
            } else {
                lemma_concat_push(pw, seq![c]);
            }
            assert(concat(para1) =~= concat(pw).push(c));
            assert(paragraph_words(text) == ps1);
            assert(visible(text) == visible(prev).push(c));
            assert(concat_paragraphs(ps1) =~= concat_paragraphs(ps).push(c));
        } else {
            assert(paragraph_words(text) == ps);
            assert(visible(text) == visible(prev));
        }
    } else {
        let ps = paragraph_words(text);
        assert(ps.drop_last() =~= Seq::<Seq<Seq<char>>>::empty());
        assert(concat(ps.last()) =~= Seq::<char>::empty());
        assert(concat_paragraphs(ps) =~= Seq::<char>::empty()) by {
            reveal_with_fuel(concat_paragraphs, 2);
        }
    }
}

/// Each paragraph gives at least one line.
proof fn lemma_paragraphs_give_lines<F: Fn(&str) -> bool>(fits: F, paras: Seq<Seq<Seq<char>>>)
    ensures
        paras.len() > 0 ==> paragraphs_lines(fits, paras).len() > 0,
        without(concat(paragraphs_lines(fits, paras)), ' ') == without(concat_paragraphs(paras), ' '),
    decreases paras.len(),
{
    if paras.len() > 0 {
        let prev = paras.drop_last();
        let ws = paras.last();
        lemma_paragraphs_give_lines(fits, prev);
        let lines = paragraph_lines(fits, ws);
        lemma_concat_append(paragraphs_lines(fits, prev), lines);
        lemma_without_concat(concat(paragraphs_lines(fits, prev)), concat(lines), ' ');
        lemma_without_concat(concat_paragraphs(prev), concat(ws), ' ');
        if ws.len() == 0 {
            assert(concat(lines) =~= Seq::<char>::empty()) by {
                assert(lines.drop_last() =~= Seq::<Seq<char>>::empty());
                reveal_with_fuel(concat, 2);
            }
            assert(concat(ws) =~= Seq::<char>::empty());
        } else {
            lemma_concat_push(laid_out(fits, ws).0, laid_out(fits, ws).1);
            lemma_layout_keeps_the_words(fits, ws);
        }
    }
}

/// Law: wrapping loses nothing but whitespace and keeps the order. There is
/// always at least one line, and the lines written one after the other,
/// spaces aside, are the text's visible characters, spaces aside.
pub proof fn lemma_wrapping_keeps_the_words<F: Fn(&str) -> bool>(fits: F, text: Seq<char>)
    ensures
        wrapped(fits, text).len() >= 1,
        without(concat(wrapped(fits, text)), ' ') == without(visible(text), ' '),
{
    lemma_paragraph_words_nonempty(text);
    lemma_words_are_the_visible_text(text);
    lemma_paragraphs_give_lines(fits, paragraph_words(text));
}

/// Append the pieces of an over-long word; the piece in progress is
/// returned.
fn chunk_into<F: Fn(&str) -> bool>(out: &mut Vec<String>, word: &String, fits: &F) -> (rest: String)
    requires
        forall|s: &str| #[trigger] call_requires(*fits, (s,)),
        answers_alike(*fits),
    ensures
        texts(final(out)@) == texts(old(out)@) + chunked(*fits, word@).0,
        rest@ == chunked(*fits, word@).1,
{
    let mut chunk = String::new();
    let ghost start = texts(out@);
    for ch in it: word.as_str().chars()
        invariant
            it.seq() == word@,
            forall|s: &str| #[trigger] call_requires(*fits, (s,)),
            answers_alike(*fits),
            texts(out@) == start + chunked(*fits, word@.take(it.index())).0,
            chunk@ == chunked(*fits, word@.take(it.index())).1,
    {
        let ghost i = it.index();
        let ghost out0 = out@;
        assert(word@.take(i + 1).drop_last() =~= word@.take(i));
        assert(word@.take(i + 1).last() == ch);
        let mut candidate = chunk.clone();
        push_char(&mut candidate, ch);
        let mut cut = false;
        if !chunk.as_str().is_empty() {
            let probe = candidate.as_str();
            let ok = fits(probe);
            proof {
                lemma_answer(*fits, probe, ok);
            }
            if !ok {
                cut = true;
            }
        }
        if cut {
            let finished = chunk;
            proof {
                lemma_texts_push(out@, finished);
            }
            out.push(finished);
            chunk = String::new();
            push_char(&mut chunk, ch);
            assert(chunk@ =~= seq![ch]);
        } else {
            push_char(&mut chunk, ch);
        }
        assert(texts(out@) =~= start + chunked(*fits, word@.take(i + 1)).0);
    }
    assert(word@.take(word@.len() as int) =~= word@);
    chunk
}

/// Lay one word out: join the line in progress, start a line of its own,
/// or be cut into pieces. The line in progress is returned.
fn place<F: Fn(&str) -> bool>(out: &mut Vec<String>, current: String, word: &String, fits: &F) -> (next: String)
    requires
        forall|s: &str| #[trigger] call_requires(*fits, (s,)),
        answers_alike(*fits),
    ensures
        texts(final(out)@) == placed(*fits, texts(old(out)@), current@, word@).0,
        next@ == placed(*fits, texts(old(out)@), current@, word@).1,
{
    let ghost lines0 = texts(out@);
    let candidate = if current.as_str().is_empty() {
        word.clone()
    } else {
        let mut joined = current.clone();
        push_char(&mut joined, ' ');
        joined.append(word.as_str());
        joined
    };
    proof {
        if current@.len() > 0 {
            assert(candidate@ =~= current@ + seq![' '] + word@);
        }
    }
    let probe = candidate.as_str();
    let joins = fits(probe);
    proof {
        lemma_answer(*fits, probe, joins);
    }
    if joins {
        return candidate;
    }
    if !current.as_str().is_empty() {
        proof {
            lemma_texts_push(out@, current);
        }
        out.push(current);
    }
    let alone_probe = word.as_str();
    let alone = fits(alone_probe);
    proof {
        lemma_answer(*fits, alone_probe, alone);
    }
    if alone {
        word.clone()
    } else {
        chunk_into(out, word, fits)
    }
}

/// Wrap `text` into lines that `fits` accepts where it can: paragraphs at
/// line feeds, words at whitespace, words joined by single spaces, an
/// over-long word cut into pieces, and one empty line for a paragraph with
/// no words.
pub fn wrap_words<F: Fn(&str) -> bool>(text: &str, fits: F) -> (lines: Vec<String>)
    requires
        forall|s: &str| #[trigger] call_requires(fits, (s,)),
        answers_alike(fits),
    ensures
        texts(lines@) == wrapped(fits, text@),
{
    let mut out: Vec<String> = Vec::new();
    let mut current = String::new();
    let mut word = String::new();
    let mut has_words = false;
    for ch in it: text.chars()
        invariant
            it.seq() == text@,
            forall|s: &str| #[trigger] call_requires(fits, (s,)),
            answers_alike(fits),
            paragraph_words(text@.take(it.index())).len() >= 1,
            ({
                let prefix = text@.take(it.index());
                let ps = paragraph_words(prefix);
                let pw = ps.last();
                let done = if in_word(prefix) { pw.drop_last() } else { pw };
                &&& texts(out@) == paragraphs_lines(fits, ps.drop_last()) + laid_out(fits, done).0
                &&& current@ == laid_out(fits, done).1
                &&& word@ == (if in_word(prefix) { pw.last() } else { Seq::<char>::empty() })
                &&& (in_word(prefix) <==> word@.len() > 0)
                &&& (in_word(prefix) ==> pw.len() > 0)
                &&& has_words == (pw.len() > 0)
            }),
    {
        let ghost i = it.index();
        let ghost prefix = text@.take(i);
        let ghost next = text@.take(i + 1);
        proof {
            assert(next.drop_last() =~= prefix);
            assert(next.last() == ch);
        }
        let ghost ps = paragraph_words(prefix);
        let ghost pw = ps.last();
        if ch == '\n' {
            if !word.as_str().is_empty() {
                proof {
                    assert(pw.drop_last().push(pw.last()) =~= pw);
                }
                current = place(&mut out, current, &word, &fits);
                word = String::new();
            }
            proof {
                assert(ps.drop_last().push(pw) =~= ps);
            }
            if has_words {
                proof {
                    lemma_texts_push(out@, current);
                }
                out.push(current);
            } else {
                let blank = String::new();
                proof {
                    lemma_texts_push(out@, blank);
                }
                out.push(blank);
            }
            current = String::new();
            has_words = false;
            proof {
                let ps1 = paragraph_words(next);
                assert(ps1 == ps.push(Seq::<Seq<char>>::empty()));
                assert(ps1.drop_last() =~= ps);
                assert(texts(out@) =~= paragraphs_lines(fits, ps1.drop_last()) + laid_out(fits, Seq::<Seq<char>>::empty()).0);
            }
        } else if is_whitespace(ch) {
            if !word.as_str().is_empty() {
                proof {
                    assert(pw.drop_last().push(pw.last()) =~= pw);
                }
                current = place(&mut out, current, &word, &fits);
                word = String::new();
            }
            proof {
                assert(paragraph_words(next) == ps);
            }
        } else {
            push_char(&mut word, ch);
            has_words = true;
            proof {
                let ps1 = paragraph_words(next);
                let para1 = ps1.last();
                assert(ps1.drop_last() =~= ps.drop_last());
                if in_word(prefix) {
                    assert(para1.drop_last() =~= pw.drop_last());
                } else {
                    assert(para1.drop_last() =~= pw);
                    assert(word@ =~= seq![ch]);
                }
            }
        }
    }
    let ghost ps = paragraph_words(text@);
    let ghost pw = ps.last();
    proof {
        assert(text@.take(text@.len() as int) =~= text@);
    }
    if !word.as_str().is_empty() {
        proof {
            assert(pw.drop_last().push(pw.last()) =~= pw);
        }
        current = place(&mut out, current, &word, &fits);
    }
    proof {
        assert(ps.drop_last().push(pw) =~= ps);
    }
    if has_words {
        proof {
            lemma_texts_push(out@, current);
        }
        out.push(current);
    } else {
        let blank = String::new();
        proof {
            lemma_texts_push(out@, blank);
        }
        out.push(blank);
    }
    out
}

} // verus!
