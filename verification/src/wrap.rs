//! Greedy word wrapping over measured widths.
//!
//! The engine is font-agnostic: every word arrives with the width its
//! renderer measured for it and the width of the space that follows it.
//! Words are packed into a line while they fit; a word that would overflow
//! the container closes the line and opens the next one, and the running
//! accumulator restarts at that word's bare width.  A single word wider
//! than the container gets a line of its own rather than being dropped or
//! split.

use vstd::prelude::*;

use crate::style::Style;

verus! {

use vstd::seq_lib::lemma_flatten_concat;

/// One whitespace-delimited unit of text, measured by the caller:
/// its rendered width and the width of a space in its style.
#[derive(Clone, Debug, PartialEq, Eq)]
pub struct WordRecord {
    pub text: String,
    pub width: u64,
    pub style: Style,
    pub space_width: u64,
}

/// The mathematical value of a [`WordRecord`].
#[verifier::ext_equal]
pub struct WordModel {
    pub text: Seq<char>,
    pub width: u64,
    pub style: Style,
    pub space_width: u64,
}

impl View for WordRecord {
    type V = WordModel;

    open spec fn view(&self) -> WordModel {
        WordModel { text: self.text@, width: self.width, style: self.style, space_width: self.space_width }
    }
}

impl DeepView for WordRecord {
    type V = WordModel;

    open spec fn deep_view(&self) -> WordModel {
        self@
    }
}

impl WordRecord {
    /// Pair a word with its measurements and style.
    pub fn new(text: String, width: u64, style: Style, space_width: u64) -> (r: WordRecord)
        ensures
            r@ == (WordModel { text: text@, width, style, space_width }),
    {
        WordRecord { text, width, style, space_width }
    }
}

/// The state-machine form of the greedy wrap: `cur` is the open line and
/// `acc` the running width accumulator.  A word that fits is appended and
/// advances the accumulator by its width plus its trailing space; one that
/// does not closes the open line (if it has content) and seeds the next
/// with the accumulator restarted at the word's bare width.
pub open spec fn wrap_go(
    container: int,
    words: Seq<WordModel>,
    i: int,
    cur: Seq<WordModel>,
    acc: int,
) -> Seq<Seq<WordModel>>
    decreases words.len() - i,
{
    if i < 0 || i >= words.len() {
        if cur.len() == 0 {
            Seq::empty()
        } else {
            seq![cur]
        }
    } else {
        let w = words[i];
        if acc + w.width > container {
            let rest = wrap_go(container, words, i + 1, seq![w], w.width as int);
            if cur.len() == 0 {
                rest
            } else {
                seq![cur] + rest
            }
        } else {
            wrap_go(container, words, i + 1, cur.push(w), acc + w.width + w.space_width)
        }
    }
}

/// The lines the wrap engine produces for `words` in a container of the
/// given width.
pub open spec fn wrap_spec(container: u64, words: Seq<WordModel>) -> Seq<Seq<WordModel>> {
    wrap_go(container as int, words, 0, Seq::empty(), 0)
}

/// Sum of the measured widths of a line's words.
pub open spec fn words_width(line: Seq<WordModel>) -> int
    decreases line.len(),
{
    if line.len() == 0 {
        0
    } else {
        words_width(line.drop_last()) + line.last().width
    }
}

/// Sum of the inter-word space widths a line is charged for: the space
/// after each word except the leading one and the last one.  The gap after
/// the leading word is free because a line opened by an overflowing word
/// restarts the accumulator at that word's bare width.
pub open spec fn inner_spaces(line: Seq<WordModel>) -> int
    decreases line.len(),
{
    if line.len() <= 2 {
        0
    } else {
        inner_spaces(line.drop_last()) + line[line.len() - 2].space_width
    }
}

/// Split words greedily into lines that fit `container`.
pub fn split_width(container: u64, words: Vec<WordRecord>) -> (r: Vec<Vec<WordRecord>>)
    ensures
        r.deep_view() == wrap_spec(container, words.deep_view()),
{
    let ghost ws = words.deep_view();
    let mut lines: Vec<Vec<WordRecord>> = Vec::new();
    let mut cur: Vec<WordRecord> = Vec::new();
    let mut acc: u128 = 0;
    let n = words.len();
    let mut i: usize = 0;
    proof {
        assert(lines.deep_view() =~= Seq::<Seq<WordModel>>::empty());
        assert(cur.deep_view() =~= Seq::<WordModel>::empty());
        assert(Seq::<Seq<WordModel>>::empty() + wrap_go(container as int, ws, 0, Seq::empty(), 0)
            =~= wrap_go(container as int, ws, 0, Seq::empty(), 0));
    }
    while i < n
        invariant
            i <= n,
            n == ws.len(),
            ws == words.deep_view(),
            acc <= container as u128 + u64::MAX as u128,
            wrap_spec(container, ws) == lines.deep_view() + wrap_go(
                container as int,
                ws,
                i as int,
                cur.deep_view(),
                acc as int,
            ),
        decreases n - i,
    {
        let ghost lines0 = lines.deep_view();
        let ghost cv = cur.deep_view();
        let ghost acc0 = acc as int;
        let w = clone_word(&words[i]);
        proof {
            assert(w@ == ws[i as int]);
        }
        if acc + w.width as u128 > container as u128 {
            let width = w.width;
            let mut fresh: Vec<WordRecord> = Vec::new();
            fresh.push(w);
            let ghost fv = fresh.deep_view();
            if cur.len() > 0 {
                lines.push(cur);
            }
            cur = fresh;
            acc = width as u128;
            proof {
                assert(fv =~= seq![ws[i as int]]);
                let rest = wrap_go(container as int, ws, i as int + 1, fv, width as int);
                if cv.len() > 0 {
                    assert(lines.deep_view() =~= lines0.push(cv));
                    assert(lines0.push(cv) + rest =~= lines0 + (seq![cv] + rest));
                } else {
                    assert(lines.deep_view() == lines0);
                }
                assert(wrap_go(container as int, ws, i as int, cv, acc0) == (
                    if cv.len() == 0 { rest } else { seq![cv] + rest }
                ));
            }
        } else {
            cur.push(w);
            acc = acc + words[i].width as u128 + words[i].space_width as u128;
            proof {
                assert(cur.deep_view() =~= cv.push(ws[i as int]));
            }
        }
        i = i + 1;
    }
    let ghost cv = cur.deep_view();
    let ghost lines0 = lines.deep_view();
    if cur.len() > 0 {
        lines.push(cur);
        proof {
            assert(lines.deep_view() =~= lines0.push(cv));
            assert(lines0.push(cv) =~= lines0 + seq![cv]);
        }
    }
    proof {
        assert(lines.deep_view() =~= wrap_spec(container, ws));
    }
    lines
}

/// A fresh copy of a word record.
fn clone_word(w: &WordRecord) -> (r: WordRecord)
    ensures
        r@ == w@,
{
    WordRecord { text: w.text.clone(), width: w.width, style: w.style, space_width: w.space_width }
}


/// No word is dropped, duplicated or reordered: concatenating the emitted
/// lines in order reproduces the input word sequence exactly.
pub proof fn lemma_wrap_preserves_words(container: u64, words: Seq<WordModel>)
    ensures
        wrap_spec(container, words).flatten() == words,
{
    lemma_wrap_go_concat(container as int, words, 0, Seq::empty(), 0);
    assert(Seq::<WordModel>::empty() + words.skip(0) =~= words);
}

proof fn lemma_wrap_go_concat(c: int, ws: Seq<WordModel>, i: int, cur: Seq<WordModel>, acc: int)
    requires
        0 <= i <= ws.len(),
    ensures
        wrap_go(c, ws, i, cur, acc).flatten() == cur + ws.skip(i),
    decreases ws.len() - i,
{
    if i >= ws.len() {
        if cur.len() == 0 {
            assert(wrap_go(c, ws, i, cur, acc).flatten() =~= cur + ws.skip(i));
        } else {
            seq![cur].lemma_flatten_one_element();
            assert(seq![cur].first() == cur);
            assert(cur + ws.skip(i) =~= cur);
        }
    } else {
        let w = ws[i];
        assert(ws.skip(i) =~= seq![w] + ws.skip(i + 1));
        if acc + w.width > c {
            let rest = wrap_go(c, ws, i + 1, seq![w], w.width as int);
            lemma_wrap_go_concat(c, ws, i + 1, seq![w], w.width as int);
            if cur.len() == 0 {
                assert(wrap_go(c, ws, i, cur, acc).flatten() =~= cur + ws.skip(i));
            } else {
                lemma_flatten_concat(seq![cur], rest);
                seq![cur].lemma_flatten_one_element();
                assert(seq![cur].first() == cur);
                assert(wrap_go(c, ws, i, cur, acc).flatten() =~= cur + ws.skip(i));
            }
        } else {
            lemma_wrap_go_concat(c, ws, i + 1, cur.push(w), acc + w.width + w.space_width);
            assert(cur.push(w) + ws.skip(i + 1) =~= cur + ws.skip(i));
        }
    }
}

/// Every emitted line has at least one word, and every line of two or
/// more words fits the container: the sum of its word widths and of the
/// inter-word spaces the accumulator charges (all gaps except the one
/// after the leading word) stays within `container`.  A single oversized
/// word still gets a line of its own, which may exceed the container.
pub proof fn lemma_wrap_line_widths(container: u64, words: Seq<WordModel>)
    ensures
        forall|j: int|
            0 <= j < wrap_spec(container, words).len() ==> (#[trigger] wrap_spec(
                container,
                words,
            )[j]).len() >= 1,
        forall|j: int|
            0 <= j < wrap_spec(container, words).len() && (#[trigger] wrap_spec(
                container,
                words,
            )[j]).len() >= 2 ==> words_width(wrap_spec(container, words)[j]) + inner_spaces(
                wrap_spec(container, words)[j],
            ) <= container,
{
    lemma_wrap_go_width(container as int, words, 0, Seq::empty(), 0);
}

proof fn lemma_wrap_go_width(c: int, ws: Seq<WordModel>, i: int, cur: Seq<WordModel>, acc: int)
    requires
        0 <= i <= ws.len(),
        acc >= 0,
        cur.len() == 1 ==> words_width(cur) <= acc,
        cur.len() >= 2 ==> words_width(cur) + inner_spaces(cur) + cur.last().space_width <= acc,
        cur.len() >= 2 ==> words_width(cur) + inner_spaces(cur) <= c,
    ensures
        forall|j: int|
            0 <= j < wrap_go(c, ws, i, cur, acc).len() ==> (#[trigger] wrap_go(
                c,
                ws,
                i,
                cur,
                acc,
            )[j]).len() >= 1,
        forall|j: int|
            0 <= j < wrap_go(c, ws, i, cur, acc).len() && (#[trigger] wrap_go(
                c,
                ws,
                i,
                cur,
                acc,
            )[j]).len() >= 2 ==> words_width(wrap_go(c, ws, i, cur, acc)[j]) + inner_spaces(
                wrap_go(c, ws, i, cur, acc)[j],
            ) <= c,
    decreases ws.len() - i,
{
    let r = wrap_go(c, ws, i, cur, acc);
    if i >= ws.len() {
        if cur.len() > 0 {
            assert(r == seq![cur]);
            assert(r[0] == cur);
        }
    } else {
        let w = ws[i];
        if acc + w.width > c {
            let seeded = seq![w];
            assert(words_width(seeded) == w.width as int) by {
                assert(seeded.drop_last() =~= Seq::<WordModel>::empty());
                assert(words_width(Seq::<WordModel>::empty()) == 0);
                assert(seeded.last() == w);
            }
            lemma_wrap_go_width(c, ws, i + 1, seeded, w.width as int);
            let rest = wrap_go(c, ws, i + 1, seeded, w.width as int);
            if cur.len() == 0 {
                assert(r == rest);
                assert forall|j: int| 0 <= j < r.len() implies (r[j]).len() >= 1 && ((r[j]).len()
                    >= 2 ==> words_width(r[j]) + inner_spaces(r[j]) <= c) by {
                    assert(r[j] == rest[j]);
                }
            } else {
                assert(r == seq![cur] + rest);
                assert forall|j: int| 0 <= j < r.len() implies (r[j]).len() >= 1 && ((r[j]).len()
                    >= 2 ==> words_width(r[j]) + inner_spaces(r[j]) <= c) by {
                    if j == 0 {
                        assert(r[j] == cur);
                    } else {
                        assert(r[j] == rest[j - 1]);
                    }
                }
            }
        } else {
            let cur2 = cur.push(w);
            assert(cur2.drop_last() =~= cur);
            assert(cur2.last() == w);
            assert(words_width(cur2) == words_width(cur) + w.width);
            if cur.len() == 0 {
                assert(words_width(cur) == 0);
                assert(words_width(cur2) == w.width <= acc + w.width + w.space_width);
            } else if cur.len() == 1 {
                assert(inner_spaces(cur2) == 0);
            } else {
                assert(cur2[cur2.len() - 2] == cur.last());
                assert(inner_spaces(cur2) == inner_spaces(cur) + cur.last().space_width);
            }
            lemma_wrap_go_width(c, ws, i + 1, cur2, acc + w.width + w.space_width);
            let r2 = wrap_go(c, ws, i + 1, cur2, acc + w.width + w.space_width);
            assert(r == r2);
            assert forall|j: int| 0 <= j < r.len() implies (r[j]).len() >= 1 && ((r[j]).len() >= 2
                ==> words_width(r[j]) + inner_spaces(r[j]) <= c) by {
                assert(r[j] == r2[j]);
            }
        }
    }
}

} // verus!
