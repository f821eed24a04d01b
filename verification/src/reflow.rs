//! Line reflow: styled runs with embedded newlines become a sequence of
//! lines.
//!
//! A run without a newline joins the open line.  A run with newlines is
//! split on them: the first fragment joins the open line, each newline
//! closes a line, and the remainder opens the next one.  Empty fragments
//! add no run, so a lone `"\n"` run closes the line without visible
//! content.  The very last run is right-trimmed first, so trailing
//! highlighter whitespace cannot produce a dangling blank line.

use vstd::prelude::*;

use crate::strutil::find_char;
use crate::strutil::is_space;
use crate::strutil::trim_end_spec;
use crate::strutil::trim_end_str;
use crate::style::RunModel;
use crate::style::Style;
use crate::style::StyledRun;
use crate::styletree::StyleElement;
use crate::styletree::StyleModel;
use crate::token::clamp;
use crate::token::expand_seq_from;
use crate::token::parse_html;
use crate::token::parse_spec;

verus! {

/// Fold one run's text into the state `(lines, cur)`: fragments between
/// newlines join or open lines, each newline closes the open line.
pub open spec fn reflow_text(
    lines: Seq<Seq<RunModel>>,
    cur: Seq<RunModel>,
    text: Seq<char>,
    style: Style,
) -> (Seq<Seq<RunModel>>, Seq<RunModel>)
    decreases text.len(),
{
    let k = clamp(0, find_char(text, 0, '\n'), text.len() as int);
    let frag = text.subrange(0, k);
    let cur2 = if frag.len() > 0 {
        cur.push(RunModel { text: frag, style })
    } else {
        cur
    };
    if k == text.len() {
        (lines, cur2)
    } else {
        reflow_text(lines.push(cur2), Seq::empty(), text.skip(k + 1), style)
    }
}

/// Fold the runs from position `i` on and close the final line.  The run
/// at `last` (the end of the whole sequence) has its text right-trimmed.
pub open spec fn reflow_runs(
    lines: Seq<Seq<RunModel>>,
    cur: Seq<RunModel>,
    runs: Seq<RunModel>,
    i: int,
) -> Seq<Seq<RunModel>>
    decreases runs.len() - i,
{
    if i < 0 || i >= runs.len() {
        lines.push(cur)
    } else {
        let text = if i == runs.len() - 1 {
            trim_end_spec(runs[i].text)
        } else {
            runs[i].text
        };
        let state = reflow_text(lines, cur, text, runs[i].style);
        reflow_runs(state.0, state.1, runs, i + 1)
    }
}

/// The lines that reflowing `runs` produces; no runs give no lines.
pub open spec fn reflow_spec(runs: Seq<RunModel>) -> Seq<Seq<RunModel>> {
    if runs.len() == 0 {
        Seq::empty()
    } else {
        reflow_runs(Seq::empty(), Seq::empty(), runs, 0)
    }
}

/// Re-segment styled runs into lines at their embedded newlines.
#[verifier::loop_isolation(false)]
pub fn reflow(runs: Vec<StyledRun>) -> (r: Vec<Vec<StyledRun>>)
    ensures
        r.deep_view() == reflow_spec(runs.deep_view()),
{
    let ghost rm = runs.deep_view();
    let n = runs.len();
    let mut lines: Vec<Vec<StyledRun>> = Vec::new();
    let mut cur: Vec<StyledRun> = Vec::new();
    if n == 0 {
        proof {
            assert(lines.deep_view() =~= reflow_spec(rm));
        }
        return lines;
    }
    proof {
        assert(lines.deep_view() =~= Seq::<Seq<RunModel>>::empty());
        assert(cur.deep_view() =~= Seq::<RunModel>::empty());
    }
    let mut i: usize = 0;
    while i < n
        invariant
            i <= n,
            n == rm.len(),
            rm == runs.deep_view(),
            reflow_runs(Seq::empty(), Seq::empty(), rm, 0) == reflow_runs(
                lines.deep_view(),
                cur.deep_view(),
                rm,
                i as int,
            ),
        decreases n - i,
    {
        let ghost lines_at = lines.deep_view();
        let ghost cur_at = cur.deep_view();
        let style = runs[i].style;
        let text = if i + 1 == n {
            trim_end_str(runs[i].text.as_str())
        } else {
            runs[i].text.clone()
        };
        let ghost tm = text@;
        proof {
            assert(rm[i as int].style == style);
            if i + 1 == n {
                assert(tm == trim_end_spec(rm[i as int].text));
            } else {
                assert(tm == rm[i as int].text);
            }
        }
        let st = text.as_str();
        let ghost lines1 = reflow_text(lines.deep_view(), cur.deep_view(), tm, style).0;
        let ghost cur1 = reflow_text(lines.deep_view(), cur.deep_view(), tm, style).1;
        proof {
            assert(tm.skip(0) =~= tm);
        }
        let state = flow_text(lines, cur, st, 0, style);
        lines = state.0;
        cur = state.1;
        proof {
            assert(reflow_runs(lines_at, cur_at, rm, i as int) == reflow_runs(
                lines1,
                cur1,
                rm,
                i as int + 1,
            ));
        }
        i = i + 1;
    }
    let ghost lines_end = lines.deep_view();
    let ghost cur_end = cur.deep_view();
    lines.push(cur);
    proof {
        assert(lines.deep_view() =~= lines_end.push(cur_end));
        assert(reflow_runs(lines_end, cur_end, rm, n as int) == lines_end.push(cur_end));
        assert(lines.deep_view() =~= reflow_spec(rm));
    }
    lines
}

/// Fold the text of one run, from position `p` on, into the open state.
#[verifier::loop_isolation(false)]
fn flow_text(
    lines: Vec<Vec<StyledRun>>,
    cur: Vec<StyledRun>,
    st: &str,
    p: usize,
    style: Style,
) -> (r: (Vec<Vec<StyledRun>>, Vec<StyledRun>))
    requires
        p <= st@.len(),
    ensures
        (r.0.deep_view(), r.1.deep_view()) == reflow_text(
            lines.deep_view(),
            cur.deep_view(),
            st@.skip(p as int),
            style,
        ),
    decreases st@.len() - p,
{
    let ghost suf = st@.skip(p as int);
    let ghost lines_b = lines.deep_view();
    let ghost cur_b = cur.deep_view();
    let mut lines = lines;
    let mut cur = cur;
    let m = st.unicode_len();
    let mut k = p;
    while k < m
        invariant
            p <= k <= m,
            forall|j: int| p <= j < k ==> st@[j] != '\n',
        decreases m - k,
    {
        if st.get_char(k) == '\n' {
            break;
        }
        k = k + 1;
    }
    proof {
        lemma_find_char_stop(st@, p as int, k as int, '\n');
        lemma_find_char_shift(st@, p as int, '\n');
        assert(find_char(suf, 0, '\n') == k - p);
        assert(clamp(0, find_char(suf, 0, '\n'), suf.len() as int) == k - p);
        assert(suf.subrange(0, k - p) =~= st@.subrange(p as int, k as int));
    }
    if k > p {
        let frag = crate::strutil::copy_range(st, p, k);
        cur.push(StyledRun { text: frag, style });
        proof {
            assert(cur.deep_view() =~= cur_b.push(
                RunModel { text: suf.subrange(0, k - p), style },
            ));
        }
    }
    if k == m {
        proof {
            assert(suf.subrange(0, k - p) =~= suf);
        }
        return (lines, cur);
    }
    lines.push(cur);
    proof {
        assert(lines.deep_view() =~= lines_b.push(
            if k > p {
                cur_b.push(RunModel { text: suf.subrange(0, k - p), style })
            } else {
                cur_b
            },
        ));
        assert(suf.skip(k - p + 1) =~= st@.skip(k as int + 1));
    }
    let fresh: Vec<StyledRun> = Vec::new();
    proof {
        assert(fresh.deep_view() =~= Seq::<RunModel>::empty());
    }
    flow_text(lines, fresh, st, k + 1, style)
}

/// A scan that stopped at the first occurrence of `c` (or the end) pins
/// down `find_char`.
proof fn lemma_find_char_stop(s: Seq<char>, from: int, e: int, c: char)
    requires
        0 <= from <= e <= s.len(),
        forall|k: int| from <= k < e ==> s[k] != c,
        e < s.len() ==> s[e] == c,
    ensures
        find_char(s, from, c) == e,
    decreases e - from,
{
    if from < e {
        lemma_find_char_stop(s, from + 1, e, c);
    }
}

/// Finding in a suffix is finding after the offset.
proof fn lemma_find_char_shift(s: Seq<char>, p: int, c: char)
    requires
        0 <= p <= s.len(),
    ensures
        find_char(s.skip(p), 0, c) == find_char(s, p, c) - p,
{
    lemma_find_shift_zero(s, p, c);
}

/// `find_char` from 1 equals 1 plus `find_char` of the tail from 0.
proof fn lemma_find_shift_zero(t: Seq<char>, q: int, c: char)
    requires
        0 <= q <= t.len(),
    ensures
        find_char(t, q, c) == q + find_char(t.skip(q), 0, c),
    decreases t.len() - q,
{
    if q < t.len() {
        if t[q] != c {
            lemma_find_shift_zero(t, q + 1, c);
            assert(t.skip(q).skip(1) =~= t.skip(q + 1));
            lemma_find_shift_zero(t.skip(q), 1, c);
            assert(t.skip(q)[0] == t[q]);
        } else {
            assert(t.skip(q)[0] == c);
        }
    } else {
        assert(t.skip(q).len() == 0);
    }
}

/// What a code block's markup turns into: tokenize, expand every token
/// with the neutral ambient style against the colour map, and reflow the
/// runs into lines.
pub open spec fn to_block_spec(raw: Seq<char>, tree: StyleModel) -> Seq<Seq<RunModel>> {
    reflow_spec(expand_seq_from(parse_spec(raw, 0).0, 0, crate::style::empty_style(), tree))
}

/// Turn highlighter markup into styled code lines using `colour_map` for
/// class resolution.
#[verifier::loop_isolation(false)]
pub fn to_block(raw: String, colour_map: &StyleElement) -> (r: Vec<Vec<StyledRun>>)
    ensures
        r.deep_view() == to_block_spec(raw@, colour_map@),
{
    let ghost rawv = raw@;
    let tokens = parse_html(raw);
    let ghost ts = tokens.deep_view();
    let base = Style::new();
    let mut runs: Vec<StyledRun> = Vec::new();
    let n = tokens.len();
    let mut j: usize = 0;
    proof {
        assert(runs.deep_view() =~= Seq::<RunModel>::empty());
        assert(runs.deep_view() + expand_seq_from(ts, 0, base, colour_map@) =~= expand_seq_from(
            ts,
            0,
            base,
            colour_map@,
        ));
    }
    while j < n
        invariant
            j <= n,
            n == ts.len(),
            ts == tokens.deep_view(),
            runs.deep_view() + expand_seq_from(ts, j as int, base, colour_map@)
                == expand_seq_from(ts, 0, base, colour_map@),
        decreases n - j,
    {
        let ghost before = runs.deep_view();
        tokens[j].expand(&mut runs, base, colour_map);
        proof {
            assert(tokens@[j as int]@ == ts[j as int]);
            assert(runs.deep_view() + expand_seq_from(ts, j as int + 1, base, colour_map@)
                =~= before + expand_seq_from(ts, j as int, base, colour_map@));
        }
        j = j + 1;
    }
    proof {
        assert(expand_seq_from(ts, n as int, base, colour_map@) =~= Seq::<RunModel>::empty());
        assert(runs.deep_view() =~= expand_seq_from(ts, 0, base, colour_map@));
    }
    reflow(runs)
}

/// Right-trimming the final run first is already what reflow does, so
/// trailing whitespace on the final run can never reach the output: the
/// lines of `runs` and of `runs` with its final text right-trimmed are
/// the same.
pub proof fn lemma_reflow_trims_last(runs: Seq<RunModel>)
    requires
        runs.len() > 0,
    ensures
        reflow_spec(
            runs.update(
                runs.len() - 1,
                RunModel { text: trim_end_spec(runs.last().text), style: runs.last().style },
            ),
        ) == reflow_spec(runs),
{
    let n = runs.len() as int;
    let b = runs.update(
        n - 1,
        RunModel { text: trim_end_spec(runs.last().text), style: runs.last().style },
    );
    lemma_trim_end_props(runs.last().text);
    lemma_trim_end_stable(trim_end_spec(runs.last().text));
    lemma_reflow_runs_congruent(Seq::empty(), Seq::empty(), b, runs, 0);
}

/// Right-trimming leaves a string that is empty or ends in non-space.
proof fn lemma_trim_end_props(t: Seq<char>)
    ensures
        trim_end_spec(t).len() > 0 ==> !is_space(trim_end_spec(t).last()),
    decreases t.len(),
{
    if t.len() > 0 && is_space(t.last()) {
        lemma_trim_end_props(t.drop_last());
    }
}

/// A string that is empty or ends in non-space trims to itself.
proof fn lemma_trim_end_stable(t: Seq<char>)
    requires
        t.len() > 0 ==> !is_space(t.last()),
    ensures
        trim_end_spec(t) == t,
{
}

/// Two run sequences that agree on styles, on all non-final texts, and on
/// the final text after trimming reflow to the same lines.
proof fn lemma_reflow_runs_congruent(
    lines: Seq<Seq<RunModel>>,
    cur: Seq<RunModel>,
    a: Seq<RunModel>,
    b: Seq<RunModel>,
    i: int,
)
    requires
        0 <= i <= a.len(),
        a.len() == b.len(),
        a.len() > 0,
        forall|k: int| 0 <= k < a.len() ==> a[k].style == b[k].style,
        forall|k: int| 0 <= k < a.len() - 1 ==> a[k].text == b[k].text,
        trim_end_spec(a.last().text) == trim_end_spec(b.last().text),
    ensures
        reflow_runs(lines, cur, a, i) == reflow_runs(lines, cur, b, i),
    decreases a.len() - i,
{
    if i < a.len() {
        let ta = if i == a.len() - 1 {
            trim_end_spec(a[i].text)
        } else {
            a[i].text
        };
        let tb = if i == b.len() - 1 {
            trim_end_spec(b[i].text)
        } else {
            b[i].text
        };
        assert(ta == tb);
        let state = reflow_text(lines, cur, ta, a[i].style);
        lemma_reflow_runs_congruent(state.0, state.1, a, b, i + 1);
    }
}

} // verus!
