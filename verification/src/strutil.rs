//! Character-level string helpers shared by the tokenizer, the reflow
//! builder and the tree converter: entity decoding, whitespace splitting,
//! scanning and trimming.

use vstd::prelude::*;

verus! {

/// The whitespace characters this crate recognises: blank, tab, newline
/// and carriage return.
pub open spec fn is_space(c: char) -> bool {
    c == ' ' || c == '\t' || c == '\n' || c == '\r'
}

/// Executable test for [`is_space`].
pub fn is_space_char(c: char) -> (r: bool)
    ensures
        r == is_space(c),
{
    c == ' ' || c == '\t' || c == '\n' || c == '\r'
}

/// Index of the first occurrence of `c` at or after `from`, or the length
/// of `s` if there is none.
pub open spec fn find_char(s: Seq<char>, from: int, c: char) -> int
    decreases s.len() - from,
{
    if from < 0 || from >= s.len() {
        s.len() as int
    } else if s[from] == c {
        from
    } else {
        find_char(s, from + 1, c)
    }
}

/// Where `find_char` points: within bounds, at an occurrence if there is
/// one, and past nothing but non-occurrences.
pub proof fn lemma_find_char(s: Seq<char>, from: int, c: char)
    requires
        0 <= from <= s.len(),
    ensures
        from <= find_char(s, from, c) <= s.len(),
        find_char(s, from, c) < s.len() ==> s[find_char(s, from, c)] == c,
        forall|k: int| from <= k < find_char(s, from, c) ==> s[k] != c,
    decreases s.len() - from,
{
    if from < s.len() && s[from] != c {
        lemma_find_char(s, from + 1, c);
    }
}

/// Index of the first whitespace character at or after `from`, or the
/// length of `s` if there is none.
pub open spec fn find_space(s: Seq<char>, from: int) -> int
    decreases s.len() - from,
{
    if from < 0 || from >= s.len() {
        s.len() as int
    } else if is_space(s[from]) {
        from
    } else {
        find_space(s, from + 1)
    }
}

/// The five markup character entities this crate decodes, replaced one
/// pass left to right; everything else is copied through unchanged.
pub open spec fn decode_entities(s: Seq<char>) -> Seq<char>
    decreases s.len(),
{
    if s.len() == 0 {
        Seq::empty()
    } else if s.len() >= 5 && s.subrange(0, 5) == "&amp;"@ {
        seq!['&'] + decode_entities(s.skip(5))
    } else if s.len() >= 4 && s.subrange(0, 4) == "&lt;"@ {
        seq!['<'] + decode_entities(s.skip(4))
    } else if s.len() >= 4 && s.subrange(0, 4) == "&gt;"@ {
        seq!['>'] + decode_entities(s.skip(4))
    } else if s.len() >= 6 && s.subrange(0, 6) == "&quot;"@ {
        seq!['"'] + decode_entities(s.skip(6))
    } else if s.len() >= 6 && s.subrange(0, 6) == "&#x27;"@ {
        seq!['\''] + decode_entities(s.skip(6))
    } else {
        seq![s[0]] + decode_entities(s.skip(1))
    }
}

/// Whether `pat` occurs in `s` at position `i`.
#[verifier::loop_isolation(false)]
pub fn match_prefix(s: &str, n: usize, i: usize, pat: &str) -> (r: bool)
    requires
        n == s@.len(),
        i <= n,
    ensures
        r == (i + pat@.len() <= s@.len() && s@.subrange(i as int, i as int + pat@.len() as int)
            == pat@),
{
    let m = pat.unicode_len();
    if n - i < m {
        return false;
    }
    let mut k: usize = 0;
    while k < m
        invariant
            k <= m,
            forall|l: int| 0 <= l < k ==> s@[i + l] == pat@[l],
        decreases m - k,
    {
        if s.get_char(i + k) != pat.get_char(k) {
            proof {
                assert(s@.subrange(i as int, i as int + m as int)[k as int] != pat@[k as int]);
            }
            return false;
        }
        k = k + 1;
    }
    proof {
        assert(s@.subrange(i as int, i as int + m as int) =~= pat@);
    }
    true
}

/// Decode the five standard markup character entities in `s`.
#[verifier::loop_isolation(false)]
pub fn replace_reserved(s: String) -> (r: String)
    ensures
        r@ == decode_entities(s@),
{
    let st = s.as_str();
    let n = st.unicode_len();
    let mut out = String::new();
    let mut i: usize = 0;
    proof {
        assert(s@.skip(0) =~= s@);
        assert(out@ + decode_entities(s@) =~= decode_entities(s@));
    }
    while i < n
        invariant
            i <= n,
            decode_entities(s@) == out@ + decode_entities(s@.skip(i as int)),
        decreases n - i,
    {
        let ghost suf = s@.skip(i as int);
        proof {
            assert(suf.len() == n - i);
            assert forall|m: int| 0 <= m <= suf.len() implies suf.subrange(0, m) =~= s@.subrange(
                i as int,
                i as int + m,
            ) by {}
        }
        if match_prefix(st, n, i, "&amp;") {
            out.append("&");
            proof {
                reveal_strlit("&amp;");
                reveal_strlit("&");
                assert(("&amp;")@.len() == 5);
                assert(("&")@ =~= seq!['&']);
                assert(suf.skip(5) =~= s@.skip(i as int + 5));
            }
            i = i + 5;
        } else if match_prefix(st, n, i, "&lt;") {
            out.append("<");
            proof {
                reveal_strlit("&amp;");
                reveal_strlit("&lt;");
                reveal_strlit("<");
                assert(("&lt;")@.len() == 4);
                assert(("<")@ =~= seq!['<']);
                assert(suf.skip(4) =~= s@.skip(i as int + 4));
            }
            i = i + 4;
        } else if match_prefix(st, n, i, "&gt;") {
            out.append(">");
            proof {
                reveal_strlit("&amp;");
                reveal_strlit("&lt;");
                reveal_strlit("&gt;");
                reveal_strlit(">");
                assert(("&gt;")@.len() == 4);
                assert((">")@ =~= seq!['>']);
                assert(suf.skip(4) =~= s@.skip(i as int + 4));
            }
            i = i + 4;
        } else if match_prefix(st, n, i, "&quot;") {
            out.append("\"");
            proof {
                reveal_strlit("&amp;");
                reveal_strlit("&lt;");
                reveal_strlit("&gt;");
                reveal_strlit("&quot;");
                reveal_strlit("\"");
                assert(("&quot;")@.len() == 6);
                assert(("\"")@ =~= seq!['"']);
                assert(suf.skip(6) =~= s@.skip(i as int + 6));
            }
            i = i + 6;
        } else if match_prefix(st, n, i, "&#x27;") {
            out.append("'");
            proof {
                reveal_strlit("&amp;");
                reveal_strlit("&lt;");
                reveal_strlit("&gt;");
                reveal_strlit("&quot;");
                reveal_strlit("&#x27;");
                reveal_strlit("'");
                assert(("&#x27;")@.len() == 6);
                assert(("'")@ =~= seq!['\'']);
                assert(suf.skip(6) =~= s@.skip(i as int + 6));
            }
            i = i + 6;
        } else {
            let one = st.substring_char(i, i + 1);
            out.append(one);
            proof {
                reveal_strlit("&amp;");
                reveal_strlit("&lt;");
                reveal_strlit("&gt;");
                reveal_strlit("&quot;");
                reveal_strlit("&#x27;");
                assert(one@ =~= seq![s@[i as int]]);
                assert(suf.skip(1) =~= s@.skip(i as int + 1));
            }
            i = i + 1;
        }
    }
    proof {
        assert(s@.skip(n as int) =~= Seq::empty());
        assert(decode_entities(s@) =~= out@);
    }
    out
}

/// The whitespace-separated words of `s`, in order, without the
/// whitespace.
pub open spec fn split_ws(s: Seq<char>) -> Seq<Seq<char>>
    decreases s.len(),
{
    if s.len() == 0 {
        Seq::empty()
    } else if is_space(s[0]) {
        split_ws(s.skip(1))
    } else {
        let e = find_space(s, 0);
        let e2 = if e < 1 {
            1
        } else if e > s.len() {
            s.len() as int
        } else {
            e
        };
        seq![s.subrange(0, e2)] + split_ws(s.skip(e2))
    }
}

/// Split a string into its whitespace-separated words.
#[verifier::loop_isolation(false)]
pub fn split_whitespace_words(st: &str) -> (r: Vec<String>)
    ensures
        r.deep_view() == split_ws(st@),
{
    let n = st.unicode_len();
    let mut out: Vec<String> = Vec::new();
    let mut i: usize = 0;
    proof {
        assert(out.deep_view() =~= Seq::<Seq<char>>::empty());
        assert(st@.skip(0) =~= st@);
        assert(Seq::<Seq<char>>::empty() + split_ws(st@) =~= split_ws(st@));
    }
    while i < n
        invariant
            i <= n,
            split_ws(st@) == out.deep_view() + split_ws(st@.skip(i as int)),
        decreases n - i,
    {
        let ghost suf = st@.skip(i as int);
        let c = st.get_char(i);
        if is_space_char(c) {
            proof {
                assert(suf.skip(1) =~= st@.skip(i as int + 1));
            }
            i = i + 1;
        } else {
            let mut j: usize = i + 1;
            while j < n
                invariant
                    i + 1 <= j <= n,
                    forall|k: int| i < k < j ==> !is_space(st@[k]),
                decreases n - j,
            {
                if is_space_char(st.get_char(j)) {
                    break;
                }
                j = j + 1;
            }
            proof {
                lemma_scan_to_find_space(suf, (j - i) as int);
            }
            let word = st.substring_char(i, j);
            out.push(String::from_str(word));
            proof {
                assert(word@ =~= suf.subrange(0, j - i));
                assert(suf.skip(j - i) =~= st@.skip(j as int));
                assert(out.deep_view() =~= out.deep_view().drop_last().push(word@));
            }
            i = j;
        }
    }
    proof {
        assert(st@.skip(n as int) =~= Seq::empty());
        assert(out.deep_view() + Seq::<Seq<char>>::empty() =~= out.deep_view());
    }
    out
}

/// A scan that stopped at the first whitespace (or the end) pins down
/// `find_space`.
proof fn lemma_scan_to_find_space(suf: Seq<char>, e: int)
    requires
        1 <= e <= suf.len(),
        !is_space(suf[0]),
        forall|k: int| 0 < k < e ==> !is_space(suf[k]),
        e < suf.len() ==> is_space(suf[e]),
    ensures
        find_space(suf, 0) == e,
{
    lemma_find_space_pins(suf, 0, e);
}

proof fn lemma_find_space_pins(suf: Seq<char>, from: int, e: int)
    requires
        0 <= from <= e <= suf.len(),
        forall|k: int| from <= k < e ==> !is_space(suf[k]),
        e < suf.len() ==> is_space(suf[e]),
    ensures
        find_space(suf, from) == e,
    decreases e - from,
{
    if from < e {
        lemma_find_space_pins(suf, from + 1, e);
    }
}

/// `s` with every newline character removed.
pub open spec fn strip_newlines(s: Seq<char>) -> Seq<char>
    decreases s.len(),
{
    if s.len() == 0 {
        Seq::empty()
    } else if s[0] == '\n' {
        strip_newlines(s.skip(1))
    } else {
        seq![s[0]] + strip_newlines(s.skip(1))
    }
}

/// Remove every newline character from `s`.
#[verifier::loop_isolation(false)]
pub fn remove_newlines(st: &str) -> (r: String)
    ensures
        r@ == strip_newlines(st@),
{
    let n = st.unicode_len();
    let mut out = String::new();
    let mut i: usize = 0;
    proof {
        assert(st@.skip(0) =~= st@);
        assert(out@ + strip_newlines(st@) =~= strip_newlines(st@));
    }
    while i < n
        invariant
            i <= n,
            strip_newlines(st@) == out@ + strip_newlines(st@.skip(i as int)),
        decreases n - i,
    {
        let ghost suf = st@.skip(i as int);
        let c = st.get_char(i);
        if !(c == '\n') {
            let one = st.substring_char(i, i + 1);
            out.append(one);
            proof {
                assert(one@ =~= seq![st@[i as int]]);
            }
        }
        proof {
            assert(suf.skip(1) =~= st@.skip(i as int + 1));
        }
        i = i + 1;
    }
    proof {
        assert(st@.skip(n as int) =~= Seq::empty());
        assert(strip_newlines(st@) =~= out@);
    }
    out
}

/// `s` without its trailing whitespace.
pub open spec fn trim_end_spec(s: Seq<char>) -> Seq<char>
    decreases s.len(),
{
    if s.len() == 0 {
        s
    } else if is_space(s.last()) {
        trim_end_spec(s.drop_last())
    } else {
        s
    }
}

/// Right-trim the whitespace of `s`.
#[verifier::loop_isolation(false)]
pub fn trim_end_str(st: &str) -> (r: String)
    ensures
        r@ == trim_end_spec(st@),
{
    let n = st.unicode_len();
    let mut e = n;
    proof {
        assert(st@.subrange(0, n as int) =~= st@);
    }
    while e > 0
        invariant
            e <= n,
            trim_end_spec(st@) == trim_end_spec(st@.subrange(0, e as int)),
        decreases e,
    {
        if !is_space_char(st.get_char(e - 1)) {
            break;
        }
        proof {
            assert(st@.subrange(0, e as int).drop_last() =~= st@.subrange(0, e as int - 1));
        }
        e = e - 1;
    }
    let r = String::from_str(st.substring_char(0, e));
    proof {
        if e > 0 {
            assert(!is_space(st@.subrange(0, e as int).last()));
        }
        assert(r@ =~= st@.subrange(0, e as int));
    }
    r
}

/// Character-for-character equality of two strings.
pub fn str_eq(a: &str, b: &str) -> (r: bool)
    ensures
        r == (a@ == b@),
{
    let na = a.unicode_len();
    let nb = b.unicode_len();
    if na != nb {
        return false;
    }
    let r = match_prefix(a, na, 0, b);
    proof {
        if a@.subrange(0, nb as int) == b@ {
            assert(a@ =~= a@.subrange(0, nb as int));
        }
        if a@ == b@ {
            assert(a@.subrange(0, nb as int) =~= b@);
        }
    }
    r
}

/// Copy the characters `from..to` of `st` into a fresh string.
pub fn copy_range(st: &str, from: usize, to: usize) -> (r: String)
    requires
        from <= to <= st@.len(),
    ensures
        r@ == st@.subrange(from as int, to as int),
{
    String::from_str(st.substring_char(from, to))
}

} // verus!
