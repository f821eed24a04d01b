//! Path-keyed style resolution with default inheritance.
//!
//! A [`StyleElement`] is either a `Parent` holding a default style and named
//! subtrees, or a leaf `Child` holding a concrete style.  A lookup consumes
//! its class list left to right; when several of the remaining classes are
//! child keys within one level, the last of them wins (rightmost-match
//! precedence, matching how layered inline emphasis compounds), and the
//! moment none is, the nearest ancestor's default applies — a lookup never
//! fails.  Inserting at a leaf turns it into a parent whose default is the
//! prior leaf's style, so paths that used to resolve keep resolving.

use vstd::prelude::*;

use crate::style::Style;

verus! {

/// The mathematical value of a [`StyleElement`]: the same tree over
/// sequences.  Children are kept in order; a lookup takes the first entry
/// whose key matches, and trees built by [`StyleElement::insert`] never
/// repeat a key within one level.
#[verifier::ext_equal]
pub enum StyleModel {
    Parent { default: Style, children: Seq<(Seq<char>, StyleModel)> },
    Child(Style),
}

/// Index of the first child entry whose key is `key`, or `-1`.
pub open spec fn child_idx(children: Seq<(Seq<char>, StyleModel)>, key: Seq<char>) -> int
    decreases children.len(),
{
    if children.len() == 0 {
        -1
    } else if children[0].0 == key {
        0
    } else {
        let r = child_idx(children.skip(1), key);
        if r < 0 {
            -1
        } else {
            r + 1
        }
    }
}

/// `child_idx` answers `-1` or a valid index.
pub proof fn lemma_child_idx_le(children: Seq<(Seq<char>, StyleModel)>, key: Seq<char>)
    ensures
        -1 <= child_idx(children, key) < children.len(),
    decreases children.len(),
{
    if children.len() > 0 && children[0].0 != key {
        lemma_child_idx_le(children.skip(1), key);
    }
}

/// The position of the class that decides the descent at one level:
/// the last (rightmost) class of the remaining list whose name is a
/// child key, or `-1` when none is.
pub open spec fn last_match(children: Seq<(Seq<char>, StyleModel)>, path: Seq<Seq<char>>) -> int
    decreases path.len(),
{
    if path.len() == 0 {
        -1
    } else if child_idx(children, path.last()) >= 0 {
        path.len() - 1
    } else {
        last_match(children, path.drop_last())
    }
}

/// Everything `last_match` guarantees: the answer is `-1` exactly when
/// no listed class is a child key, and otherwise it is the last one
/// that is.
pub proof fn lemma_last_match_props(children: Seq<(Seq<char>, StyleModel)>, path: Seq<Seq<char>>)
    ensures
        -1 <= last_match(children, path) < path.len(),
        last_match(children, path) >= 0 ==> child_idx(
            children,
            path[last_match(children, path)],
        ) >= 0,
        forall|k: int|
            last_match(children, path) < k < path.len() ==> child_idx(children, path[k]) < 0,
    decreases path.len(),
{
    if path.len() > 0 && child_idx(children, path.last()) < 0 {
        lemma_last_match_props(children, path.drop_last());
        assert forall|k: int|
            last_match(children, path) < k < path.len() implies child_idx(children, path[k])
            < 0 by {
            if k < path.len() - 1 {
                assert(path.drop_last()[k] == path[k]);
            }
        }
        if last_match(children, path) >= 0 {
            assert(path.drop_last()[last_match(children, path)] == path[last_match(
                children,
                path,
            )]);
        }
    }
}

/// A scan that found a child key at `m` and none after pins `last_match`.
proof fn lemma_last_match_pins(
    children: Seq<(Seq<char>, StyleModel)>,
    path: Seq<Seq<char>>,
    m: int,
)
    requires
        0 <= m < path.len(),
        child_idx(children, path[m]) >= 0,
        forall|k: int| m < k < path.len() ==> child_idx(children, path[k]) < 0,
    ensures
        last_match(children, path) == m,
    decreases path.len(),
{
    if m < path.len() - 1 {
        assert forall|k: int| m < k < path.len() - 1 implies child_idx(
            children,
            path.drop_last()[k],
        ) < 0 by {
            assert(path.drop_last()[k] == path[k]);
        }
        assert(path.drop_last()[m] == path[m]);
        lemma_last_match_pins(children, path.drop_last(), m);
    }
}

/// If no listed class is a child key, `last_match` reports `-1`.
proof fn lemma_last_match_none(children: Seq<(Seq<char>, StyleModel)>, path: Seq<Seq<char>>)
    requires
        forall|k: int| 0 <= k < path.len() ==> child_idx(children, path[k]) < 0,
    ensures
        last_match(children, path) == -1,
    decreases path.len(),
{
    if path.len() > 0 {
        assert forall|k: int| 0 <= k < path.len() - 1 implies child_idx(
            children,
            path.drop_last()[k],
        ) < 0 by {
            assert(path.drop_last()[k] == path[k]);
        }
        lemma_last_match_none(children, path.drop_last());
    }
}

/// `last_match` only consults `child_idx` of the listed classes.
proof fn lemma_last_match_same(
    c1: Seq<(Seq<char>, StyleModel)>,
    c2: Seq<(Seq<char>, StyleModel)>,
    path: Seq<Seq<char>>,
)
    requires
        forall|k: int| 0 <= k < path.len() ==> child_idx(c1, path[k]) == child_idx(c2, path[k]),
    ensures
        last_match(c1, path) == last_match(c2, path),
    decreases path.len(),
{
    if path.len() > 0 {
        assert forall|k: int| 0 <= k < path.len() - 1 implies child_idx(
            c1,
            path.drop_last()[k],
        ) == child_idx(c2, path.drop_last()[k]) by {
            assert(path.drop_last()[k] == path[k]);
        }
        lemma_last_match_same(c1, c2, path.drop_last());
    }
}

/// What a lookup returns: the class list is consumed left to right, and
/// at each level the last (rightmost) class of the remaining list whose
/// name is a child key decides the subtree; the classes up to and
/// including it are consumed.  The moment no remaining class is a child
/// key, or the list runs out, the nearest default applies; a leaf
/// answers with its style regardless of the rest of the list.
pub open spec fn get_spec(t: StyleModel, path: Seq<Seq<char>>) -> Style
    decreases t,
{
    match t {
        StyleModel::Child(s) => s,
        StyleModel::Parent { default, children } => {
            let pi = last_match(children, path);
            if pi >= 0 {
                proof {
                    lemma_last_match_props(children, path);
                    lemma_child_idx_le(children, path[pi]);
                }
                get_spec(children[child_idx(children, path[pi])].1, path.skip(pi + 1))
            } else {
                default
            }
        },
    }
}

/// What an insertion builds.  Missing interior nodes are created; the
/// entry at the full path becomes a leaf with `style`; a leaf on the way
/// becomes a parent that keeps the leaf's style as its default.
pub open spec fn insert_spec(t: StyleModel, path: Seq<Seq<char>>, style: Style) -> StyleModel
    decreases path.len(),
{
    if path.len() == 0 {
        t
    } else {
        let key = path[0];
        match t {
            StyleModel::Parent { default, children } => {
                let idx = child_idx(children, key);
                let sub2 = if path.len() == 1 {
                    StyleModel::Child(style)
                } else if idx >= 0 {
                    insert_spec(children[idx].1, path.skip(1), style)
                } else {
                    insert_spec(StyleModel::Child(style), path.skip(1), style)
                };
                if idx >= 0 {
                    StyleModel::Parent { default, children: children.update(idx, (key, sub2)) }
                } else {
                    StyleModel::Parent { default, children: children.push((key, sub2)) }
                }
            },
            StyleModel::Child(s) => {
                let sub2 = if path.len() == 1 {
                    StyleModel::Child(style)
                } else {
                    insert_spec(StyleModel::Child(s), path.skip(1), style)
                };
                StyleModel::Parent { default: s, children: seq![(key, sub2)] }
            },
        }
    }
}

/// Style selector tree.  Each parent level carries a default style and
/// named subtrees; leaves carry a concrete style.
#[derive(Debug, PartialEq)]
pub enum StyleElement {
    Parent { default: Style, children: Vec<(String, StyleElement)> },
    Child(Style),
}

/// The model of the child list entries from position `i` on.
pub open spec fn kids_model_from(s: Seq<(String, StyleElement)>, i: int) -> Seq<
    (Seq<char>, StyleModel),
>
    decreases s, s.len() - i,
{
    if i < 0 || i >= s.len() {
        Seq::empty()
    } else {
        seq![(s[i].0@, s[i].1@)] + kids_model_from(s, i + 1)
    }
}

/// `kids_model_from(s, 0)` is the pointwise model of `s`.
pub proof fn lemma_kids_model(s: Seq<(String, StyleElement)>)
    ensures
        kids_model_from(s, 0).len() == s.len(),
        forall|j: int|
            0 <= j < s.len() ==> kids_model_from(s, 0)[j] == (s[j].0@, s[j].1@),
{
    lemma_kids_model_from(s, 0);
}

proof fn lemma_kids_model_from(s: Seq<(String, StyleElement)>, i: int)
    requires
        0 <= i <= s.len(),
    ensures
        kids_model_from(s, i).len() == s.len() - i,
        forall|j: int|
            0 <= j < s.len() - i ==> kids_model_from(s, i)[j] == (s[i + j].0@, s[i + j].1@),
    decreases s.len() - i,
{
    if i < s.len() {
        lemma_kids_model_from(s, i + 1);
        assert(kids_model_from(s, i) == seq![(s[i].0@, s[i].1@)] + kids_model_from(s, i + 1));
        assert(kids_model_from(s, i).len() == s.len() - i);
        assert forall|j: int| 0 <= j < s.len() - i implies kids_model_from(s, i)[j] == (
            s[i + j].0@,
            s[i + j].1@,
        ) by {
            if j > 0 {
                assert(kids_model_from(s, i)[j] == kids_model_from(s, i + 1)[j - 1]);
            }
        }
    } else {
        assert(kids_model_from(s, i) =~= Seq::empty());
    }
}

impl View for StyleElement {
    type V = StyleModel;

    open spec fn view(&self) -> StyleModel
        decreases self,
    {
        match self {
            StyleElement::Child(s) => StyleModel::Child(*s),
            StyleElement::Parent { default, children } => StyleModel::Parent {
                default: *default,
                children: kids_model_from(children@, 0),
            },
        }
    }
}

impl DeepView for StyleElement {
    type V = StyleModel;

    open spec fn deep_view(&self) -> StyleModel {
        self@
    }
}

impl StyleElement {
    /// Get the style for a given class path.
    pub fn get_style(&self, classes: &Vec<String>) -> (r: Style)
        ensures
            r == get_spec(self@, classes.deep_view()),
    {
        proof {
            assert(classes.deep_view().skip(0) =~= classes.deep_view());
        }
        self.get_from(classes, 0)
    }

    /// Lookup of the class-list suffix that starts at `i`: the last
    /// remaining class that is a child key decides the descent.
    #[verifier::loop_isolation(false)]
    fn get_from(&self, classes: &Vec<String>, i: usize) -> (r: Style)
        requires
            i <= classes@.len(),
        ensures
            r == get_spec(self@, classes.deep_view().skip(i as int)),
        decreases *self,
    {
        match self {
            StyleElement::Child(s) => *s,
            StyleElement::Parent { default, children } => {
                let ghost ckeys = kids_model_from(children@, 0);
                let ghost spath = classes.deep_view().skip(i as int);
                proof {
                    lemma_kids_model(children@);
                    assert(forall|k: int|
                        i <= k < classes@.len() ==> spath[k - i] == classes.deep_view()[k]);
                }
                let n = classes.len();
                let m = children.len();
                let mut j: usize = n;
                while j > i
                    invariant
                        i <= j <= n,
                        forall|k: int|
                            j <= k < n ==> child_idx(ckeys, classes.deep_view()[k]) < 0,
                    decreases j - i,
                {
                    let ghost key = classes.deep_view()[j - 1];
                    let mut c: usize = 0;
                    while c < m
                        invariant
                            c <= m,
                            key == classes@[j as int - 1]@,
                            forall|k: int| 0 <= k < c ==> ckeys[k].0 != key,
                        decreases m - c,
                    {
                        if string_eq(&children[c].0, &classes[j - 1]) {
                            proof {
                                lemma_child_idx_found(ckeys, key, c as int);
                                lemma_last_match_pins(ckeys, spath, j - 1 - i);
                                assert(spath.skip(j - i) =~= classes.deep_view().skip(
                                    j as int,
                                ));
                            }
                            return children[c].1.get_from(classes, j);
                        }
                        c = c + 1;
                    }
                    proof {
                        lemma_child_idx_none(ckeys, key);
                    }
                    j = j - 1;
                }
                proof {
                    lemma_last_match_none(ckeys, spath);
                }
                *default
            },
        }
    }

    /// Insert a style at a class path, building interior nodes as needed.
    /// Inserting along a leaf keeps the leaf's style as the new parent's
    /// default, so every path that resolved before still resolves.
    pub fn insert(self, path: &Vec<String>, style: Style) -> (r: Self)
        ensures
            r@ == insert_spec(self@, path.deep_view(), style),
    {
        proof {
            assert(path.deep_view().skip(0) =~= path.deep_view());
        }
        self.insert_from(path, 0, style)
    }

    /// Insertion of the path suffix that starts at `i`.
    #[verifier::loop_isolation(false)]
    fn insert_from(self, path: &Vec<String>, i: usize, style: Style) -> (r: Self)
        requires
            i <= path@.len(),
        ensures
            r@ == insert_spec(self@, path.deep_view().skip(i as int), style),
        decreases path@.len() - i,
    {
        if i == path.len() {
            return self;
        }
        let ghost spath = path.deep_view().skip(i as int);
        proof {
            assert(spath[0] == path@[i as int]@);
            assert(spath.skip(1) =~= path.deep_view().skip(i as int + 1));
        }
        let last = i + 1 == path.len();
        match self {
            StyleElement::Parent { default, mut children } => {
                let ghost ckeys = kids_model_from(children@, 0);
                let ghost children0 = children@;
                let ghost key = spath[0];
                proof {
                    lemma_kids_model(children@);
                }
                let n = children.len();
                let mut j: usize = 0;
                while j < n
                    invariant
                        j <= n,
                        children@ == children0,
                        forall|k: int| 0 <= k < j ==> ckeys[k].0 != key,
                    decreases n - j,
                {
                    if string_eq(&children[j].0, &path[i]) {
                        proof {
                            lemma_child_idx_found(ckeys, key, j as int);
                        }
                        let (k, sub) = children.remove(j);
                        let sub2 = if last {
                            StyleElement::Child(style)
                        } else {
                            sub.insert_from(path, i + 1, style)
                        };
                        let ghost s2v = sub2@;
                        children.insert(j, (k, sub2));
                        let ghost cfinal = children@;
                        let r = StyleElement::Parent { default, children };
                        proof {
                            lemma_kids_model(cfinal);
                            lemma_child_idx_le(ckeys, key);
                            assert(cfinal =~= children0.update(j as int, (children0[j as int].0, cfinal[j as int].1)));
                            assert(kids_model_from(cfinal, 0)
                                =~= ckeys.update(j as int, (key, s2v)));
                            assert(r@ =~= insert_spec(
                                StyleModel::Parent { default, children: ckeys },
                                spath,
                                style,
                            ));
                        }
                        return r;
                    }
                    j = j + 1;
                }
                proof {
                    lemma_child_idx_none(ckeys, key);
                }
                let sub2 = if last {
                    StyleElement::Child(style)
                } else {
                    StyleElement::Child(style).insert_from(path, i + 1, style)
                };
                let ghost s2v = sub2@;
                children.push((clone_string(&path[i]), sub2));
                let ghost cfinal = children@;
                let r = StyleElement::Parent { default, children };
                proof {
                    lemma_kids_model(cfinal);
                    assert(kids_model_from(cfinal, 0) =~= ckeys.push((key, s2v)));
                    assert(r@ =~= insert_spec(
                        StyleModel::Parent { default, children: ckeys },
                        spath,
                        style,
                    ));
                }
                r
            },
            StyleElement::Child(s) => {
                let sub2 = if last {
                    StyleElement::Child(style)
                } else {
                    StyleElement::Child(s).insert_from(path, i + 1, style)
                };
                let ghost s2v = sub2@;
                let mut children: Vec<(String, StyleElement)> = Vec::new();
                children.push((clone_string(&path[i]), sub2));
                let ghost cfinal = children@;
                let r = StyleElement::Parent { default: s, children };
                proof {
                    lemma_kids_model(cfinal);
                    assert(kids_model_from(cfinal, 0) =~= seq![(spath[0], s2v)]);
                    assert(r@ =~= insert_spec(StyleModel::Child(s), spath, style));
                }
                r
            },
        }
    }
}

/// Character-for-character string equality.
fn string_eq(a: &String, b: &String) -> (r: bool)
    ensures
        r == (a@ == b@),
{
    a.eq(b)
}

/// A fresh copy of a string.
fn clone_string(s: &String) -> (r: String)
    ensures
        r@ == s@,
{
    s.clone()
}

/// If no entry of `children` carries `key`, `child_idx` reports `-1`.
proof fn lemma_child_idx_none(children: Seq<(Seq<char>, StyleModel)>, key: Seq<char>)
    requires
        forall|k: int| 0 <= k < children.len() ==> children[k].0 != key,
    ensures
        child_idx(children, key) == -1,
    decreases children.len(),
{
    if children.len() > 0 {
        lemma_child_idx_none(children.skip(1), key);
    }
}

/// If `j` is the first index whose key is `key`, `child_idx` reports `j`.
proof fn lemma_child_idx_found(children: Seq<(Seq<char>, StyleModel)>, key: Seq<char>, j: int)
    requires
        0 <= j < children.len(),
        children[j].0 == key,
        forall|k: int| 0 <= k < j ==> children[k].0 != key,
    ensures
        child_idx(children, key) == j,
    decreases children.len(),
{
    if j > 0 {
        lemma_child_idx_found(children.skip(1), key, j - 1);
    }
}


/// Everything `child_idx` guarantees: the answer is `-1` exactly when no
/// entry carries the key, and otherwise it is the first entry that does.
pub proof fn lemma_child_idx_props(children: Seq<(Seq<char>, StyleModel)>, key: Seq<char>)
    ensures
        -1 <= child_idx(children, key) < children.len(),
        child_idx(children, key) >= 0 ==> children[child_idx(children, key)].0 == key,
        forall|k: int| 0 <= k < child_idx(children, key) ==> children[k].0 != key,
        child_idx(children, key) == -1 ==> forall|k: int|
            0 <= k < children.len() ==> children[k].0 != key,
    decreases children.len(),
{
    if children.len() > 0 && children[0].0 != key {
        lemma_child_idx_props(children.skip(1), key);
        let r = child_idx(children.skip(1), key);
        if r >= 0 {
            assert forall|k: int| 0 <= k < r + 1 implies children[k].0 != key by {
                if k > 0 {
                    assert(children.skip(1)[k - 1].0 != key);
                }
            }
        } else {
            assert forall|k: int| 0 <= k < children.len() implies children[k].0 != key by {
                if k > 0 {
                    assert(children.skip(1)[k - 1].0 != key);
                }
            }
        }
    }
}

/// `child_idx` only looks at the keys, not the subtrees.
proof fn lemma_child_idx_same_keys(
    s1: Seq<(Seq<char>, StyleModel)>,
    s2: Seq<(Seq<char>, StyleModel)>,
    key: Seq<char>,
)
    requires
        s1.len() == s2.len(),
        forall|k: int| 0 <= k < s1.len() ==> s1[k].0 == s2[k].0,
    ensures
        child_idx(s1, key) == child_idx(s2, key),
    decreases s1.len(),
{
    if s1.len() > 0 {
        assert forall|k: int| 0 <= k < s1.len() - 1 implies s1.skip(1)[k].0 == s2.skip(1)[k].0 by {
            assert(s1[k + 1].0 == s2[k + 1].0);
        }
        lemma_child_idx_same_keys(s1.skip(1), s2.skip(1), key);
    }
}

/// Last write wins for a directly keyed entry: after inserting `style`
/// at a single-segment path, looking that one class up answers `style`.
/// No such law holds of longer paths: the rightmost-match lookup leaves
/// the written chain when a later class of the list is also a child key
/// of an earlier level.
pub proof fn lemma_insert_then_lookup(t: StyleModel, path: Seq<Seq<char>>, style: Style)
    requires
        path.len() == 1,
    ensures
        get_spec(insert_spec(t, path, style), path) == style,
{
    let key = path[0];
    match t {
        StyleModel::Parent { default, children } => {
            lemma_child_idx_props(children, key);
            let idx = child_idx(children, key);
            let c2 = if idx >= 0 {
                children.update(idx, (key, StyleModel::Child(style)))
            } else {
                children.push((key, StyleModel::Child(style)))
            };
            let j = if idx >= 0 {
                idx
            } else {
                children.len() as int
            };
            lemma_child_idx_found(c2, key, j);
            assert(insert_spec(t, path, style) == (StyleModel::Parent {
                default,
                children: c2,
            }));
            assert(path.last() == key);
            assert(last_match(c2, path) == 0);
            assert(c2[j].1 == StyleModel::Child(style));
            assert(get_spec(insert_spec(t, path, style), path) == get_spec(
                StyleModel::Child(style),
                path.skip(1),
            ));
        },
        StyleModel::Child(s) => {
            let c2 = seq![(key, StyleModel::Child(style))];
            lemma_child_idx_found(c2, key, 0);
            assert(insert_spec(t, path, style) == (StyleModel::Parent {
                default: s,
                children: c2,
            }));
            assert(path.last() == key);
            assert(last_match(c2, path) == 0);
            assert(c2[0].1 == StyleModel::Child(style));
            assert(get_spec(insert_spec(t, path, style), path) == get_spec(
                StyleModel::Child(style),
                path.skip(1),
            ));
        },
    }
}

/// Insertion is idempotent on repeated identical paths: writing the same
/// style at the same path twice builds the same tree as writing it once.
pub proof fn lemma_insert_idempotent(t: StyleModel, path: Seq<Seq<char>>, style: Style)
    ensures
        insert_spec(insert_spec(t, path, style), path, style) == insert_spec(t, path, style),
    decreases path.len(),
{
    if path.len() == 0 {
        return;
    }
    let key = path[0];
    match t {
        StyleModel::Parent { default, children } => {
            lemma_child_idx_props(children, key);
            let idx = child_idx(children, key);
            let sub1 = if path.len() == 1 {
                StyleModel::Child(style)
            } else if idx >= 0 {
                insert_spec(children[idx].1, path.skip(1), style)
            } else {
                insert_spec(StyleModel::Child(style), path.skip(1), style)
            };
            let c1 = if idx >= 0 {
                children.update(idx, (key, sub1))
            } else {
                children.push((key, sub1))
            };
            let j = if idx >= 0 {
                idx
            } else {
                children.len() as int
            };
            lemma_child_idx_found(c1, key, j);
            assert(c1[j] == (key, sub1));
            if path.len() > 1 {
                if idx >= 0 {
                    lemma_insert_idempotent(children[idx].1, path.skip(1), style);
                } else {
                    lemma_insert_idempotent(StyleModel::Child(style), path.skip(1), style);
                }
            }
            assert(c1.update(j, (key, sub1)) =~= c1);
        },
        StyleModel::Child(s) => {
            let sub1 = if path.len() == 1 {
                StyleModel::Child(style)
            } else {
                insert_spec(StyleModel::Child(s), path.skip(1), style)
            };
            let c1 = seq![(key, sub1)];
            lemma_child_idx_found(c1, key, 0);
            if path.len() > 1 {
                lemma_insert_idempotent(StyleModel::Child(s), path.skip(1), style);
            }
            assert(c1.update(0, (key, sub1)) =~= c1);
        },
    }
}

/// Whether the traversal ever chooses the final class of the list: at
/// some consulted level, the rightmost listed class that is a child key
/// is the last one.
pub open spec fn last_matched(t: StyleModel, path: Seq<Seq<char>>) -> bool
    decreases t,
{
    match t {
        StyleModel::Child(_) => false,
        StyleModel::Parent { default, children } => {
            let pi = last_match(children, path);
            if pi < 0 {
                false
            } else if pi == path.len() - 1 {
                true
            } else {
                proof {
                    lemma_last_match_props(children, path);
                    lemma_child_idx_le(children, path[pi]);
                }
                last_matched(children[child_idx(children, path[pi])].1, path.skip(pi + 1))
            }
        },
    }
}

/// A lookup never fails, and when the final class of the list is never
/// chosen it answers exactly what the list without that class answers:
/// the same subtree's style or the nearest ancestor default.
pub proof fn lemma_lookup_unmatched_last(t: StyleModel, path: Seq<Seq<char>>)
    requires
        path.len() > 0,
        !last_matched(t, path),
    ensures
        get_spec(t, path) == get_spec(t, path.take(path.len() - 1)),
    decreases t,
{
    match t {
        StyleModel::Child(_) => {},
        StyleModel::Parent { default, children } => {
            let short = path.take(path.len() - 1);
            assert(short =~= path.drop_last());
            let pi = last_match(children, path);
            lemma_last_match_props(children, path);
            assert(pi != path.len() - 1);
            assert(child_idx(children, path.last()) < 0);
            assert(last_match(children, short) == pi);
            if pi >= 0 {
                lemma_child_idx_le(children, path[pi]);
                assert(short[pi] == path[pi]);
                let sub = children[child_idx(children, path[pi])].1;
                let tail = path.skip(pi + 1);
                assert(tail.len() > 0);
                assert(!last_matched(sub, tail));
                lemma_lookup_unmatched_last(sub, tail);
                assert(tail.take(tail.len() - 1) =~= short.skip(pi + 1));
            }
        },
    }
}

/// The insert path's interior chain exists in `t`: each class but the
/// last is a child key at the level that consumes it.
pub open spec fn chain_exists(t: StyleModel, path: Seq<Seq<char>>) -> bool
    decreases path.len(),
{
    path.len() <= 1 || (match t {
        StyleModel::Parent { children, .. } => {
            let j = child_idx(children, path[0]);
            j >= 0 && chain_exists(
                {
                    proof {
                        lemma_child_idx_le(children, path[0]);
                    }
                    children[j].1
                },
                path.skip(1),
            )
        },
        StyleModel::Child(_) => false,
    })
}

/// Inserting at `p` builds the interior chain of every path that shares
/// all but the last class with `p`.
proof fn lemma_insert_chain_prefix(
    t: StyleModel,
    p: Seq<Seq<char>>,
    s: Style,
    q: Seq<Seq<char>>,
)
    requires
        p.len() >= 1,
        q.len() == p.len(),
        q.take(q.len() - 1) == p.take(p.len() - 1),
    ensures
        chain_exists(insert_spec(t, p, s), q),
    decreases p.len(),
{
    if p.len() >= 2 {
        assert(q[0] == q.take(q.len() - 1)[0]);
        assert(p[0] == p.take(p.len() - 1)[0]);
        let key = p[0];
        match t {
            StyleModel::Parent { default, children } => {
                lemma_child_idx_props(children, key);
                let idx = child_idx(children, key);
                let base = if idx >= 0 {
                    children[idx].1
                } else {
                    StyleModel::Child(s)
                };
                let sub1 = insert_spec(base, p.skip(1), s);
                let c1 = if idx >= 0 {
                    children.update(idx, (key, sub1))
                } else {
                    children.push((key, sub1))
                };
                let j = if idx >= 0 {
                    idx
                } else {
                    children.len() as int
                };
                lemma_child_idx_found(c1, key, j);
                assert(c1[j].1 == sub1);
                assert(p.skip(1).take(p.len() - 2) =~= p.take(p.len() - 1).skip(1));
                assert(q.skip(1).take(q.len() - 2) =~= q.take(q.len() - 1).skip(1));
                lemma_insert_chain_prefix(base, p.skip(1), s, q.skip(1));
            },
            StyleModel::Child(c) => {
                let sub1 = insert_spec(StyleModel::Child(c), p.skip(1), s);
                let c1 = seq![(key, sub1)];
                lemma_child_idx_found(c1, key, 0);
                assert(p.skip(1).take(p.len() - 2) =~= p.take(p.len() - 1).skip(1));
                assert(q.skip(1).take(q.len() - 2) =~= q.take(q.len() - 1).skip(1));
                lemma_insert_chain_prefix(StyleModel::Child(c), p.skip(1), s, q.skip(1));
            },
        }
    }
}

/// An insertion whose interior chain already exists cannot change the
/// lookup of a class list that is no longer than the insert path and,
/// when exactly as long, ends in a different class.  The counting is
/// what makes this safe: every descent consumes at least one listed
/// class but exactly one insert-path class, so by the time the insert
/// reaches the level where it writes its new entry, at most the final
/// listed class remains, and that one differs from the written key.
proof fn lemma_insert_lookup_disjoint(
    t1: StyleModel,
    qr: Seq<Seq<char>>,
    sigma: Seq<Seq<char>>,
    s2: Style,
)
    requires
        qr.len() >= 1,
        sigma.len() <= qr.len(),
        sigma.len() == qr.len() ==> sigma.last() != qr.last(),
        chain_exists(t1, qr),
    ensures
        get_spec(insert_spec(t1, qr, s2), sigma) == get_spec(t1, sigma),
    decreases qr.len(),
{
    let key = qr[0];
    if qr.len() == 1 {
        match t1 {
            StyleModel::Parent { default, children } => {
                lemma_child_idx_props(children, key);
                let idx = child_idx(children, key);
                let c2 = if idx >= 0 {
                    children.update(idx, (key, StyleModel::Child(s2)))
                } else {
                    children.push((key, StyleModel::Child(s2)))
                };
                assert(qr.last() == key);
                assert forall|k: int| 0 <= k < sigma.len() implies child_idx(c2, sigma[k])
                    == child_idx(children, sigma[k]) by {
                    assert(sigma[k] == sigma.last());
                    assert(sigma[k] != key);
                    lemma_write_keeps_other_idx(children, c2, idx, key, sigma[k]);
                }
                lemma_last_match_same(children, c2, sigma);
                let pi = last_match(children, sigma);
                lemma_last_match_props(children, sigma);
                if pi >= 0 {
                    lemma_child_idx_le(children, sigma[pi]);
                    let c = child_idx(children, sigma[pi]);
                    lemma_child_idx_props(children, sigma[pi]);
                    assert(sigma[pi] == sigma.last());
                    assert(sigma[pi] != key);
                    if idx >= 0 {
                        assert(children[idx].0 == key);
                        assert(c != idx);
                    }
                    assert(c2[c] == children[c]);
                }
            },
            StyleModel::Child(c) => {
                let c2 = seq![(key, StyleModel::Child(s2))];
                assert(qr.last() == key);
                assert forall|k: int| 0 <= k < sigma.len() implies child_idx(c2, sigma[k])
                    < 0 by {
                    assert(sigma[k] == sigma.last());
                    assert(sigma[k] != key);
                    assert(c2[0].0 != sigma[k]);
                    lemma_child_idx_none(c2, sigma[k]);
                }
                lemma_single_lookup_default(c2, sigma, c);
            },
        }
    } else {
        match t1 {
            StyleModel::Parent { default, children } => {
                let j0 = child_idx(children, key);
                lemma_child_idx_props(children, key);
                let sub1 = children[j0].1;
                let sub2 = insert_spec(sub1, qr.skip(1), s2);
                let c2 = children.update(j0, (key, sub2));
                assert forall|k: int| 0 <= k < sigma.len() implies child_idx(c2, sigma[k])
                    == child_idx(children, sigma[k]) by {
                    lemma_write_keeps_other_idx(children, c2, j0, key, sigma[k]);
                }
                lemma_last_match_same(children, c2, sigma);
                let pi = last_match(children, sigma);
                lemma_last_match_props(children, sigma);
                if pi >= 0 {
                    lemma_child_idx_le(children, sigma[pi]);
                    let c = child_idx(children, sigma[pi]);
                    lemma_child_idx_props(children, sigma[pi]);
                    if c != j0 {
                        assert(c2[c] == children[c]);
                    } else {
                        assert(sigma[pi] == children[j0].0);
                        assert(sigma[pi] == key);
                        let tail = sigma.skip(pi + 1);
                        assert(tail.len() <= qr.len() - 1);
                        if tail.len() == qr.len() - 1 {
                            assert(pi == 0 && sigma.len() == qr.len());
                            assert(tail.last() == sigma[sigma.len() - 1]);
                            assert(qr.skip(1).last() == qr[qr.len() - 1]);
                        }
                        lemma_insert_lookup_disjoint(sub1, qr.skip(1), tail, s2);
                    }
                }
            },
            StyleModel::Child(_) => {
                assert(false);
            },
        }
    }
}

/// Updating the entry of `key` in place leaves `child_idx` of every
/// class unchanged; pushing a new entry for `key` leaves `child_idx` of
/// every other class unchanged.
proof fn lemma_write_keeps_other_idx(
    ch: Seq<(Seq<char>, StyleModel)>,
    c2: Seq<(Seq<char>, StyleModel)>,
    idx: int,
    key: Seq<char>,
    x: Seq<char>,
)
    requires
        -1 <= idx < ch.len(),
        idx >= 0 ==> ch[idx].0 == key && c2.len() == ch.len() && c2[idx].0 == key && (forall|k: int|
            0 <= k < ch.len() && k != idx ==> c2[k] == ch[k]),
        idx < 0 ==> c2.len() == ch.len() + 1 && c2[ch.len() as int].0 == key && (forall|k: int|
            0 <= k < ch.len() ==> c2[k] == ch[k]),
    ensures
        x != key || idx >= 0 ==> child_idx(c2, x) == child_idx(ch, x),
{
    if idx >= 0 {
        assert forall|k: int| 0 <= k < ch.len() implies ch[k].0 == c2[k].0 by {}
        lemma_child_idx_same_keys(ch, c2, x);
    } else if x != key {
        lemma_child_idx_props(ch, x);
        let c = child_idx(ch, x);
        if c >= 0 {
            assert(c2[c].0 == x);
            assert forall|k: int| 0 <= k < c implies c2[k].0 != x by {}
            lemma_child_idx_found(c2, x, c);
        } else {
            assert forall|k: int| 0 <= k < c2.len() implies c2[k].0 != x by {
                if k == ch.len() {
                    assert(c2[k].0 == key);
                }
            }
            lemma_child_idx_none(c2, x);
        }
    }
}

/// A level none of whose keys occurs in the list answers its default.
proof fn lemma_single_lookup_default(
    c2: Seq<(Seq<char>, StyleModel)>,
    sigma: Seq<Seq<char>>,
    d: Style,
)
    requires
        forall|k: int| 0 <= k < sigma.len() ==> child_idx(c2, sigma[k]) < 0,
    ensures
        get_spec(StyleModel::Parent { default: d, children: c2 }, sigma) == d,
{
    lemma_last_match_none(c2, sigma);
}

/// Sibling independence: writing a style at one path and then a second
/// style at a sibling path (same length, same prefix, different final
/// class) leaves the first path resolving to what it resolved to after
/// the first write.
pub proof fn lemma_sibling_independent(
    t: StyleModel,
    p: Seq<Seq<char>>,
    q: Seq<Seq<char>>,
    s1: Style,
    s2: Style,
)
    requires
        p.len() > 0,
        q.len() == p.len(),
        p.take(p.len() - 1) == q.take(q.len() - 1),
        p[p.len() - 1] != q[q.len() - 1],
    ensures
        get_spec(insert_spec(insert_spec(t, p, s1), q, s2), p) == get_spec(
            insert_spec(t, p, s1),
            p,
        ),
{
    let t1 = insert_spec(t, p, s1);
    lemma_insert_chain_prefix(t, p, s1, q);
    assert(p.last() == p[p.len() - 1]);
    assert(q.last() == q[q.len() - 1]);
    lemma_insert_lookup_disjoint(t1, q, p, s2);
}

} // verus!
