//! The table of contents: a chapter map rendered as nested ordered
//! lists.

use vstd::prelude::*;

use crate::convert::BlockModel;
use crate::convert::LayoutBlock;
use crate::style::empty_style;
use crate::style::RunModel;
use crate::style::Style;
use crate::style::StyledRun;

verus! {

/// A book's chapter structure: a chapter with sub-chapters, or a leaf
/// chapter.
#[derive(Debug, PartialEq)]
pub enum ChapterMap {
    Branch(String, Vec<ChapterMap>),
    Leaf(String),
}

/// The mathematical value of a [`ChapterMap`].
#[verifier::ext_equal]
pub enum ChapterModel {
    Branch(Seq<char>, Seq<ChapterModel>),
    Leaf(Seq<char>),
}

/// The model of the chapters of `s` from position `i` on.
pub open spec fn chapters_model_from(s: Seq<ChapterMap>, i: int) -> Seq<ChapterModel>
    decreases s, s.len() - i,
{
    if i < 0 || i >= s.len() {
        Seq::empty()
    } else {
        seq![s[i]@] + chapters_model_from(s, i + 1)
    }
}

impl View for ChapterMap {
    type V = ChapterModel;

    open spec fn view(&self) -> ChapterModel
        decreases self,
    {
        match self {
            ChapterMap::Leaf(name) => ChapterModel::Leaf(name@),
            ChapterMap::Branch(name, subs) => ChapterModel::Branch(
                name@,
                chapters_model_from(subs@, 0),
            ),
        }
    }
}

impl DeepView for ChapterMap {
    type V = ChapterModel;

    open spec fn deep_view(&self) -> ChapterModel {
        self@
    }
}

/// The style of a contents entry: body text size on the neutral style.
pub open spec fn entry_style(fs: u8) -> Style {
    Style { font_size: Some(fs), ..empty_style() }
}

/// The contents entry for one chapter: a leaf becomes a sized paragraph
/// of its name; a branch becomes its name stacked over the ordered list
/// of its sub-chapters' entries.
pub open spec fn chapter_item(c: ChapterModel, fs: u8) -> BlockModel
    decreases c, 0int,
{
    match c {
        ChapterModel::Leaf(name) => BlockModel::Paragraph(
            seq![RunModel { text: name, style: entry_style(fs) }],
        ),
        ChapterModel::Branch(name, subs) => BlockModel::Stack(
            seq![
                BlockModel::Paragraph(seq![RunModel { text: name, style: entry_style(fs) }]),
                BlockModel::List { ordered: true, items: chapter_items_from(subs, 0, fs) },
            ],
        ),
    }
}

/// The contents entries of the chapters of `s` from position `i` on.
pub open spec fn chapter_items_from(s: Seq<ChapterModel>, i: int, fs: u8) -> Seq<BlockModel>
    decreases s, s.len() - i,
{
    if i < 0 || i >= s.len() {
        Seq::empty()
    } else {
        seq![chapter_item(s[i], fs)] + chapter_items_from(s, i + 1, fs)
    }
}

impl ChapterMap {
    /// Append this chapter's contents entry, at text size `fs`, to
    /// `parent`.
    #[verifier::loop_isolation(false)]
    pub fn to_list(&self, fs: u8, parent: &mut Vec<LayoutBlock>)
        ensures
            final(parent).deep_view() == old(parent).deep_view().push(chapter_item(self@, fs)),
        decreases *self,
    {
        match self {
            ChapterMap::Leaf(name) => {
                let ghost nv = name@;
                let mut runs: Vec<StyledRun> = Vec::new();
                runs.push(StyledRun { text: name.clone(), style: Style::new().with_font_size(fs) });
                proof {
                    assert(runs.deep_view() =~= seq![RunModel { text: nv, style: entry_style(fs) }]);
                }
                parent.push(LayoutBlock::Paragraph(runs));
                proof {
                    assert(final(parent).deep_view() =~= old(parent).deep_view().push(
                        chapter_item(self@, fs),
                    ));
                }
            },
            ChapterMap::Branch(name, subs) => {
                let ghost sm = chapters_model_from(subs@, 0);
                let mut items: Vec<LayoutBlock> = Vec::new();
                let n = subs.len();
                let mut j: usize = 0;
                proof {
                    lemma_chapters_model(subs@);
                    assert(items.deep_view() =~= Seq::<BlockModel>::empty());
                    assert(items.deep_view() + chapter_items_from(sm, 0, fs) =~= chapter_items_from(
                        sm,
                        0,
                        fs,
                    ));
                }
                while j < n
                    invariant
                        j <= n,
                        items.deep_view() + chapter_items_from(sm, j as int, fs)
                            == chapter_items_from(sm, 0, fs),
                    decreases n - j,
                {
                    let ghost before = items.deep_view();
                    subs[j].to_list(fs, &mut items);
                    proof {
                        assert(sm[j as int] == subs@[j as int]@);
                        assert(items.deep_view() + chapter_items_from(sm, j as int + 1, fs)
                            =~= before + chapter_items_from(sm, j as int, fs));
                    }
                    j = j + 1;
                }
                let ghost itemsm = items.deep_view();
                let ghost nv = name@;
                let mut runs: Vec<StyledRun> = Vec::new();
                runs.push(StyledRun { text: name.clone(), style: Style::new().with_font_size(fs) });
                proof {
                    assert(runs.deep_view() =~= seq![RunModel { text: nv, style: entry_style(fs) }]);
                }
                let mut stack: Vec<LayoutBlock> = Vec::new();
                stack.push(LayoutBlock::Paragraph(runs));
                stack.push(LayoutBlock::List { ordered: true, items });
                proof {
                    assert(chapter_items_from(sm, n as int, fs) =~= Seq::<BlockModel>::empty());
                    assert(itemsm =~= chapter_items_from(sm, 0, fs));
                    crate::convert::lemma_blocks_model(stack@);
                    crate::convert::lemma_blocks_model(
                        stack@[1]->List_items@,
                    );
                    assert(crate::convert::blocks_model_from(stack@[1]->List_items@, 0)
                        =~= itemsm);
                    assert(crate::convert::blocks_model_from(stack@, 0) =~~= seq![
                        BlockModel::Paragraph(seq![RunModel { text: nv, style: entry_style(fs) }]),
                        BlockModel::List { ordered: true, items: chapter_items_from(sm, 0, fs) },
                    ]);
                }
                parent.push(LayoutBlock::Stack(stack));
                proof {
                    assert(final(parent).deep_view() =~~= old(parent).deep_view().push(
                        chapter_item(self@, fs),
                    ));
                }
            },
        }
    }
}

/// `chapters_model_from(s, 0)` is the pointwise model of `s`.
pub proof fn lemma_chapters_model(s: Seq<ChapterMap>)
    ensures
        chapters_model_from(s, 0).len() == s.len(),
        forall|j: int| 0 <= j < s.len() ==> chapters_model_from(s, 0)[j] == s[j]@,
{
    lemma_chapters_model_from(s, 0);
}

proof fn lemma_chapters_model_from(s: Seq<ChapterMap>, i: int)
    requires
        0 <= i <= s.len(),
    ensures
        chapters_model_from(s, i).len() == s.len() - i,
        forall|j: int| 0 <= j < s.len() - i ==> chapters_model_from(s, i)[j] == s[i + j]@,
    decreases s.len() - i,
{
    if i < s.len() {
        lemma_chapters_model_from(s, i + 1);
        assert(chapters_model_from(s, i) == seq![s[i]@] + chapters_model_from(s, i + 1));
        assert forall|j: int| 0 <= j < s.len() - i implies chapters_model_from(s, i)[j] == s[i
            + j]@ by {
            if j > 0 {
                assert(chapters_model_from(s, i)[j] == chapters_model_from(s, i + 1)[j - 1]);
            }
        }
    } else {
        assert(chapters_model_from(s, i) =~= Seq::empty());
    }
}

} // verus!
