//! The block tree: the single node type of the parsed document.

use vstd::prelude::*;

verus! {

broadcast use
    vstd::std_specs::vec::axiom_vec_decreases_to_view,
    vstd::seq::axiom_seq_index_decreases;

/// The discriminant of a block node.
///
/// Container variants own children; leaf variants own raw text;
/// `ThematicBreaks` and `BreakLine` carry no payload.
#[derive(Clone, Copy, PartialEq, Eq, Structural, Debug)]
pub enum BlockType {
    Document,
    ThematicBreaks,
    BreakLine,
    Paragraph,
    AtxHeading1,
    AtxHeading2,
    AtxHeading3,
    AtxHeading4,
    AtxHeading5,
    AtxHeading6,
    SetextHeadingUnderline1,
    SetextHeadingUnderline2,
    IndentedCodeBlock,
    FencedCodeBlock,
    BlockQuote,
    BulletListItem,
    OrderedListItem,
    LinkDefinition,
    ReferenceLink,
}

/// A node of the document tree.
///
/// `raw_text` is meaningful on leaf variants (and holds the reference
/// label on `LinkDefinition` and `ReferenceLink`); `children` is
/// meaningful on container variants.
pub struct Block {
    pub block_type: BlockType,
    pub raw_text: Vec<char>,
    pub children: Vec<Block>,
}

/// The mathematical model of a block node: the same tree over `Seq`.
#[verifier::ext_equal]
pub struct BlockNode {
    pub typ: BlockType,
    pub text: Seq<char>,
    pub children: Seq<BlockNode>,
}

impl Block {
    /// The model of this node.
    pub open spec fn view(self) -> BlockNode
        decreases self,
        via Self::view_decreases
    {
        BlockNode {
            typ: self.block_type,
            text: self.raw_text@,
            children: Seq::new(
                self.children@.len(),
                |i: int|
                    if 0 <= i < self.children@.len() {
                        self.children@[i].view()
                    } else {
                        BlockNode { typ: BlockType::Document, text: Seq::empty(), children: Seq::empty() }
                    },
            ),
        }
    }

    #[via_fn]
    proof fn view_decreases(self) {
        assert forall|i: int| 0 <= i < self.children@.len() implies decreases_to!(
            self => self.children@[i]) by {
            assert(decreases_to!(self => self.children));
            assert(decreases_to!(self.children => self.children@));
            assert(decreases_to!(self.children@ => self.children@[i]));
        }
    }

    /// Reads the node's raw text.
    pub fn get_text(&self) -> (r: &Vec<char>)
        ensures
            r@ == self@.text,
    {
        &self.raw_text
    }
}

/// The views of a sequence of blocks, in order.
pub open spec fn views(s: Seq<Block>) -> Seq<BlockNode> {
    Seq::new(s.len(), |i: int| s[i].view())
}

impl BlockNode {
    /// Well-formedness of a tree: list items are never childless (the
    /// renderer reads the first child of a bullet item), and the
    /// `Document` variant appears only at the root.
    pub open spec fn wf(self) -> bool
        decreases self,
    {
        &&& (self.typ == BlockType::BulletListItem ==> self.children.len() >= 1)
        &&& forall|i: int|
            0 <= i < self.children.len() ==> {
                &&& (#[trigger] self.children[i]).wf()
                &&& self.children[i].typ != BlockType::Document
            }
    }
}

/// Appending one block to a vector appends its view to the views.
pub proof fn lemma_views_push(s: Seq<Block>, b: Block)
    ensures
        views(s.push(b)) == views(s).push(b@),
{
    assert(views(s.push(b)) =~= views(s).push(b@));
}

} // verus!
