//! The output tree. A [`Block`] is either a named structural element with
//! attributes, children and the exact document text it spans, or a nameless
//! freeform leaf holding a run of plain text.
//!
//! In specifications a `Block` is abstracted to a [`Node`], which replaces
//! each `String` with its character sequence and the opaque attribute map
//! with its presence; [`view_block`] is that abstraction.

use vstd::prelude::*;

verus! {

/// A node of the parsed tree.
///
/// For a freeform node `block_name` and `attrs` are `None` and
/// `inner_blocks` is empty. `inner_html` is the exact substring of the
/// document the node spans, delimiter comments included. `inner_content`
/// splits `inner_html` at the child-block boundaries: it holds one segment
/// more than there are children, and interleaving the segments with the
/// children's own `inner_html` reproduces `inner_html`; for a node with no
/// children it is the single segment `inner_html` itself.
pub struct Block {
    pub block_name: Option<String>,
    pub attrs: Option<serde_json::Map<String, serde_json::Value>>,
    pub inner_blocks: Vec<Block>,
    pub inner_html: String,
    pub inner_content: Vec<String>,
}

/// The mathematical shape of a [`Block`]: the same tree over character
/// sequences, with the attribute map abstracted to its presence.
#[verifier::ext_equal]
pub struct Node {
    pub name: Option<Seq<char>>,
    pub has_attrs: bool,
    pub children: Seq<Node>,
    pub raw: Seq<char>,
    pub segments: Seq<Seq<char>>,
}

/// The model of a freeform node holding the text `raw`.
pub open spec fn text_node(raw: Seq<char>) -> Node {
    Node { name: None, has_attrs: false, children: seq![], raw, segments: seq![raw] }
}

/// The model of a childless block produced by a self-closing delimiter.
pub open spec fn void_node(name: Seq<char>, has_attrs: bool, raw: Seq<char>) -> Node {
    Node { name: Some(name), has_attrs, children: seq![], raw, segments: seq![raw] }
}

/// The abstraction of an executable [`Block`] to its model.
pub open spec fn view_block(b: Block) -> Node
    decreases b,
{
    Node {
        name: match b.block_name {
            Some(n) => Some(n@),
            None => None,
        },
        has_attrs: b.attrs is Some,
        children: Seq::new(
            b.inner_blocks@.len(),
            |k: int|
                if 0 <= k < b.inner_blocks@.len() {
                    view_block(b.inner_blocks@[k])
                } else {
                    text_node(seq![])
                },
        ),
        raw: b.inner_html@,
        segments: Seq::new(b.inner_content@.len(), |k: int| b.inner_content@[k]@),
    }
}

/// The abstraction of a sequence of blocks, elementwise.
pub open spec fn view_blocks(v: Seq<Block>) -> Seq<Node> {
    Seq::new(v.len(), |k: int| view_block(v[k]))
}

/// The views of a vector of strings, elementwise.
pub open spec fn view_strings(v: Seq<String>) -> Seq<Seq<char>> {
    Seq::new(v.len(), |k: int| v[k]@)
}

pub proof fn lemma_view_blocks_push(v: Seq<Block>, b: Block)
    ensures
        view_blocks(v.push(b)) == view_blocks(v).push(view_block(b)),
{
    assert(view_blocks(v.push(b)) =~= view_blocks(v).push(view_block(b)));
}

pub proof fn lemma_view_strings_push(v: Seq<String>, s: String)
    ensures
        view_strings(v.push(s)) == view_strings(v).push(s@),
{
    assert(view_strings(v.push(s)) =~= view_strings(v).push(s@));
}

impl Block {
    /// A freeform leaf holding exactly `content`.
    pub fn new(content: &str) -> (r: Block)
        ensures
            view_block(r) == text_node(content@),
    {
        let html = content.to_owned();
        let seg = html.clone();
        let r = Block {
            block_name: None,
            attrs: None,
            inner_blocks: Vec::new(),
            inner_html: html,
            inner_content: vec![seg],
        };
        proof {
            assert(view_block(r).children =~= text_node(content@).children);
            assert(view_block(r).segments =~= text_node(content@).segments);
            assert(view_block(r) =~= text_node(content@));
        }
        r
    }
}

} // verus!
