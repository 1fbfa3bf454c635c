//! The tree builder. It repeatedly asks the tokenizer for the next
//! delimiter and, driven by the delimiter's kind and a stack of open
//! frames, assembles the ordered sequence of top-level [`Block`] nodes.
//!
//! The whole run is stated as the spec-level state machine [`machine`]
//! below; the executable [`parser`] is proved to return exactly its result.
//! Policies the machine fixes (each also documented at the branch that
//! implements it):
//! - a closer token is lenient: it closes the innermost open block whatever
//!   name it carries;
//! - a closer with no open block is consumed and produces nothing; the text
//!   scanned over before it is dropped with it;
//! - when the input ends with open blocks, a zero-width closer is
//!   synthesized at the end of the document, so every open frame is closed
//!   with the content it accumulated and nothing is silently lost.

use crate::block::text_node;
use crate::block::view_block;
use crate::block::view_blocks;
use crate::block::view_strings;
use crate::block::void_node;
use crate::block::Block;
use crate::block::Node;
use crate::block::lemma_view_blocks_push;
use crate::block::lemma_view_strings_push;
use crate::chars::chars_to_string;
use crate::chars::str_to_chars;
use crate::json::is_json_object;
use crate::tokenizer::first_match;
use crate::tokenizer::lemma_first_match;
use crate::tokenizer::next_token;
use crate::tokenizer::DelimInfo;
use crate::tokenizer::TokenKind;
use vstd::prelude::*;

verus! {

/// The model of one open frame: a block whose opener has been seen but
/// whose closer has not. `raw_start` is where its opener begins; `prev` is
/// the position right after its last completed child (or `raw_start` while
/// it has none), so `[prev, ..)` is the part of the document not yet
/// attributed inside this frame.
#[verifier::ext_equal]
pub struct FrameInfo {
    pub name: Seq<char>,
    pub has_attrs: bool,
    pub children: Seq<Node>,
    pub segments: Seq<Seq<char>>,
    pub raw_start: int,
    pub prev: int,
}

/// The result of a parse run: the top-level nodes, and whether the run was
/// free of stray closers (a closer token met while no block was open).
#[verifier::ext_equal]
pub struct ParseOut {
    pub nodes: Seq<Node>,
    pub clean: bool,
}

/// Whether a delimiter carries attributes: a payload was present and it is
/// a JSON object.
pub open spec fn delim_attrs(t: DelimInfo) -> bool {
    t.payload matches Some(p) && is_json_object(p)
}

/// A frame after a completed child spanning `[cs, ce)` is attached to it:
/// the gap `[prev, cs)` becomes the next content segment, the child becomes
/// the next inner block, and `prev` moves past the child.
pub open spec fn attach(doc: Seq<char>, f: FrameInfo, child: Node, cs: int, ce: int) -> FrameInfo {
    FrameInfo {
        children: f.children.push(child),
        segments: f.segments.push(doc.subrange(f.prev, cs)),
        prev: ce,
        ..f
    }
}

/// The block a frame closes into when its closer ends at `ce`: the tail
/// `[prev, ce)` (inner text before the closer plus the closer itself, or
/// nothing more than the accumulated content when the closer is the
/// synthesized end-of-document one) becomes the final segment, and the raw
/// text is everything from the opener on.
pub open spec fn close_frame(doc: Seq<char>, f: FrameInfo, ce: int) -> Node {
    Node {
        name: Some(f.name),
        has_attrs: f.has_attrs,
        children: f.children,
        raw: doc.subrange(f.raw_start, ce),
        segments: f.segments.push(doc.subrange(f.prev, ce)),
    }
}

/// A stack with a completed child attached to its top frame.
pub open spec fn attach_top(
    doc: Seq<char>,
    stack: Seq<FrameInfo>,
    child: Node,
    cs: int,
    ce: int,
) -> Seq<FrameInfo> {
    stack.update(stack.len() - 1, attach(doc, stack.last(), child, cs, ce))
}

/// One whole parse run from the state `(offset, out, stack)`: the builder's
/// step function, iterated to the end of the input.
pub open spec fn machine(doc: Seq<char>, offset: int, out: Seq<Node>, stack: Seq<FrameInfo>) -> ParseOut
    decreases doc.len() - offset, stack.len(),
        when 0 <= offset <= doc.len()
        via machine_dec
{
    match first_match(doc, offset) {
        None => {
            if stack.len() == 0 {
                // end of input with nothing open: the tail becomes one
                // freeform node (none when it is empty)
                if offset < doc.len() {
                    ParseOut {
                        nodes: out.push(text_node(doc.subrange(offset, doc.len() as int))),
                        clean: true,
                    }
                } else {
                    ParseOut { nodes: out, clean: true }
                }
            } else {
                // end of input with open blocks: force-close the top frame
                // with a zero-width closer synthesized at end of document
                let top = stack.last();
                let rest = stack.drop_last();
                let node = close_frame(doc, top, doc.len() as int);
                if rest.len() == 0 {
                    machine(doc, doc.len() as int, out.push(node), rest)
                } else {
                    machine(
                        doc,
                        doc.len() as int,
                        out,
                        attach_top(doc, rest, node, top.raw_start, doc.len() as int),
                    )
                }
            }
        },
        Some(t) => {
            let att = delim_attrs(t);
            match t.kind {
                TokenKind::Void => {
                    let vn = void_node(t.name, att, doc.subrange(t.start, t.end));
                    if stack.len() == 0 {
                        let out1 = if offset < t.start {
                            out.push(text_node(doc.subrange(offset, t.start)))
                        } else {
                            out
                        };
                        machine(doc, t.end, out1.push(vn), stack)
                    } else {
                        let st1 = if offset < t.start {
                            attach_top(
                                doc,
                                stack,
                                text_node(doc.subrange(offset, t.start)),
                                offset,
                                t.start,
                            )
                        } else {
                            stack
                        };
                        machine(doc, t.end, out, attach_top(doc, st1, vn, t.start, t.end))
                    }
                },
                TokenKind::Opener => {
                    let nf = FrameInfo {
                        name: t.name,
                        has_attrs: att,
                        children: seq![],
                        segments: seq![],
                        raw_start: t.start,
                        prev: t.start,
                    };
                    if stack.len() == 0 {
                        let out1 = if offset < t.start {
                            out.push(text_node(doc.subrange(offset, t.start)))
                        } else {
                            out
                        };
                        machine(doc, t.end, out1, stack.push(nf))
                    } else {
                        let st1 = if offset < t.start {
                            attach_top(
                                doc,
                                stack,
                                text_node(doc.subrange(offset, t.start)),
                                offset,
                                t.start,
                            )
                        } else {
                            stack
                        };
                        machine(doc, t.end, out, st1.push(nf))
                    }
                },
                TokenKind::Closer => {
                    if stack.len() == 0 {
                        // stray closer: consumed, produces no node and, as
                        // the scan simply jumps past it, drops the text
                        // scanned over before it; the run is marked unclean
                        let r = machine(doc, t.end, out, stack);
                        ParseOut { nodes: r.nodes, clean: false }
                    } else {
                        // lenient closing: the innermost open block closes,
                        // whatever name the closer carries
                        let top = stack.last();
                        let rest = stack.drop_last();
                        let node = close_frame(doc, top, t.end);
                        if rest.len() == 0 {
                            machine(doc, t.end, out.push(node), rest)
                        } else {
                            machine(doc, t.end, out, attach_top(doc, rest, node, top.raw_start, t.end))
                        }
                    }
                },
            }
        },
    }
}

#[via_fn]
proof fn machine_dec(doc: Seq<char>, offset: int, out: Seq<Node>, stack: Seq<FrameInfo>) {
    lemma_first_match(doc, offset);
}

/// The parse of a whole document, from the initial state.
pub open spec fn spec_parse(doc: Seq<char>) -> ParseOut {
    machine(doc, 0, seq![], seq![])
}

/// An open frame as the executable builder keeps it; [`view_frame`] is its
/// abstraction to [`FrameInfo`].
pub struct Frame {
    pub name: String,
    pub attrs: Option<serde_json::Map<String, serde_json::Value>>,
    pub children: Vec<Block>,
    pub segments: Vec<String>,
    pub raw_start: usize,
    pub prev: usize,
}

pub open spec fn view_frame(f: Frame) -> FrameInfo {
    FrameInfo {
        name: f.name@,
        has_attrs: f.attrs is Some,
        children: view_blocks(f.children@),
        segments: view_strings(f.segments@),
        raw_start: f.raw_start as int,
        prev: f.prev as int,
    }
}

pub open spec fn view_frames(v: Seq<Frame>) -> Seq<FrameInfo> {
    Seq::new(v.len(), |k: int| view_frame(v[k]))
}

/// The positional facts the builder maintains about its open frames: spans
/// begin inside the document, each frame's unattributed region starts no
/// earlier than its opener, no later than the scan offset, and no earlier
/// than where its parent left off.
pub open spec fn frames_wf(stack: Seq<FrameInfo>, offset: int) -> bool {
    &&& forall|k: int|
        0 <= k < stack.len() ==> {
            &&& 0 <= (#[trigger] stack[k]).raw_start
            &&& stack[k].raw_start <= stack[k].prev
            &&& stack[k].prev <= offset
        }
    &&& forall|k: int|
        0 <= k < stack.len() - 1 ==> (#[trigger] stack[k]).prev <= stack[k + 1].raw_start
}

proof fn lemma_view_frames_push(v: Seq<Frame>, f: Frame)
    ensures
        view_frames(v.push(f)) == view_frames(v).push(view_frame(f)),
{
    assert(view_frames(v.push(f)) =~= view_frames(v).push(view_frame(f)));
}

/// A freeform block holding exactly `doc[lo..hi)`.
fn make_text_block(doc: &Vec<char>, lo: usize, hi: usize) -> (b: Block)
    requires
        lo <= hi <= doc.len(),
    ensures
        view_block(b) == text_node(doc@.subrange(lo as int, hi as int)),
{
    let s = chars_to_string(doc, lo, hi);
    Block::new(s.as_str())
}

/// A childless block produced by one self-closing delimiter spanning
/// `doc[cs..ce)`.
fn make_void_block(
    doc: &Vec<char>,
    name: String,
    attrs: Option<serde_json::Map<String, serde_json::Value>>,
    cs: usize,
    ce: usize,
) -> (b: Block)
    requires
        cs <= ce <= doc.len(),
    ensures
        view_block(b) == void_node(name@, attrs is Some, doc@.subrange(cs as int, ce as int)),
{
    let raw = chars_to_string(doc, cs, ce);
    let seg = raw.clone();
    let b = Block {
        block_name: Some(name),
        attrs,
        inner_blocks: Vec::new(),
        inner_html: raw,
        inner_content: vec![seg],
    };
    proof {
        let vn = void_node(name@, b.attrs is Some, doc@.subrange(cs as int, ce as int));
        assert(view_block(b).children =~= vn.children);
        assert(view_block(b).segments =~= vn.segments);
        assert(view_block(b) =~= vn);
    }
    b
}

/// Attaches a completed child spanning `doc[cs..ce)` to the top frame.
fn attach_child(doc: &Vec<char>, stack: &mut Vec<Frame>, child: Block, cs: usize, ce: usize)
    requires
        old(stack).len() > 0,
        view_frame(old(stack)@.last()).prev <= cs as int,
        cs <= ce <= doc.len(),
    ensures
        final(stack)@.len() == old(stack)@.len(),
        view_frames(final(stack)@) == attach_top(
            doc@,
            view_frames(old(stack)@),
            view_block(child),
            cs as int,
            ce as int,
        ),
{
    let ghost pre = stack@;
    let mut f = stack.pop().unwrap();
    let seg = chars_to_string(doc, f.prev, cs);
    f.segments.push(seg);
    f.children.push(child);
    f.prev = ce;
    proof {
        lemma_view_blocks_push(pre.last().children@, child);
        lemma_view_strings_push(
            pre.last().segments@,
            seg,
        );
    }
    stack.push(f);
    proof {
        assert(view_frame(stack@.last()) =~= attach(
            doc@,
            view_frame(pre.last()),
            view_block(child),
            cs as int,
            ce as int,
        ));
        assert(view_frames(stack@) =~= attach_top(
            doc@,
            view_frames(pre),
            view_block(child),
            cs as int,
            ce as int,
        ));
    }
}

/// Pops the top frame and closes it into a block whose closer ends at `ce`.
fn close_top(doc: &Vec<char>, stack: &mut Vec<Frame>, ce: usize) -> (b: Block)
    requires
        old(stack).len() > 0,
        view_frame(old(stack)@.last()).prev <= ce as int,
        0 <= view_frame(old(stack)@.last()).raw_start <= view_frame(old(stack)@.last()).prev,
        ce <= doc.len(),
    ensures
        final(stack)@ == old(stack)@.drop_last(),
        view_frames(final(stack)@) == view_frames(old(stack)@).drop_last(),
        view_block(b) == close_frame(doc@, view_frames(old(stack)@).last(), ce as int),
{
    let ghost pre = stack@;
    let mut f = stack.pop().unwrap();
    let seg = chars_to_string(doc, f.prev, ce);
    proof {
        lemma_view_strings_push(f.segments@, seg);
    }
    f.segments.push(seg);
    let raw = chars_to_string(doc, f.raw_start, ce);
    let b = Block {
        block_name: Some(f.name),
        attrs: f.attrs,
        inner_blocks: f.children,
        inner_html: raw,
        inner_content: f.segments,
    };
    proof {
        let want = close_frame(doc@, view_frame(pre.last()), ce as int);
        assert(view_block(b).children =~= want.children);
        assert(view_block(b).segments =~= want.segments);
        assert(view_block(b) =~= want);
        assert(view_frames(stack@) =~= view_frames(pre).drop_last());
    }
    b
}

/// Parses a document into its ordered sequence of top-level blocks.
///
/// The result is exactly what the spec-level state machine yields:
/// freeform text between delimiters becomes nameless leaf blocks, openers
/// and closers build nested named blocks, self-closing delimiters become
/// childless named blocks, a stray closer is consumed without effect, and
/// blocks still open at the end of input are closed there.
pub fn parser(document: &str) -> (output: Vec<Block>)
    ensures
        view_blocks(output@) == spec_parse(document@).nodes,
{
    let doc = str_to_chars(document);
    let mut offset: usize = 0;
    let mut output: Vec<Block> = Vec::new();
    let mut stack: Vec<Frame> = Vec::new();
    proof {
        assert(view_blocks(output@) =~= Seq::<Node>::empty());
        assert(view_frames(stack@) =~= Seq::<FrameInfo>::empty());
        assert(machine(doc@, 0, view_blocks(output@), view_frames(stack@)) == spec_parse(
            document@,
        ));
    }
    loop
        invariant
            doc@ == document@,
            offset <= doc.len(),
            frames_wf(view_frames(stack@), offset as int),
            stack@.len() == view_frames(stack@).len(),
            machine(doc@, offset as int, view_blocks(output@), view_frames(stack@)).nodes
                == spec_parse(document@).nodes,
        decreases doc.len() - offset, stack.len(),
    {
        match next_token(&doc, offset) {
            None => {
                if stack.len() == 0 {
                    if offset < doc.len() {
                        let tail = make_text_block(&doc, offset, doc.len());
                        proof {
                            lemma_view_blocks_push(output@, tail);
                        }
                        output.push(tail);
                    }
                    return output;
                } else {
                    let rs = stack[stack.len() - 1].raw_start;
                    let b = close_top(&doc, &mut stack, doc.len());
                    if stack.len() == 0 {
                        proof {
                            lemma_view_blocks_push(output@, b);
                        }
                        output.push(b);
                    } else {
                        attach_child(&doc, &mut stack, b, rs, doc.len());
                    }
                    offset = doc.len();
                }
            },
            Some(t) => {
                let t_end = t.start + t.length;
                match t.kind {
                    TokenKind::Void => {
                        let vb = make_void_block(&doc, t.name, t.attrs, t.start, t_end);
                        if stack.len() == 0 {
                            if offset < t.start {
                                let tb = make_text_block(&doc, offset, t.start);
                                proof {
                                    lemma_view_blocks_push(output@, tb);
                                }
                                output.push(tb);
                            }
                            proof {
                                lemma_view_blocks_push(output@, vb);
                            }
                            output.push(vb);
                        } else {
                            if offset < t.start {
                                let tb = make_text_block(&doc, offset, t.start);
                                attach_child(&doc, &mut stack, tb, offset, t.start);
                            }
                            attach_child(&doc, &mut stack, vb, t.start, t_end);
                        }
                        offset = t_end;
                    },
                    TokenKind::Opener => {
                        if stack.len() == 0 {
                            if offset < t.start {
                                let tb = make_text_block(&doc, offset, t.start);
                                proof {
                                    lemma_view_blocks_push(output@, tb);
                                }
                                output.push(tb);
                            }
                        } else {
                            if offset < t.start {
                                let tb = make_text_block(&doc, offset, t.start);
                                attach_child(&doc, &mut stack, tb, offset, t.start);
                            }
                        }
                        let nf = Frame {
                            name: t.name,
                            attrs: t.attrs,
                            children: Vec::new(),
                            segments: Vec::new(),
                            raw_start: t.start,
                            prev: t.start,
                        };
                        proof {
                            lemma_view_frames_push(stack@, nf);
                            assert(view_frame(nf).children =~= Seq::<Node>::empty());
                            assert(view_frame(nf).segments =~= Seq::<Seq<char>>::empty());
                        }
                        stack.push(nf);
                        offset = t_end;
                    },
                    TokenKind::Closer => {
                        if stack.len() == 0 {
                            offset = t_end;
                        } else {
                            let rs = stack[stack.len() - 1].raw_start;
                            let b = close_top(&doc, &mut stack, t_end);
                            if stack.len() == 0 {
                                proof {
                                    lemma_view_blocks_push(output@, b);
                                }
                                output.push(b);
                            } else {
                                attach_child(&doc, &mut stack, b, rs, t_end);
                            }
                            offset = t_end;
                        }
                    },
                }
            },
        }
    }
}

} // verus!
