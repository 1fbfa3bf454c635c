//! What the parsed tree guarantees: every node's content segments and
//! children interleave back into exactly the node's own raw text, and a
//! whole parse free of stray closers re-emits the original document.

use crate::block::text_node;
use crate::block::Node;
use crate::deserializer::attach;
use crate::deserializer::close_frame;
use crate::deserializer::machine;
use crate::deserializer::spec_parse;
use crate::deserializer::FrameInfo;
use crate::tokenizer::first_match;
use crate::tokenizer::DelimInfo;
use crate::tokenizer::lemma_first_match;
use crate::tokenizer::match_at;
use crate::tokenizer::TokenKind;
use vstd::prelude::*;

verus! {

/// The text woven from `segs[i..]` interleaved with the raw text of
/// `kids[i..]`: `segs[i] + kids[i].raw + segs[i+1] + ...`, each list used
/// until it runs out.
pub open spec fn weave(segs: Seq<Seq<char>>, kids: Seq<Node>, i: int) -> Seq<char>
    decreases segs.len() - i,
{
    if i < 0 || i >= segs.len() {
        seq![]
    } else if i < kids.len() {
        segs[i] + kids[i].raw + weave(segs, kids, i + 1)
    } else {
        segs[i] + weave(segs, kids, i + 1)
    }
}

/// The text a node re-emits: its segments interleaved with its children's
/// raw text.
pub open spec fn emit_node(n: Node) -> Seq<char> {
    weave(n.segments, n.children, 0)
}

/// The text a sequence of nodes re-emits, in order.
pub open spec fn emit_all(ns: Seq<Node>) -> Seq<char>
    decreases ns.len(),
{
    if ns.len() == 0 {
        seq![]
    } else {
        emit_all(ns.drop_last()) + emit_node(ns.last())
    }
}

/// Well-formedness of a node: one segment more than there are children,
/// weaving them together reproduces the node's raw text exactly, a
/// freeform node is a bare leaf whose single segment is its text, and the
/// same holds below.
pub open spec fn node_wf(n: Node) -> bool
    decreases n,
{
    &&& n.segments.len() == n.children.len() + 1
    &&& weave(n.segments, n.children, 0) == n.raw
    &&& (n.name is None ==> n.children.len() == 0 && !n.has_attrs && n.segments == seq![n.raw])
    &&& forall|k: int| 0 <= k < n.children.len() ==> node_wf(#[trigger] n.children[k])
}

pub open spec fn nodes_wf(ns: Seq<Node>) -> bool {
    forall|k: int| 0 <= k < ns.len() ==> node_wf(#[trigger] ns[k])
}

/// What holds of every open frame while the machine runs: as many segments
/// as children, all children well-formed, and the woven content equal to
/// the document from the frame's opener up to `prev`.
pub open spec fn frame_inv(doc: Seq<char>, f: FrameInfo) -> bool {
    &&& f.segments.len() == f.children.len()
    &&& nodes_wf(f.children)
    &&& 0 <= f.raw_start <= f.prev <= doc.len()
    &&& weave(f.segments, f.children, 0) == doc.subrange(f.raw_start, f.prev)
}

pub open spec fn frames_inv(doc: Seq<char>, stack: Seq<FrameInfo>) -> bool {
    forall|k: int| 0 <= k < stack.len() ==> frame_inv(doc, #[trigger] stack[k])
}

/// Where the text already re-emitted by `out` ends: at the bottom frame's
/// opener while anything is open, else at the scan offset.
pub open spec fn base_of(stack: Seq<FrameInfo>, offset: int) -> int {
    if stack.len() == 0 {
        offset
    } else {
        stack[0].raw_start
    }
}

proof fn lemma_leaf_wf(raw: Seq<char>)
    ensures
        node_wf(text_node(raw)),
        emit_node(text_node(raw)) == raw,
{
    let n = text_node(raw);
    assert(weave(n.segments, n.children, 1) =~= seq![]);
    assert(weave(n.segments, n.children, 0) =~= raw);
}

proof fn lemma_void_wf(name: Seq<char>, has_attrs: bool, raw: Seq<char>)
    ensures
        node_wf(crate::block::void_node(name, has_attrs, raw)),
        emit_node(crate::block::void_node(name, has_attrs, raw)) == raw,
{
    let n = crate::block::void_node(name, has_attrs, raw);
    assert(weave(n.segments, n.children, 1) =~= seq![]);
    assert(weave(n.segments, n.children, 0) =~= raw);
}

/// Appending a node appends its emitted text.
proof fn lemma_emit_all_push(ns: Seq<Node>, n: Node)
    ensures
        emit_all(ns.push(n)) == emit_all(ns) + emit_node(n),
{
    assert(ns.push(n).drop_last() =~= ns);
    assert(ns.push(n).last() == n);
}

/// Appending one more segment to a balanced frame appends its text to the
/// woven content.
proof fn lemma_weave_push_seg(segs: Seq<Seq<char>>, kids: Seq<Node>, s: Seq<char>, i: int)
    requires
        segs.len() == kids.len(),
        0 <= i <= segs.len(),
    ensures
        weave(segs.push(s), kids, i) == weave(segs, kids, i) + s,
    decreases segs.len() - i,
{
    if i == segs.len() {
        assert(weave(segs.push(s), kids, i + 1) =~= seq![]);
        assert(weave(segs.push(s), kids, i) =~= weave(segs, kids, i) + s);
    } else {
        lemma_weave_push_seg(segs, kids, s, i + 1);
        assert(segs.push(s)[i] == segs[i]);
        assert(weave(segs.push(s), kids, i) =~= weave(segs, kids, i) + s);
    }
}

/// Appending a segment and a child to a balanced frame appends the segment
/// and the child's raw text to the woven content.
proof fn lemma_weave_push_pair(segs: Seq<Seq<char>>, kids: Seq<Node>, s: Seq<char>, n: Node, i: int)
    requires
        segs.len() == kids.len(),
        0 <= i <= segs.len(),
    ensures
        weave(segs.push(s), kids.push(n), i) == weave(segs, kids, i) + s + n.raw,
    decreases segs.len() - i,
{
    if i == segs.len() {
        assert(weave(segs.push(s), kids.push(n), i + 1) =~= seq![]);
        assert(weave(segs.push(s), kids.push(n), i) =~= weave(segs, kids, i) + s + n.raw);
    } else {
        lemma_weave_push_pair(segs, kids, s, n, i + 1);
        assert(segs.push(s)[i] == segs[i]);
        assert(kids.push(n)[i] == kids[i]);
        assert(weave(segs.push(s), kids.push(n), i) =~= weave(segs, kids, i) + s + n.raw);
    }
}

/// Attaching a completed child whose raw text is `doc[cs..ce)` keeps the
/// frame invariant and moves the woven span to `ce`.
proof fn lemma_attach_inv(doc: Seq<char>, f: FrameInfo, child: Node, cs: int, ce: int)
    requires
        frame_inv(doc, f),
        node_wf(child),
        child.raw == doc.subrange(cs, ce),
        f.prev <= cs <= ce <= doc.len(),
    ensures
        frame_inv(doc, attach(doc, f, child, cs, ce)),
        attach(doc, f, child, cs, ce).prev == ce,
        attach(doc, f, child, cs, ce).raw_start == f.raw_start,
{
    let g = attach(doc, f, child, cs, ce);
    lemma_weave_push_pair(f.segments, f.children, doc.subrange(f.prev, cs), child, 0);
    assert(doc.subrange(f.raw_start, f.prev) + doc.subrange(f.prev, cs) + doc.subrange(cs, ce)
        =~= doc.subrange(f.raw_start, ce));
    assert(nodes_wf(g.children)) by {
        assert(forall|k: int|
            0 <= k < f.children.len() ==> g.children[k] == #[trigger] f.children[k]);
        assert(g.children.last() == child);
    }
}

/// Closing a frame at `ce` yields a well-formed node whose raw text is the
/// document from its opener to `ce`.
proof fn lemma_close_inv(doc: Seq<char>, f: FrameInfo, ce: int)
    requires
        frame_inv(doc, f),
        f.prev <= ce <= doc.len(),
    ensures
        node_wf(close_frame(doc, f, ce)),
        close_frame(doc, f, ce).raw == doc.subrange(f.raw_start, ce),
{
    lemma_weave_push_seg(f.segments, f.children, doc.subrange(f.prev, ce), 0);
    assert(doc.subrange(f.raw_start, f.prev) + doc.subrange(f.prev, ce) =~= doc.subrange(
        f.raw_start,
        ce,
    ));
}

proof fn lemma_step_void(
    doc: Seq<char>,
    offset: int,
    out: Seq<Node>,
    stack: Seq<FrameInfo>,
    exact: bool,
    t: DelimInfo,
)
    requires
        0 <= offset <= doc.len(),
        crate::deserializer::frames_wf(stack, offset),
        frames_inv(doc, stack),
        nodes_wf(out),
        exact ==> emit_all(out) == doc.subrange(0, base_of(stack, offset)),
        first_match(doc, offset) == Some(t),
        offset <= t.start,
        t.start < t.end <= doc.len(),
        t.kind == TokenKind::Void,
    ensures
        nodes_wf(machine(doc, offset, out, stack).nodes),
        exact && machine(doc, offset, out, stack).clean ==> emit_all(
            machine(doc, offset, out, stack).nodes,
        ) == doc,
    decreases doc.len() - offset, stack.len(), 0int,
{
    let att = crate::deserializer::delim_attrs(t);
    let ts = t.start;
    let te = t.end;
    let vn = crate::block::void_node(t.name, att, doc.subrange(ts, te));
    lemma_void_wf(t.name, att, doc.subrange(ts, te));
    if stack.len() == 0 {
        let out1 = if offset < ts {
            out.push(text_node(doc.subrange(offset, ts)))
        } else {
            out
        };
        if offset < ts {
            lemma_leaf_wf(doc.subrange(offset, ts));
            lemma_emit_all_push(out, text_node(doc.subrange(offset, ts)));
            assert(doc.subrange(0, offset) + doc.subrange(offset, ts)
                =~= doc.subrange(0, ts));
            assert(nodes_wf(out1)) by {
                assert(forall|k: int|
                    0 <= k < out.len() ==> out1[k] == #[trigger] out[k]);
            }
        }
        let out2 = out1.push(vn);
        lemma_emit_all_push(out1, vn);
        assert(doc.subrange(0, ts) + doc.subrange(ts, te) =~= doc.subrange(0, te));
        assert(nodes_wf(out2)) by {
            assert(forall|k: int|
                0 <= k < out1.len() ==> out2[k] == #[trigger] out1[k]);
        }
        lemma_machine_emits(doc, te, out2, stack, exact);
    } else {
        let st1 = if offset < ts {
            crate::deserializer::attach_top(
                doc,
                stack,
                text_node(doc.subrange(offset, ts)),
                offset,
                ts,
            )
        } else {
            stack
        };
        if offset < ts {
            lemma_leaf_wf(doc.subrange(offset, ts));
            lemma_attach_inv(
                doc,
                stack.last(),
                text_node(doc.subrange(offset, ts)),
                offset,
                ts,
            );
            assert(frames_inv(doc, st1)) by {
                assert(forall|k: int|
                    0 <= k < st1.len() - 1 ==> st1[k] == #[trigger] stack[k]);
            }
        }
        assert(st1.len() == stack.len());
        assert(st1.last().prev <= ts);
        let st2 = crate::deserializer::attach_top(doc, st1, vn, ts, te);
        lemma_attach_inv(doc, st1.last(), vn, ts, te);
        assert(frames_inv(doc, st2)) by {
            assert(forall|k: int|
                0 <= k < st2.len() - 1 ==> st2[k] == #[trigger] st1[k]);
        }
        assert(crate::deserializer::frames_wf(st2, te)) by {
            assert(forall|k: int|
                0 <= k < st2.len() - 1 ==> st2[k] == #[trigger] st1[k]);
        }
        assert(base_of(st2, te) == base_of(stack, offset));
        lemma_machine_emits(doc, te, out, st2, exact);
    }
}

proof fn lemma_step_opener(
    doc: Seq<char>,
    offset: int,
    out: Seq<Node>,
    stack: Seq<FrameInfo>,
    exact: bool,
    t: DelimInfo,
)
    requires
        0 <= offset <= doc.len(),
        crate::deserializer::frames_wf(stack, offset),
        frames_inv(doc, stack),
        nodes_wf(out),
        exact ==> emit_all(out) == doc.subrange(0, base_of(stack, offset)),
        first_match(doc, offset) == Some(t),
        offset <= t.start,
        t.start < t.end <= doc.len(),
        t.kind == TokenKind::Opener,
    ensures
        nodes_wf(machine(doc, offset, out, stack).nodes),
        exact && machine(doc, offset, out, stack).clean ==> emit_all(
            machine(doc, offset, out, stack).nodes,
        ) == doc,
    decreases doc.len() - offset, stack.len(), 0int,
{
    let att = crate::deserializer::delim_attrs(t);
    let ts = t.start;
    let te = t.end;
    let nf = FrameInfo {
        name: t.name,
        has_attrs: att,
        children: seq![],
        segments: seq![],
        raw_start: ts,
        prev: ts,
    };
    assert(frame_inv(doc, nf)) by {
        assert(weave(nf.segments, nf.children, 0) =~= doc.subrange(ts, ts));
    }
    if stack.len() == 0 {
        let out1 = if offset < ts {
            out.push(text_node(doc.subrange(offset, ts)))
        } else {
            out
        };
        if offset < ts {
            lemma_leaf_wf(doc.subrange(offset, ts));
            lemma_emit_all_push(out, text_node(doc.subrange(offset, ts)));
            assert(doc.subrange(0, offset) + doc.subrange(offset, ts)
                =~= doc.subrange(0, ts));
            assert(nodes_wf(out1)) by {
                assert(forall|k: int|
                    0 <= k < out.len() ==> out1[k] == #[trigger] out[k]);
            }
        }
        let st1 = stack.push(nf);
        assert(frames_inv(doc, st1)) by {
            assert(st1[0] == nf);
        }
        assert(base_of(st1, te) == ts);
        lemma_machine_emits(doc, te, out1, st1, exact);
    } else {
        let st1 = if offset < ts {
            crate::deserializer::attach_top(
                doc,
                stack,
                text_node(doc.subrange(offset, ts)),
                offset,
                ts,
            )
        } else {
            stack
        };
        if offset < ts {
            lemma_leaf_wf(doc.subrange(offset, ts));
            lemma_attach_inv(
                doc,
                stack.last(),
                text_node(doc.subrange(offset, ts)),
                offset,
                ts,
            );
            assert(frames_inv(doc, st1)) by {
                assert(forall|k: int|
                    0 <= k < st1.len() - 1 ==> st1[k] == #[trigger] stack[k]);
            }
        }
        let st2 = st1.push(nf);
        assert(frames_inv(doc, st2)) by {
            assert(forall|k: int|
                0 <= k < st2.len() - 1 ==> st2[k] == #[trigger] st1[k]);
        }
        assert(crate::deserializer::frames_wf(st2, te)) by {
            assert(forall|k: int|
                0 <= k < st2.len() - 1 ==> st2[k] == #[trigger] st1[k]);
        }
        assert(base_of(st2, te) == base_of(stack, offset));
        lemma_machine_emits(doc, te, out, st2, exact);
    }
}

proof fn lemma_step_closer(
    doc: Seq<char>,
    offset: int,
    out: Seq<Node>,
    stack: Seq<FrameInfo>,
    exact: bool,
    t: DelimInfo,
)
    requires
        0 <= offset <= doc.len(),
        crate::deserializer::frames_wf(stack, offset),
        frames_inv(doc, stack),
        nodes_wf(out),
        exact ==> emit_all(out) == doc.subrange(0, base_of(stack, offset)),
        first_match(doc, offset) == Some(t),
        offset <= t.start,
        t.start < t.end <= doc.len(),
        t.kind == TokenKind::Closer,
    ensures
        nodes_wf(machine(doc, offset, out, stack).nodes),
        exact && machine(doc, offset, out, stack).clean ==> emit_all(
            machine(doc, offset, out, stack).nodes,
        ) == doc,
    decreases doc.len() - offset, stack.len(), 0int,
{
    let att = crate::deserializer::delim_attrs(t);
    let ts = t.start;
    let te = t.end;
    if stack.len() == 0 {
        lemma_machine_emits(doc, te, out, stack, false);
    } else {
        let top = stack.last();
        let rest = stack.drop_last();
        let node = close_frame(doc, top, te);
        lemma_close_inv(doc, top, te);
        if rest.len() == 0 {
            let out1 = out.push(node);
            lemma_emit_all_push(out, node);
            assert(doc.subrange(0, top.raw_start) + doc.subrange(top.raw_start, te)
                =~= doc.subrange(0, te));
            assert(nodes_wf(out1)) by {
                assert(forall|k: int|
                    0 <= k < out.len() ==> out1[k] == #[trigger] out[k]);
            }
            lemma_machine_emits(doc, te, out1, rest, exact);
        } else {
            let parent = rest.last();
            assert(parent == stack[stack.len() - 2]);
            assert(parent.prev <= top.raw_start);
            let st2 = crate::deserializer::attach_top(
                doc,
                rest,
                node,
                top.raw_start,
                te,
            );
            lemma_attach_inv(doc, parent, node, top.raw_start, te);
            assert(frames_inv(doc, st2)) by {
                assert(forall|k: int|
                    0 <= k < st2.len() - 1 ==> st2[k] == #[trigger] rest[k]);
            }
            assert(crate::deserializer::frames_wf(st2, te)) by {
                assert(forall|k: int|
                    0 <= k < st2.len() - 1 ==> st2[k] == #[trigger] rest[k]);
            }
            assert(base_of(st2, te) == base_of(stack, offset));
            lemma_machine_emits(doc, te, out, st2, exact);
        }
    }
}

/// The end-of-input step: flush the tail when nothing is open, else
/// force-close the top frame at the end of the document.
#[verifier::rlimit(100)]
proof fn lemma_step_eof(
    doc: Seq<char>,
    offset: int,
    out: Seq<Node>,
    stack: Seq<FrameInfo>,
    exact: bool,
)
    requires
        0 <= offset <= doc.len(),
        crate::deserializer::frames_wf(stack, offset),
        frames_inv(doc, stack),
        nodes_wf(out),
        exact ==> emit_all(out) == doc.subrange(0, base_of(stack, offset)),
        first_match(doc, offset) is None,
    ensures
        nodes_wf(machine(doc, offset, out, stack).nodes),
        exact && machine(doc, offset, out, stack).clean ==> emit_all(
            machine(doc, offset, out, stack).nodes,
        ) == doc,
    decreases doc.len() - offset, stack.len(), 0int,
{
    let r = machine(doc, offset, out, stack);
    if stack.len() == 0 {
        if offset < doc.len() {
            lemma_leaf_wf(doc.subrange(offset, doc.len() as int));
            lemma_emit_all_push(out, text_node(doc.subrange(offset, doc.len() as int)));
            assert(doc.subrange(0, offset) + doc.subrange(offset, doc.len() as int)
                =~= doc);
            assert(nodes_wf(r.nodes)) by {
                assert(forall|k: int|
                    0 <= k < out.len() ==> r.nodes[k] == #[trigger] out[k]);
            }
        } else {
            assert(doc.subrange(0, offset) =~= doc);
        }
    } else {
        let top = stack.last();
        let rest = stack.drop_last();
        let node = close_frame(doc, top, doc.len() as int);
        lemma_close_inv(doc, top, doc.len() as int);
        if rest.len() == 0 {
            lemma_emit_all_push(out, node);
            assert(emit_node(node) == node.raw);
            assert(doc.subrange(0, top.raw_start) + doc.subrange(
                top.raw_start,
                doc.len() as int,
            ) =~= doc.subrange(0, doc.len() as int));
            assert(nodes_wf(out.push(node))) by {
                assert(forall|k: int|
                    0 <= k < out.len() ==> out.push(node)[k] == #[trigger] out[k]);
            }
            if exact {
                assert(emit_all(out.push(node)) == doc.subrange(
                    0,
                    base_of(rest, doc.len() as int),
                )) by {
                    assert(doc.subrange(0, doc.len() as int) =~= doc);
                }
            }
            lemma_machine_emits(doc, doc.len() as int, out.push(node), rest, exact);
        } else {
            let parent = rest.last();
            let st2 = crate::deserializer::attach_top(
                doc,
                rest,
                node,
                top.raw_start,
                doc.len() as int,
            );
            assert(parent == stack[stack.len() - 2]);
            assert(parent.prev <= top.raw_start);
            lemma_attach_inv(doc, parent, node, top.raw_start, doc.len() as int);
            assert(frames_inv(doc, st2)) by {
                assert(forall|k: int|
                    0 <= k < st2.len() - 1 ==> st2[k] == #[trigger] rest[k]);
            }
            assert(crate::deserializer::frames_wf(st2, doc.len() as int)) by {
                assert(forall|k: int|
                    0 <= k < st2.len() - 1 ==> st2[k] == #[trigger] rest[k]);
            }
            assert(base_of(st2, doc.len() as int) == base_of(stack, offset));
            lemma_machine_emits(doc, doc.len() as int, out, st2, exact);
        }
    }
}

/// The inductive heart of the round trip: from any state whose output and
/// frames account exactly for the document up to the scan position, the
/// machine yields well-formed nodes, and, when the run is `exact` and meets
/// no stray closer, nodes that re-emit the document entire.
proof fn lemma_machine_emits(
    doc: Seq<char>,
    offset: int,
    out: Seq<Node>,
    stack: Seq<FrameInfo>,
    exact: bool,
)
    requires
        0 <= offset <= doc.len(),
        crate::deserializer::frames_wf(stack, offset),
        frames_inv(doc, stack),
        nodes_wf(out),
        exact ==> emit_all(out) == doc.subrange(0, base_of(stack, offset)),
    ensures
        nodes_wf(machine(doc, offset, out, stack).nodes),
        exact && machine(doc, offset, out, stack).clean ==> emit_all(
            machine(doc, offset, out, stack).nodes,
        ) == doc,
    decreases doc.len() - offset, stack.len(), 1int,
{
    lemma_first_match(doc, offset);
    match first_match(doc, offset) {
        None => lemma_step_eof(doc, offset, out, stack, exact),
        Some(t) => {
            match t.kind {
                TokenKind::Void => lemma_step_void(doc, offset, out, stack, exact, t),
                TokenKind::Opener => lemma_step_opener(doc, offset, out, stack, exact, t),
                TokenKind::Closer => lemma_step_closer(doc, offset, out, stack, exact, t),
            }
        },
    }
}

/// The text of a node's raw content that precedes its child `k`: the
/// earlier segments and children woven together, up to and including
/// segment `k`.
pub open spec fn lead(segs: Seq<Seq<char>>, kids: Seq<Node>, k: int) -> Seq<char>
    decreases k + 1,
{
    if k <= 0 {
        if segs.len() > 0 {
            segs[0]
        } else {
            seq![]
        }
    } else {
        lead(segs, kids, k - 1) + kids[k - 1].raw + segs[k]
    }
}

proof fn lemma_weave_decompose(segs: Seq<Seq<char>>, kids: Seq<Node>, k: int)
    requires
        segs.len() == kids.len() + 1,
        0 <= k < kids.len(),
    ensures
        weave(segs, kids, 0) == lead(segs, kids, k) + kids[k].raw + weave(segs, kids, k + 1),
    decreases k,
{
    if k == 0 {
        assert(weave(segs, kids, 0) =~= lead(segs, kids, 0) + kids[0].raw + weave(segs, kids, 1));
    } else {
        lemma_weave_decompose(segs, kids, k - 1);
        assert(weave(segs, kids, k) == segs[k] + kids[k].raw + weave(segs, kids, k + 1));
        assert(lead(segs, kids, k - 1) + kids[k - 1].raw + (segs[k] + kids[k].raw + weave(
            segs,
            kids,
            k + 1,
        )) =~= lead(segs, kids, k) + kids[k].raw + weave(segs, kids, k + 1));
    }
}

/// Sibling order: within a well-formed node the children occur in its raw
/// text in their list order. Child `k` occupies the contiguous slice that
/// begins right after `lead(..., k)`, the woven text of the earlier
/// segments and children, so each next child starts strictly further
/// right.
pub proof fn lemma_sibling_order(n: Node, k: int)
    requires
        node_wf(n),
        0 <= k < n.children.len(),
    ensures
        n.raw == lead(n.segments, n.children, k) + n.children[k].raw + weave(
            n.segments,
            n.children,
            k + 1,
        ),
        n.raw.subrange(
            lead(n.segments, n.children, k).len() as int,
            lead(n.segments, n.children, k).len() + n.children[k].raw.len() as int,
        ) == n.children[k].raw,
        k > 0 ==> lead(n.segments, n.children, k).len() >= lead(n.segments, n.children, k - 1).len()
            + n.children[k - 1].raw.len(),
{
    lemma_weave_decompose(n.segments, n.children, k);
    let pre = lead(n.segments, n.children, k);
    let c = n.children[k].raw;
    assert(n.raw.subrange(pre.len() as int, pre.len() + c.len() as int) =~= c);
}

/// Every parse yields a well-formed tree: each node carries one content
/// segment more than it has children, and weaving segments and children
/// together reproduces exactly that node's raw text, at every depth.
pub proof fn lemma_parse_wf(doc: Seq<char>)
    ensures
        nodes_wf(spec_parse(doc).nodes),
{
    assert(emit_all(Seq::<Node>::empty()) == doc.subrange(0, 0)) by {
        assert(doc.subrange(0, 0) =~= Seq::<char>::empty());
    }
    lemma_machine_emits(doc, 0, seq![], seq![], true);
}

/// The round trip: when a parse meets no stray closer, re-emitting its
/// top-level nodes in order — each node woven back from its segments and
/// children — reproduces the document exactly.
pub proof fn lemma_round_trip(doc: Seq<char>)
    requires
        spec_parse(doc).clean,
    ensures
        emit_all(spec_parse(doc).nodes) == doc,
{
    assert(emit_all(Seq::<Node>::empty()) == doc.subrange(0, 0)) by {
        assert(doc.subrange(0, 0) =~= Seq::<char>::empty());
    }
    lemma_machine_emits(doc, 0, seq![], seq![], true);
}

/// A document with no delimiter match anywhere parses to a single freeform
/// node holding the document, or to nothing when the document is empty.
pub proof fn lemma_no_delimiters(doc: Seq<char>)
    requires
        forall|i: int| 0 <= i < doc.len() ==> match_at(doc, i) is None,
    ensures
        doc.len() == 0 ==> spec_parse(doc).nodes == Seq::<Node>::empty(),
        doc.len() > 0 ==> spec_parse(doc).nodes == seq![text_node(doc)],
{
    lemma_first_match(doc, 0);
    if first_match(doc, 0) is Some {
        let t = first_match(doc, 0)->0;
        assert(match_at(doc, t.start) is None);
        assert(false);
    }
    if doc.len() > 0 {
        assert(doc.subrange(0, doc.len() as int) =~= doc);
        assert(spec_parse(doc).nodes =~= seq![text_node(doc)]);
    }
}

} // verus!
