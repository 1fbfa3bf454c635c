//! Nested documents: `n` opener delimiters with names of their own,
//! immediately followed by the `n` matching closers in reverse order,
//! parse to a single chain of blocks — one named child per level, `n`
//! levels deep. Stated and proved over the same state machine the
//! executable parser refines, for every depth and every choice of names.

use crate::block::Node;
use crate::deserializer::attach;
use crate::deserializer::attach_top;
use crate::deserializer::close_frame;
use crate::deserializer::machine;
use crate::deserializer::spec_parse;
use crate::deserializer::FrameInfo;
use crate::tokenizer::first_match;
use crate::tokenizer::ident_end;
use crate::tokenizer::is_name_char;
use crate::tokenizer::is_name_start;
use crate::tokenizer::match_at;
use crate::tokenizer::ws_end;
use crate::tokenizer::DelimInfo;
use crate::tokenizer::TokenKind;
use vstd::prelude::*;

verus! {

/// A block name the grammar accepts: a lowercase letter followed by name
/// characters.
pub open spec fn valid_name(name: Seq<char>) -> bool {
    &&& name.len() >= 1
    &&& is_name_start(name[0])
    &&& forall|k: int| 0 <= k < name.len() ==> is_name_char(#[trigger] name[k])
}

/// The opener delimiter of `name`.
pub open spec fn op_text(name: Seq<char>) -> Seq<char> {
    seq!['<', '!', '-', '-', ' ', 'b', 'l', 'o', 'c', 'k', ':'] + name + seq![' ', '-', '-', '>']
}

/// The closer delimiter of `name`.
pub open spec fn cl_text(name: Seq<char>) -> Seq<char> {
    seq!['<', '!', '-', '-', ' ', '/', 'b', 'l', 'o', 'c', 'k', ':'] + name + seq![' ', '-', '-', '>']
}

/// The document nesting the blocks named `names[0]`, `names[1]`, ... in
/// turn: each opener, then the inner document, then the matching closer.
pub open spec fn nested_doc(names: Seq<Seq<char>>) -> Seq<char>
    decreases names.len(),
{
    if names.len() == 0 {
        seq![]
    } else {
        op_text(names.first()) + nested_doc(names.drop_first()) + cl_text(names.first())
    }
}

/// A chain of blocks named by `names`: the block of `names[0]`, carrying no
/// attributes, whose only child chains the remaining names — childless at
/// the last name.
pub open spec fn chain_shape(nd: Node, names: Seq<Seq<char>>) -> bool
    decreases names.len(),
{
    &&& nd.name == Some(names[0])
    &&& !nd.has_attrs
    &&& if names.len() <= 1 {
        nd.children.len() == 0
    } else {
        nd.children.len() == 1 && chain_shape(nd.children[0], names.drop_first())
    }
}

/// Where the `k`-th opener begins.
pub open spec fn op_off(names: Seq<Seq<char>>, k: int) -> int
    decreases k,
{
    if k <= 0 {
        0
    } else {
        op_off(names, k - 1) + op_text(names[k - 1]).len()
    }
}

/// Where the scan stands after `j` closers (after all the openers when
/// `j` is zero). The `j`-th closer, closing the block of
/// `names[names.len() - j]`, spans `[cl_off(j - 1), cl_off(j))`.
pub open spec fn cl_off(names: Seq<Seq<char>>, j: int) -> int
    decreases j,
{
    if j <= 0 {
        op_off(names, names.len() as int)
    } else {
        cl_off(names, j - 1) + cl_text(names[names.len() - j]).len()
    }
}

proof fn lemma_op_off_nonneg(names: Seq<Seq<char>>, k: int)
    ensures
        op_off(names, k) >= 0,
        k >= 1 ==> op_off(names, k - 1) <= op_off(names, k),
    decreases k,
{
    if k > 0 {
        lemma_op_off_nonneg(names, k - 1);
    }
}

proof fn lemma_cl_off_nonneg(names: Seq<Seq<char>>, j: int)
    ensures
        cl_off(names, j) >= 0,
        j >= 1 ==> cl_off(names, j - 1) <= cl_off(names, j),
    decreases j,
{
    if j <= 0 {
        lemma_op_off_nonneg(names, names.len() as int);
    } else {
        lemma_cl_off_nonneg(names, j - 1);
    }
}

/// Opener offsets, seen from inside the sandwich: dropping the outermost
/// name shifts them by the outermost opener.
proof fn lemma_op_off_shift(names: Seq<Seq<char>>, k: int)
    requires
        names.len() >= 1,
        1 <= k <= names.len(),
    ensures
        op_off(names, k) == op_text(names[0]).len() + op_off(names.drop_first(), k - 1),
    decreases k,
{
    if k == 1 {
        assert(op_off(names, 0) == 0);
        assert(op_off(names.drop_first(), 0) == 0);
    } else {
        lemma_op_off_shift(names, k - 1);
        assert(names.drop_first()[k - 2] == names[k - 1]);
        assert(op_off(names, k) == op_off(names, k - 1) + op_text(names[k - 1]).len());
        assert(op_off(names.drop_first(), k - 1) == op_off(names.drop_first(), k - 2) + op_text(
            names.drop_first()[k - 2],
        ).len());
    }
}

/// Closer offsets before the outermost closer, seen from inside the
/// sandwich.
proof fn lemma_cl_off_shift(names: Seq<Seq<char>>, j: int)
    requires
        names.len() >= 1,
        0 <= j <= names.len() - 1,
    ensures
        cl_off(names, j) == op_text(names[0]).len() + cl_off(names.drop_first(), j),
    decreases j,
{
    if j == 0 {
        lemma_op_off_shift(names, names.len() as int);
    } else {
        lemma_cl_off_shift(names, j - 1);
        assert(names.drop_first()[names.len() - 1 - j] == names[names.len() - j]);
    }
}

/// The nested document is exactly as long as its last closer offset says.
proof fn lemma_nested_len(names: Seq<Seq<char>>)
    ensures
        nested_doc(names).len() == cl_off(names, names.len() as int),
    decreases names.len(),
{
    if names.len() == 0 {
        assert(op_off(names, 0) == 0);
    } else {
        let n = names.len() as int;
        lemma_nested_len(names.drop_first());
        assert(cl_off(names, n) == cl_off(names, n - 1) + cl_text(names[0]).len());
        if names.len() == 1 {
            lemma_op_off_shift(names, 1);
            assert(cl_off(names, 0) == op_off(names, 1));
            assert(cl_off(names.drop_first(), 0) == op_off(names.drop_first(), 0));
            assert(op_off(names.drop_first(), 0) == 0);
        } else {
            lemma_cl_off_shift(names, n - 1);
        }
    }
}

proof fn lemma_concat_slice_left(x: Seq<char>, y: Seq<char>, a: int, b: int)
    requires
        0 <= a <= b <= x.len(),
    ensures
        (x + y).subrange(a, b) == x.subrange(a, b),
{
    assert((x + y).subrange(a, b) =~= x.subrange(a, b));
}

proof fn lemma_concat_slice_right(x: Seq<char>, y: Seq<char>, a: int, b: int)
    requires
        0 <= a <= b <= y.len(),
    ensures
        (x + y).subrange(x.len() + a, x.len() + b) == y.subrange(a, b),
{
    assert((x + y).subrange(x.len() + a, x.len() + b) =~= y.subrange(a, b));
}

/// The window of the document at its `k`-th opener.
#[verifier::rlimit(100)]
proof fn lemma_opener_window(names: Seq<Seq<char>>, k: int)
    requires
        0 <= k < names.len(),
    ensures
        0 <= op_off(names, k),
        op_off(names, k) + op_text(names[k]).len() <= nested_doc(names).len(),
        nested_doc(names).subrange(
            op_off(names, k),
            op_off(names, k) + op_text(names[k]).len(),
        ) == op_text(names[k]),
    decreases names.len(),
{
    let d = nested_doc(names);
    let x = op_text(names.first());
    let mid = nested_doc(names.drop_first());
    let z = cl_text(names.first());
    lemma_op_off_nonneg(names, k);
    lemma_nested_len(names);
    lemma_nested_len(names.drop_first());
    if k == 0 {
        lemma_cl_off_nonneg(names.drop_first(), names.len() - 1);
        lemma_cl_off_shift(names, 0);
        lemma_op_off_shift(names, 1);
        lemma_concat_slice_left(x + mid, z, 0, x.len() as int);
        lemma_concat_slice_left(x, mid, 0, x.len() as int);
        assert(x.subrange(0, x.len() as int) =~= x);
    } else {
        lemma_opener_window(names.drop_first(), k - 1);
        lemma_op_off_shift(names, k);
        lemma_op_off_shift(names, k + 1);
        let a = op_off(names.drop_first(), k - 1);
        let b = a + op_text(names.drop_first()[k - 1]).len();
        assert(names.drop_first()[k - 1] == names[k]);
        lemma_cl_off_nonneg(names.drop_first(), names.len() - 1);
        lemma_cl_off_shift(names, names.len() - 1);
        assert(b <= mid.len());
        lemma_concat_slice_left(x + mid, z, x.len() + a, x.len() + b);
        lemma_concat_slice_right(x, mid, a, b);
    }
}

/// The window of the document at its `j`-th closer.
#[verifier::rlimit(100)]
proof fn lemma_closer_window(names: Seq<Seq<char>>, j: int)
    requires
        1 <= j <= names.len(),
    ensures
        0 <= cl_off(names, j - 1),
        cl_off(names, j) <= nested_doc(names).len(),
        cl_off(names, j - 1) + cl_text(names[names.len() - j]).len() == cl_off(names, j),
        nested_doc(names).subrange(cl_off(names, j - 1), cl_off(names, j)) == cl_text(
            names[names.len() - j],
        ),
    decreases names.len(),
{
    let d = nested_doc(names);
    let x = op_text(names.first());
    let mid = nested_doc(names.drop_first());
    let z = cl_text(names.first());
    lemma_cl_off_nonneg(names, j - 1);
    lemma_cl_off_nonneg(names, j);
    lemma_nested_len(names);
    lemma_nested_len(names.drop_first());
    if j == names.len() {
        // the outermost closer: the document's final characters
        if j == 1 {
            lemma_op_off_shift(names, 1);
        } else {
            lemma_cl_off_shift(names, j - 1);
        }
        lemma_concat_slice_right(x + mid, z, 0, z.len() as int);
        assert(z.subrange(0, z.len() as int) =~= z);
        assert((x + mid).len() == cl_off(names, j - 1));
    } else {
        lemma_closer_window(names.drop_first(), j);
        lemma_cl_off_shift(names, j - 1);
        lemma_cl_off_shift(names, j);
        let a = cl_off(names.drop_first(), j - 1);
        let b = cl_off(names.drop_first(), j);
        assert(names.drop_first()[names.len() - 1 - j] == names[names.len() - j]);
        lemma_cl_off_nonneg(names.drop_first(), names.len() - 1);
        lemma_cl_off_shift(names, names.len() - 1);
        assert(b <= mid.len());
        lemma_concat_slice_left(x + mid, z, x.len() + a, x.len() + b);
        lemma_concat_slice_right(x, mid, a, b);
    }
}

/// A run of name characters ends exactly where they stop.
proof fn lemma_ident_end_window(doc: Seq<char>, p: int, q: int)
    requires
        0 <= p <= q <= doc.len(),
        forall|k: int| p <= k < q ==> is_name_char(#[trigger] doc[k]),
        q == doc.len() || !is_name_char(doc[q]),
    ensures
        ident_end(doc, p) == q,
    decreases q - p,
{
    if p < q {
        lemma_ident_end_window(doc, p + 1, q);
    }
}

/// What the grammar matches on an opener window, wherever it stands and
/// whatever valid name it carries.
#[verifier::rlimit(100)]
proof fn lemma_match_opener(doc: Seq<char>, p: int, name: Seq<char>)
    requires
        valid_name(name),
        0 <= p,
        p + op_text(name).len() <= doc.len(),
        doc.subrange(p, p + op_text(name).len()) == op_text(name),
    ensures
        match_at(doc, p) == Some(
            DelimInfo {
                kind: TokenKind::Opener,
                name: name,
                payload: None,
                start: p,
                end: p + op_text(name).len(),
            },
        ),
{
    let ln = name.len() as int;
    let lit = seq!['<', '!', '-', '-', ' ', 'b', 'l', 'o', 'c', 'k', ':'];
    let tail = seq![' ', '-', '-', '>'];
    assert(lit.len() == 11 && tail.len() == 4);
    assert(op_text(name) == lit + name + tail);
    assert(op_text(name).len() == 15 + ln);
    let w = doc.subrange(p, p + 15 + ln);
    assert forall|i: int| 0 <= i < 15 + ln implies doc[p + i] == op_text(name)[i] by {
        assert(w[i] == doc[p + i]);
    }
    assert forall|i: int| 0 <= i < 11 implies op_text(name)[i] == lit[i] by {
        assert((lit + name)[i] == lit[i]);
    }
    assert forall|k: int| 0 <= k < ln implies op_text(name)[11 + k] == name[k] by {
        assert((lit + name)[11 + k] == name[k]);
    }
    assert forall|m: int| 0 <= m < 4 implies op_text(name)[11 + ln + m] == tail[m] by {
        assert((lit + name).len() == 11 + ln);
    }
    assert(ws_end(doc, p + 5) == p + 5);
    assert(ws_end(doc, p + 4) == p + 5);
    assert forall|q: int| p + 11 <= q < p + 11 + ln implies is_name_char(#[trigger] doc[q]) by {
        assert(doc[q] == op_text(name)[q - p]);
        assert(op_text(name)[q - p] == name[q - p - 11]);
    }
    assert(!is_name_char(doc[p + 11 + ln]));
    lemma_ident_end_window(doc, p + 11, p + 11 + ln);
    assert(ws_end(doc, p + 12 + ln) == p + 12 + ln);
    assert(ws_end(doc, p + 11 + ln) == p + 12 + ln);
    assert(doc.subrange(p + 11, p + 11 + ln) =~= name) by {
        assert forall|k: int| 0 <= k < ln implies doc[p + 11 + k] == name[k] by {
            assert(op_text(name)[11 + k] == name[k]);
        }
    }
    assert(match_at(doc, p) == Some(
        DelimInfo {
            kind: TokenKind::Opener,
            name: name,
            payload: None,
            start: p,
            end: p + 15 + ln,
        },
    ));
}

/// What the grammar matches on a closer window, wherever it stands and
/// whatever valid name it carries.
#[verifier::rlimit(100)]
proof fn lemma_match_closer(doc: Seq<char>, p: int, name: Seq<char>)
    requires
        valid_name(name),
        0 <= p,
        p + cl_text(name).len() <= doc.len(),
        doc.subrange(p, p + cl_text(name).len()) == cl_text(name),
    ensures
        match_at(doc, p) == Some(
            DelimInfo {
                kind: TokenKind::Closer,
                name: name,
                payload: None,
                start: p,
                end: p + cl_text(name).len(),
            },
        ),
{
    let ln = name.len() as int;
    let lit = seq!['<', '!', '-', '-', ' ', '/', 'b', 'l', 'o', 'c', 'k', ':'];
    let tail = seq![' ', '-', '-', '>'];
    assert(lit.len() == 12 && tail.len() == 4);
    assert(cl_text(name) == lit + name + tail);
    assert(cl_text(name).len() == 16 + ln);
    let w = doc.subrange(p, p + 16 + ln);
    assert forall|i: int| 0 <= i < 16 + ln implies doc[p + i] == cl_text(name)[i] by {
        assert(w[i] == doc[p + i]);
    }
    assert forall|i: int| 0 <= i < 12 implies cl_text(name)[i] == lit[i] by {
        assert((lit + name)[i] == lit[i]);
    }
    assert forall|k: int| 0 <= k < ln implies cl_text(name)[12 + k] == name[k] by {
        assert((lit + name)[12 + k] == name[k]);
    }
    assert forall|m: int| 0 <= m < 4 implies cl_text(name)[12 + ln + m] == tail[m] by {
        assert((lit + name).len() == 12 + ln);
    }
    assert(ws_end(doc, p + 5) == p + 5);
    assert(ws_end(doc, p + 4) == p + 5);
    assert forall|q: int| p + 12 <= q < p + 12 + ln implies is_name_char(#[trigger] doc[q]) by {
        assert(doc[q] == cl_text(name)[q - p]);
        assert(cl_text(name)[q - p] == name[q - p - 12]);
    }
    assert(!is_name_char(doc[p + 12 + ln]));
    lemma_ident_end_window(doc, p + 12, p + 12 + ln);
    assert(ws_end(doc, p + 13 + ln) == p + 13 + ln);
    assert(ws_end(doc, p + 12 + ln) == p + 13 + ln);
    assert(doc.subrange(p + 12, p + 12 + ln) =~= name) by {
        assert forall|k: int| 0 <= k < ln implies doc[p + 12 + k] == name[k] by {
            assert(cl_text(name)[12 + k] == name[k]);
        }
    }
    assert(match_at(doc, p) == Some(
        DelimInfo {
            kind: TokenKind::Closer,
            name: name,
            payload: None,
            start: p,
            end: p + 16 + ln,
        },
    ));
}

/// The leftmost match at an opener window is that opener.
proof fn lemma_first_opener(doc: Seq<char>, p: int, name: Seq<char>)
    requires
        valid_name(name),
        0 <= p,
        p + op_text(name).len() <= doc.len(),
        doc.subrange(p, p + op_text(name).len()) == op_text(name),
    ensures
        first_match(doc, p) == Some(
            DelimInfo {
                kind: TokenKind::Opener,
                name: name,
                payload: None,
                start: p,
                end: p + op_text(name).len(),
            },
        ),
{
    lemma_match_opener(doc, p, name);
}

/// The leftmost match at a closer window is that closer.
proof fn lemma_first_closer(doc: Seq<char>, p: int, name: Seq<char>)
    requires
        valid_name(name),
        0 <= p,
        p + cl_text(name).len() <= doc.len(),
        doc.subrange(p, p + cl_text(name).len()) == cl_text(name),
    ensures
        first_match(doc, p) == Some(
            DelimInfo {
                kind: TokenKind::Closer,
                name: name,
                payload: None,
                start: p,
                end: p + cl_text(name).len(),
            },
        ),
{
    lemma_match_closer(doc, p, name);
}

/// The frame the `k`-th opener pushes.
pub open spec fn fr(names: Seq<Seq<char>>, k: int) -> FrameInfo {
    FrameInfo {
        name: names[k],
        has_attrs: false,
        children: seq![],
        segments: seq![],
        raw_start: op_off(names, k),
        prev: op_off(names, k),
    }
}

/// The pristine stack after the first `k` openers.
pub open spec fn open_stack(names: Seq<Seq<char>>, k: int) -> Seq<FrameInfo>
    decreases k,
{
    if k <= 0 {
        seq![]
    } else {
        open_stack(names, k - 1).push(fr(names, k - 1))
    }
}

proof fn lemma_open_stack_len(names: Seq<Seq<char>>, k: int)
    requires
        k >= 0,
    ensures
        open_stack(names, k).len() == k,
    decreases k,
{
    if k > 0 {
        lemma_open_stack_len(names, k - 1);
    }
}

/// The block completed by the `j`-th closer, counting from the innermost:
/// the chain of the last `j` names.
pub open spec fn chain_node(names: Seq<Seq<char>>, j: int) -> Node
    decreases j,
{
    let n = names.len() as int;
    if j <= 1 {
        close_frame(nested_doc(names), fr(names, n - 1), cl_off(names, 1))
    } else {
        close_frame(
            nested_doc(names),
            attach(
                nested_doc(names),
                fr(names, n - j),
                chain_node(names, j - 1),
                op_off(names, n - j + 1),
                cl_off(names, j - 1),
            ),
            cl_off(names, j),
        )
    }
}

/// The stack after `j` closers have been consumed, while frames remain
/// open: the pristine frames below, and on top the frame holding the
/// `j`-level chain (the pristine stack itself when no closer has run).
pub open spec fn closing_stack(names: Seq<Seq<char>>, j: int) -> Seq<FrameInfo> {
    let n = names.len() as int;
    if j <= 0 {
        open_stack(names, n)
    } else {
        open_stack(names, n - j - 1).push(
            attach(
                nested_doc(names),
                fr(names, n - j - 1),
                chain_node(names, j),
                op_off(names, n - j),
                cl_off(names, j),
            ),
        )
    }
}

/// One machine step on a closer token met with open frames: the top frame
/// closes at the token's end and lands in the parent frame, or in the
/// output when it was the only one.
proof fn lemma_machine_closer_step(
    doc: Seq<char>,
    offset: int,
    out: Seq<Node>,
    stack: Seq<FrameInfo>,
    t: DelimInfo,
)
    requires
        0 <= offset <= doc.len(),
        first_match(doc, offset) == Some(t),
        t.kind == TokenKind::Closer,
        offset < t.end <= doc.len(),
        stack.len() > 0,
    ensures
        stack.len() == 1 ==> machine(doc, offset, out, stack) == machine(
            doc,
            t.end,
            out.push(close_frame(doc, stack.last(), t.end)),
            stack.drop_last(),
        ),
        stack.len() > 1 ==> machine(doc, offset, out, stack) == machine(
            doc,
            t.end,
            out,
            attach_top(
                doc,
                stack.drop_last(),
                close_frame(doc, stack.last(), t.end),
                stack.last().raw_start,
                t.end,
            ),
        ),
{
}

/// The opening phase: after the first `k` openers the machine stands at
/// the `k`-th opener offset with `k` pristine frames and nothing emitted.
#[verifier::rlimit(100)]
proof fn lemma_open_phase(names: Seq<Seq<char>>, k: int)
    requires
        forall|m: int| 0 <= m < names.len() ==> valid_name(#[trigger] names[m]),
        0 <= k <= names.len(),
    ensures
        machine(nested_doc(names), 0, seq![], seq![]) == machine(
            nested_doc(names),
            op_off(names, k),
            seq![],
            open_stack(names, k),
        ),
    decreases k,
{
    let d = nested_doc(names);
    lemma_op_off_nonneg(names, k);
    if k > 0 {
        lemma_open_phase(names, k - 1);
        lemma_opener_window(names, k - 1);
        lemma_first_opener(d, op_off(names, k - 1), names[k - 1]);
        let t = DelimInfo {
            kind: TokenKind::Opener,
            name: names[k - 1],
            payload: None,
            start: op_off(names, k - 1),
            end: op_off(names, k),
        };
        assert(first_match(d, op_off(names, k - 1)) == Some(t));
        assert(open_stack(names, k - 1).push(fr(names, k - 1)) == open_stack(names, k));
        assert(machine(d, op_off(names, k - 1), seq![], open_stack(names, k - 1)) == machine(
            d,
            op_off(names, k),
            seq![],
            open_stack(names, k),
        ));
    }
}

/// The state algebra of the first closer, free of any tokenizer fact.
#[verifier::rlimit(100)]
proof fn lemma_first_closer_state(names: Seq<Seq<char>>)
    requires
        names.len() >= 1,
    ensures
        closing_stack(names, 0).len() == names.len(),
        closing_stack(names, 0).last() == fr(names, names.len() - 1),
        close_frame(nested_doc(names), closing_stack(names, 0).last(), cl_off(names, 1))
            == chain_node(names, 1),
        names.len() > 1 ==> attach_top(
            nested_doc(names),
            closing_stack(names, 0).drop_last(),
            chain_node(names, 1),
            op_off(names, names.len() - 1),
            cl_off(names, 1),
        ) == closing_stack(names, 1),
        names.len() == 1 ==> closing_stack(names, 0).drop_last() == Seq::<FrameInfo>::empty(),
        Seq::<Node>::empty().push(chain_node(names, 1)) == seq![chain_node(names, 1)],
{
    let d = nested_doc(names);
    let n = names.len() as int;
    lemma_open_stack_len(names, n);
    assert(open_stack(names, n) == open_stack(names, n - 1).push(fr(names, n - 1)));
    assert(open_stack(names, n).drop_last() =~= open_stack(names, n - 1));
    if n > 1 {
        lemma_open_stack_len(names, n - 1);
        lemma_open_stack_len(names, n - 2);
        assert(open_stack(names, n - 1) == open_stack(names, n - 2).push(fr(names, n - 2)));
        assert(open_stack(names, n - 1).last() == fr(names, n - 2));
        let st2 = attach_top(
            d,
            open_stack(names, n - 1),
            chain_node(names, 1),
            op_off(names, n - 1),
            cl_off(names, 1),
        );
        assert(st2 =~= closing_stack(names, 1));
    } else {
        assert(open_stack(names, 0) =~= Seq::<FrameInfo>::empty());
    }
    assert(Seq::<Node>::empty().push(chain_node(names, 1)) =~= seq![chain_node(names, 1)]);
}

/// The state algebra of a later closer, free of any tokenizer fact.
#[verifier::rlimit(100)]
proof fn lemma_later_closer_state(names: Seq<Seq<char>>, j: int)
    requires
        2 <= j <= names.len(),
    ensures
        closing_stack(names, j - 1).len() == names.len() - j + 1,
        closing_stack(names, j - 1).last().raw_start == op_off(names, names.len() - j),
        close_frame(nested_doc(names), closing_stack(names, j - 1).last(), cl_off(names, j))
            == chain_node(names, j),
        j < names.len() ==> attach_top(
            nested_doc(names),
            closing_stack(names, j - 1).drop_last(),
            chain_node(names, j),
            op_off(names, names.len() - j),
            cl_off(names, j),
        ) == closing_stack(names, j),
        j == names.len() ==> closing_stack(names, j - 1).drop_last() == Seq::<FrameInfo>::empty(),
        Seq::<Node>::empty().push(chain_node(names, j)) == seq![chain_node(names, j)],
{
    let d = nested_doc(names);
    let n = names.len() as int;
    let stack = closing_stack(names, j - 1);
    lemma_open_stack_len(names, n - j);
    let top = stack.last();
    assert(top == attach(
        d,
        fr(names, n - j),
        chain_node(names, j - 1),
        op_off(names, n - j + 1),
        cl_off(names, j - 1),
    ));
    assert(close_frame(d, top, cl_off(names, j)) == chain_node(names, j));
    assert(stack.drop_last() =~= open_stack(names, n - j));
    if j < n {
        lemma_open_stack_len(names, n - j - 1);
        assert(open_stack(names, n - j) == open_stack(names, n - j - 1).push(fr(names, n - j - 1)));
        assert(open_stack(names, n - j).last() == fr(names, n - j - 1));
        let st2 = attach_top(
            d,
            open_stack(names, n - j),
            chain_node(names, j),
            op_off(names, n - j),
            cl_off(names, j),
        );
        assert(st2 =~= closing_stack(names, j));
    } else {
        assert(open_stack(names, 0) =~= Seq::<FrameInfo>::empty());
    }
    assert(Seq::<Node>::empty().push(chain_node(names, j)) =~= seq![chain_node(names, j)]);
}

/// One closer step of the closing phase, `j` from first to last.
#[verifier::rlimit(100)]
proof fn lemma_close_step(names: Seq<Seq<char>>, j: int)
    requires
        forall|m: int| 0 <= m < names.len() ==> valid_name(#[trigger] names[m]),
        1 <= j <= names.len(),
    ensures
        j < names.len() ==> machine(
            nested_doc(names),
            cl_off(names, j - 1),
            seq![],
            closing_stack(names, j - 1),
        ) == machine(nested_doc(names), cl_off(names, j), seq![], closing_stack(names, j)),
        j == names.len() ==> machine(
            nested_doc(names),
            cl_off(names, j - 1),
            seq![],
            closing_stack(names, j - 1),
        ) == machine(
            nested_doc(names),
            cl_off(names, j),
            seq![chain_node(names, j)],
            seq![],
        ),
{
    let d = nested_doc(names);
    let n = names.len() as int;
    let pre = closing_stack(names, j - 1);
    let t = DelimInfo {
        kind: TokenKind::Closer,
        name: names[n - j],
        payload: None,
        start: cl_off(names, j - 1),
        end: cl_off(names, j),
    };
    if j == 1 {
        assert(pre.len() == n && pre.last() == fr(names, n - 1) && close_frame(
            d,
            pre.last(),
            cl_off(names, 1),
        ) == chain_node(names, 1) && (n > 1 ==> attach_top(
            d,
            pre.drop_last(),
            chain_node(names, 1),
            op_off(names, n - 1),
            cl_off(names, 1),
        ) == closing_stack(names, 1)) && (n == 1 ==> pre.drop_last() == Seq::<
            FrameInfo,
        >::empty()) && Seq::<Node>::empty().push(chain_node(names, 1)) == seq![
            chain_node(names, 1),
        ]) by {
            lemma_first_closer_state(names);
        }
        assert(pre.last().raw_start == op_off(names, n - 1));
    } else {
        assert(pre.len() == n - j + 1 && pre.last().raw_start == op_off(names, n - j)
            && close_frame(d, pre.last(), cl_off(names, j)) == chain_node(names, j) && (j < n
            ==> attach_top(
            d,
            pre.drop_last(),
            chain_node(names, j),
            op_off(names, n - j),
            cl_off(names, j),
        ) == closing_stack(names, j)) && (j == n ==> pre.drop_last() == Seq::<
            FrameInfo,
        >::empty()) && Seq::<Node>::empty().push(chain_node(names, j)) == seq![
            chain_node(names, j),
        ]) by {
            lemma_later_closer_state(names, j);
        }
    }
    assert(first_match(d, cl_off(names, j - 1)) == Some(t) && 0 <= cl_off(names, j - 1) && cl_off(
        names,
        j,
    ) <= d.len()) by {
        lemma_closer_window(names, j);
        lemma_first_closer(d, cl_off(names, j - 1), names[n - j]);
    }
    if j == n {
        assert(d.len() == cl_off(names, n)) by {
            lemma_nested_len(names);
        }
        assert(first_match(d, cl_off(names, n)) is None);
    }
    lemma_machine_closer_step(d, cl_off(names, j - 1), seq![], pre, t);
    assert(Seq::<FrameInfo>::empty() =~= seq![]);
}

/// The closing phase, chained: after `j` closers the machine stands right
/// past the `j`-th closer.
proof fn lemma_close_phase(names: Seq<Seq<char>>, j: int)
    requires
        forall|m: int| 0 <= m < names.len() ==> valid_name(#[trigger] names[m]),
        1 <= j <= names.len(),
    ensures
        j < names.len() ==> machine(
            nested_doc(names),
            cl_off(names, 0),
            seq![],
            closing_stack(names, 0),
        ) == machine(nested_doc(names), cl_off(names, j), seq![], closing_stack(names, j)),
        j == names.len() ==> machine(
            nested_doc(names),
            cl_off(names, 0),
            seq![],
            closing_stack(names, 0),
        ) == machine(
            nested_doc(names),
            cl_off(names, j),
            seq![chain_node(names, j)],
            seq![],
        ),
    decreases j,
{
    if j > 1 {
        lemma_close_phase(names, j - 1);
    }
    lemma_close_step(names, j);
}

/// The chain closed by the `j`-th closer carries the last `j` names, one
/// per level.
proof fn lemma_chain_shape(names: Seq<Seq<char>>, j: int)
    requires
        1 <= j <= names.len(),
    ensures
        chain_shape(chain_node(names, j), names.subrange(names.len() - j, names.len() as int)),
    decreases j,
{
    let n = names.len() as int;
    let suffix = names.subrange(n - j, n);
    assert(suffix[0] == names[n - j]);
    if j > 1 {
        lemma_chain_shape(names, j - 1);
        assert(chain_node(names, j).children == seq![chain_node(names, j - 1)]) by {
            assert(Seq::<Node>::empty().push(chain_node(names, j - 1)) =~= seq![
                chain_node(names, j - 1),
            ]);
        }
        assert(suffix.drop_first() =~= names.subrange(n - (j - 1), n));
    }
}

/// Nesting: a document of `n` nested levels — the openers of `names[0]`,
/// `names[1]`, ... in turn, immediately followed by their closers in
/// reverse order, with no other text — parses to exactly one top-level
/// block, with exactly one child block at every level, `n` levels deep,
/// level `i` carrying `names[i]`.
pub proof fn lemma_nesting(names: Seq<Seq<char>>)
    requires
        names.len() >= 1,
        forall|m: int| 0 <= m < names.len() ==> valid_name(#[trigger] names[m]),
    ensures
        spec_parse(nested_doc(names)).nodes == seq![chain_node(names, names.len() as int)],
        chain_shape(chain_node(names, names.len() as int), names),
{
    let d = nested_doc(names);
    let n = names.len() as int;
    lemma_open_phase(names, n);
    lemma_close_phase(names, n);
    lemma_nested_len(names);
    assert(first_match(d, cl_off(names, n)) is None);
    assert(machine(d, cl_off(names, n), seq![chain_node(names, n)], seq![]).nodes == seq![
        chain_node(names, n),
    ]);
    lemma_chain_shape(names, n);
    assert(names.subrange(0, n) =~= names);
}

} // verus!
