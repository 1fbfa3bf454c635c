//! The tokenizer: finds and classifies the next block delimiter in a
//! document.
//!
//! A delimiter is an HTML-style comment of the shape
//! `<!-- /block:namespace/name {json} / -->` where the closing sign `/`, the
//! `namespace/` segment, the brace-balanced attribute payload (balanced
//! ignoring braces inside JSON string values, see [`payload_end`]) and the
//! self-closing sign `/` are each optional, with optional whitespace between
//! the components. The grammar is stated by the spec functions below
//! ([`match_at`], [`first_match`]); the executable scanner is proved to
//! return exactly the leftmost match at or after the given offset.

use crate::chars::chars_to_string;
use crate::json::is_json_object;
use crate::json::parse_json_object;
use vstd::prelude::*;

verus! {

/// True for the whitespace characters the delimiter grammar accepts between
/// its components.
pub open spec fn is_ws(c: char) -> bool {
    c == ' ' || c == '\t' || c == '\n' || c == '\r' || c == '\x0b' || c == '\x0c'
}

/// True for the characters that may start a block name or namespace.
pub open spec fn is_name_start(c: char) -> bool {
    'a' as u32 <= c as u32 && c as u32 <= 'z' as u32
}

/// True for the characters that may continue a block name or namespace.
pub open spec fn is_name_char(c: char) -> bool {
    ||| is_name_start(c)
    ||| '0' as u32 <= c as u32 && c as u32 <= '9' as u32
    ||| c == '_'
    ||| c == '-'
}

/// First position at or after `i` holding a non-whitespace character (or the
/// end of the document).
pub open spec fn ws_end(doc: Seq<char>, i: int) -> int
    decreases doc.len() - i,
{
    if 0 <= i && i < doc.len() && is_ws(doc[i]) {
        ws_end(doc, i + 1)
    } else {
        i
    }
}

/// First position at or after `i` holding a character that cannot continue a
/// name (or the end of the document).
pub open spec fn ident_end(doc: Seq<char>, i: int) -> int
    decreases doc.len() - i,
{
    if 0 <= i && i < doc.len() && is_name_char(doc[i]) {
        ident_end(doc, i + 1)
    } else {
        i
    }
}

/// Position one past the brace that brings the nesting depth `depth` back
/// to zero, scanning from `i`; `None` when the braces never balance.
/// Braces inside JSON string values do not count: a double quote opens a
/// string (`in_str`), a backslash inside one escapes the next character
/// (`esc`), and only an unescaped quote closes it, so a literal `}` or `{`
/// within a string value is passed over.
pub open spec fn payload_end(doc: Seq<char>, i: int, depth: int, in_str: bool, esc: bool) -> Option<
    int,
>
    decreases doc.len() - i,
{
    if !(0 <= i && i < doc.len()) {
        None
    } else if in_str {
        if esc {
            payload_end(doc, i + 1, depth, true, false)
        } else if doc[i] == '\\' {
            payload_end(doc, i + 1, depth, true, true)
        } else if doc[i] == '"' {
            payload_end(doc, i + 1, depth, false, false)
        } else {
            payload_end(doc, i + 1, depth, true, false)
        }
    } else if doc[i] == '"' {
        payload_end(doc, i + 1, depth, true, false)
    } else if doc[i] == '{' {
        payload_end(doc, i + 1, depth + 1, false, false)
    } else if doc[i] == '}' {
        if depth == 1 {
            Some(i + 1)
        } else {
            payload_end(doc, i + 1, depth - 1, false, false)
        }
    } else {
        payload_end(doc, i + 1, depth, false, false)
    }
}

/// How a matched delimiter relates to the tree being built.
#[derive(Clone, Copy, PartialEq, Eq, Structural, Debug)]
pub enum TokenKind {
    /// Opens a block that later delimiters may close.
    Opener,
    /// Closes the innermost open block.
    Closer,
    /// A whole childless block in one delimiter.
    Void,
}

/// The mathematical description of one matched delimiter: its kind, the
/// resolved name (namespace, slash and name when a namespace is present),
/// the raw attribute payload, and the half-open span `[start, end)` it
/// occupies in the document.
pub struct DelimInfo {
    pub kind: TokenKind,
    pub name: Seq<char>,
    pub payload: Option<Seq<char>>,
    pub start: int,
    pub end: int,
}

/// The delimiter the grammar matches starting exactly at position `i`, if
/// any.
pub open spec fn match_at(doc: Seq<char>, i: int) -> Option<DelimInfo> {
    if !(0 <= i && i + 4 <= doc.len() && doc[i] == '<' && doc[i + 1] == '!' && doc[i + 2] == '-'
        && doc[i + 3] == '-') {
        None
    } else {
        let p1 = ws_end(doc, i + 4);
        let closer = p1 < doc.len() && doc[p1] == '/';
        let p2 = if closer {
            p1 + 1
        } else {
            p1
        };
        if !(p2 + 6 <= doc.len() && doc[p2] == 'b' && doc[p2 + 1] == 'l' && doc[p2 + 2] == 'o'
            && doc[p2 + 3] == 'c' && doc[p2 + 4] == 'k' && doc[p2 + 5] == ':') {
            None
        } else if !(p2 + 6 < doc.len() && is_name_start(doc[p2 + 6])) {
            None
        } else {
            let name_lo = p2 + 6;
            let e1 = ident_end(doc, name_lo);
            let name_hi = if e1 + 1 < doc.len() && doc[e1] == '/' && is_name_start(doc[e1 + 1]) {
                ident_end(doc, e1 + 1)
            } else {
                e1
            };
            let p4 = ws_end(doc, name_hi);
            if p4 < doc.len() && doc[p4] == '{' {
                match payload_end(doc, p4, 0, false, false) {
                    None => None,
                    Some(pe) => match_tail(doc, i, name_lo, name_hi, closer, Some(doc.subrange(p4, pe)), pe),
                }
            } else {
                match_tail(doc, i, name_lo, name_hi, closer, None, p4)
            }
        }
    }
}

/// The part of the grammar after the attribute payload: an optional
/// self-closing sign, optional whitespace and the comment close marker.
pub open spec fn match_tail(
    doc: Seq<char>,
    i: int,
    name_lo: int,
    name_hi: int,
    closer: bool,
    payload: Option<Seq<char>>,
    p5: int,
) -> Option<DelimInfo> {
    let p6 = ws_end(doc, p5);
    let void_sign = p6 < doc.len() && doc[p6] == '/';
    let p7 = if void_sign {
        p6 + 1
    } else {
        p6
    };
    let p8 = ws_end(doc, p7);
    if p8 + 3 <= doc.len() && doc[p8] == '-' && doc[p8 + 1] == '-' && doc[p8 + 2] == '>' {
        Some(
            DelimInfo {
                kind: if void_sign {
                    TokenKind::Void
                } else if closer {
                    TokenKind::Closer
                } else {
                    TokenKind::Opener
                },
                name: doc.subrange(name_lo, name_hi),
                payload,
                start: i,
                end: p8 + 3,
            },
        )
    } else {
        None
    }
}

/// The leftmost delimiter match at or after `from`, if any.
pub open spec fn first_match(doc: Seq<char>, from: int) -> Option<DelimInfo>
    decreases doc.len() - from,
{
    if from >= doc.len() {
        None
    } else if match_at(doc, from) is Some {
        match_at(doc, from)
    } else {
        first_match(doc, from + 1)
    }
}

pub proof fn lemma_ws_end(doc: Seq<char>, i: int)
    ensures
        i <= ws_end(doc, i),
        i <= doc.len() ==> ws_end(doc, i) <= doc.len(),
    decreases doc.len() - i,
{
    if 0 <= i && i < doc.len() && is_ws(doc[i]) {
        lemma_ws_end(doc, i + 1);
    }
}

pub proof fn lemma_ident_end(doc: Seq<char>, i: int)
    ensures
        i <= ident_end(doc, i),
        i <= doc.len() ==> ident_end(doc, i) <= doc.len(),
    decreases doc.len() - i,
{
    if 0 <= i && i < doc.len() && is_name_char(doc[i]) {
        lemma_ident_end(doc, i + 1);
    }
}

pub proof fn lemma_payload_end(doc: Seq<char>, i: int, depth: int, in_str: bool, esc: bool)
    ensures
        payload_end(doc, i, depth, in_str, esc) matches Some(e) ==> i < e <= doc.len(),
    decreases doc.len() - i,
{
    if 0 <= i && i < doc.len() {
        lemma_payload_end(doc, i + 1, depth + 1, false, false);
        lemma_payload_end(doc, i + 1, depth - 1, false, false);
        lemma_payload_end(doc, i + 1, depth, false, false);
        lemma_payload_end(doc, i + 1, depth, true, false);
        lemma_payload_end(doc, i + 1, depth, true, true);
    }
}

/// A match found at `i` starts at `i`, ends after it, and stays inside the
/// document.
pub proof fn lemma_match_at(doc: Seq<char>, i: int)
    ensures
        match_at(doc, i) matches Some(t) ==> {
            &&& t.start == i
            &&& i < t.end <= doc.len()
        },
{
    if match_at(doc, i) is Some {
        let p1 = ws_end(doc, i + 4);
        lemma_ws_end(doc, i + 4);
        let closer = p1 < doc.len() && doc[p1] == '/';
        let p2 = if closer {
            p1 + 1
        } else {
            p1
        };
        let name_lo = p2 + 6;
        lemma_ident_end(doc, name_lo);
        let e1 = ident_end(doc, name_lo);
        lemma_ident_end(doc, e1 + 1);
        let name_hi = if e1 + 1 < doc.len() && doc[e1] == '/' && is_name_start(doc[e1 + 1]) {
            ident_end(doc, e1 + 1)
        } else {
            e1
        };
        lemma_ws_end(doc, name_hi);
        let p4 = ws_end(doc, name_hi);
        lemma_payload_end(doc, p4, 0, false, false);
        let p5 = if p4 < doc.len() && doc[p4] == '{' {
            payload_end(doc, p4, 0, false, false)->0
        } else {
            p4
        };
        lemma_ws_end(doc, p5);
        let p6 = ws_end(doc, p5);
        let p7 = if p6 < doc.len() && doc[p6] == '/' {
            p6 + 1
        } else {
            p6
        };
        lemma_ws_end(doc, p7);
    }
}

/// When no position in `[from, upto)` matches, scanning from `from` and from
/// `upto` find the same leftmost delimiter.
pub proof fn lemma_first_match_skip(doc: Seq<char>, from: int, upto: int)
    requires
        from <= upto,
        forall|j: int| from <= j < upto ==> match_at(doc, j) is None,
    ensures
        first_match(doc, from) == first_match(doc, upto),
    decreases upto - from,
{
    if from < upto {
        if from >= doc.len() {
            lemma_first_match_none_past_end(doc, upto);
        } else {
            assert(match_at(doc, from) is None);
            lemma_first_match_skip(doc, from + 1, upto);
        }
    }
}

pub proof fn lemma_first_match_none_past_end(doc: Seq<char>, from: int)
    requires
        from >= doc.len(),
    ensures
        first_match(doc, from) is None,
{
}

/// What a `first_match` result means: it is a real match, nothing matches
/// before it, and it advances past `from`.
pub proof fn lemma_first_match(doc: Seq<char>, from: int)
    ensures
        first_match(doc, from) matches Some(t) ==> {
            &&& from <= t.start
            &&& match_at(doc, t.start) == Some(t)
            &&& t.start < t.end <= doc.len()
            &&& forall|j: int| from <= j < t.start ==> match_at(doc, j) is None
        },
        first_match(doc, from) is None ==> forall|j: int| from <= j ==> match_at(doc, j) is None,
    decreases doc.len() - from,
{
    if from >= doc.len() {
        assert forall|j: int| from <= j implies match_at(doc, j) is None by {
            lemma_match_at(doc, j);
        }
    } else if match_at(doc, from) is Some {
        lemma_match_at(doc, from);
    } else {
        lemma_first_match(doc, from + 1);
    }
}

/// A delimiter as the tree builder consumes it: like [`DelimInfo`], with the
/// name as a `String`, the attribute payload already parsed, and the span
/// given as start and length.
pub struct Token {
    pub kind: TokenKind,
    pub name: String,
    pub attrs: Option<serde_json::Map<String, serde_json::Value>>,
    pub start: usize,
    pub length: usize,
}

/// How an executable token corresponds to the delimiter the grammar
/// describes: same kind, name and span, with attributes present exactly when
/// a payload was present and is a JSON object.
pub open spec fn token_corresponds(t: Token, ti: DelimInfo) -> bool {
    &&& t.kind == ti.kind
    &&& t.name@ == ti.name
    &&& (t.attrs is Some <==> (ti.payload matches Some(p) && is_json_object(p)))
    &&& t.start == ti.start
    &&& t.start + t.length == ti.end
}

fn ws_char(c: char) -> (r: bool)
    ensures
        r == is_ws(c),
{
    c == ' ' || c == '\t' || c == '\n' || c == '\r' || c == '\x0b' || c == '\x0c'
}

fn name_start_char(c: char) -> (r: bool)
    ensures
        r == is_name_start(c),
{
    let u = c as u32;
    'a' as u32 <= u && u <= 'z' as u32
}

fn name_char(c: char) -> (r: bool)
    ensures
        r == is_name_char(c),
{
    let u = c as u32;
    name_start_char(c) || ('0' as u32 <= u && u <= '9' as u32) || c == '_' || c == '-'
}

fn scan_ws(doc: &Vec<char>, from: usize) -> (r: usize)
    requires
        from <= doc.len(),
    ensures
        r == ws_end(doc@, from as int),
        from <= r <= doc.len(),
{
    let mut j = from;
    while j < doc.len() && ws_char(doc[j])
        invariant
            from <= j <= doc.len(),
            ws_end(doc@, from as int) == ws_end(doc@, j as int),
        decreases doc.len() - j,
    {
        j = j + 1;
    }
    j
}

fn scan_ident(doc: &Vec<char>, from: usize) -> (r: usize)
    requires
        from <= doc.len(),
    ensures
        r == ident_end(doc@, from as int),
        from <= r <= doc.len(),
{
    let mut j = from;
    while j < doc.len() && name_char(doc[j])
        invariant
            from <= j <= doc.len(),
            ident_end(doc@, from as int) == ident_end(doc@, j as int),
        decreases doc.len() - j,
    {
        j = j + 1;
    }
    j
}

fn scan_payload(doc: &Vec<char>, start: usize) -> (r: Option<usize>)
    requires
        start < doc.len(),
        doc@[start as int] == '{',
    ensures
        match r {
            Some(e) => payload_end(doc@, start as int, 0, false, false) == Some(e as int) && start
                < e <= doc.len(),
            None => payload_end(doc@, start as int, 0, false, false) is None,
        },
{
    let mut j = start;
    let mut depth: usize = 0;
    let mut in_str: bool = false;
    let mut esc: bool = false;
    loop
        invariant
            start <= j <= doc.len(),
            depth <= j,
            j == start ==> depth == 0 && !in_str && !esc,
            j > start ==> depth >= 1,
            esc ==> in_str,
            doc@[start as int] == '{',
            start < doc.len(),
            payload_end(doc@, start as int, 0, false, false) == payload_end(
                doc@,
                j as int,
                depth as int,
                in_str,
                esc,
            ),
        decreases doc.len() - j,
    {
        if j >= doc.len() {
            return None;
        }
        let c = doc[j];
        if in_str {
            if esc {
                esc = false;
            } else if c == '\\' {
                esc = true;
            } else if c == '"' {
                in_str = false;
            }
        } else if c == '"' {
            in_str = true;
        } else if c == '{' {
            depth = depth + 1;
        } else if c == '}' {
            if depth == 1 {
                return Some(j + 1);
            }
            depth = depth - 1;
        }
        j = j + 1;
    }
}

fn finish_token(
    doc: &Vec<char>,
    i: usize,
    name_lo: usize,
    name_hi: usize,
    closer: bool,
    attrs: Option<serde_json::Map<String, serde_json::Value>>,
    payload: Ghost<Option<Seq<char>>>,
    p5: usize,
) -> (r: Option<Token>)
    requires
        i <= p5,
        name_lo <= name_hi <= doc.len(),
        p5 <= doc.len(),
        attrs is Some <==> (payload@ matches Some(p) && is_json_object(p)),
    ensures
        match r {
            None => match_tail(
                doc@,
                i as int,
                name_lo as int,
                name_hi as int,
                closer,
                payload@,
                p5 as int,
            ) is None,
            Some(t) => {
                &&& match_tail(
                    doc@,
                    i as int,
                    name_lo as int,
                    name_hi as int,
                    closer,
                    payload@,
                    p5 as int,
                ) matches Some(ti) && token_corresponds(t, ti)
                &&& t.start == i
                &&& 1 <= t.length
                &&& i + t.length <= doc.len()
            },
        },
{
    let len = doc.len();
    let p6 = scan_ws(doc, p5);
    let void_sign = p6 < len && doc[p6] == '/';
    let p7 = if void_sign {
        p6 + 1
    } else {
        p6
    };
    let p8 = scan_ws(doc, p7);
    if len - p8 >= 3 && doc[p8] == '-' && doc[p8 + 1] == '-' && doc[p8 + 2] == '>' {
        let kind = if void_sign {
            TokenKind::Void
        } else if closer {
            TokenKind::Closer
        } else {
            TokenKind::Opener
        };
        let name = chars_to_string(doc, name_lo, name_hi);
        Some(Token { kind, name, attrs, start: i, length: p8 + 3 - i })
    } else {
        None
    }
}

fn try_match(doc: &Vec<char>, i: usize) -> (r: Option<Token>)
    requires
        i <= doc.len(),
    ensures
        match r {
            None => match_at(doc@, i as int) is None,
            Some(t) => {
                &&& match_at(doc@, i as int) matches Some(ti) && token_corresponds(t, ti)
                &&& t.start == i
                &&& 1 <= t.length
                &&& i + t.length <= doc.len()
            },
        },
{
    let len = doc.len();
    if len < 4 || i > len - 4 {
        return None;
    }
    if !(doc[i] == '<' && doc[i + 1] == '!' && doc[i + 2] == '-' && doc[i + 3] == '-') {
        return None;
    }
    let p1 = scan_ws(doc, i + 4);
    let closer = p1 < len && doc[p1] == '/';
    let p2 = if closer {
        p1 + 1
    } else {
        p1
    };
    if len - p2 < 6 {
        return None;
    }
    if !(doc[p2] == 'b' && doc[p2 + 1] == 'l' && doc[p2 + 2] == 'o' && doc[p2 + 3] == 'c'
        && doc[p2 + 4] == 'k' && doc[p2 + 5] == ':') {
        return None;
    }
    let name_lo = p2 + 6;
    if name_lo >= len || !name_start_char(doc[name_lo]) {
        return None;
    }
    let e1 = scan_ident(doc, name_lo);
    let ns = e1 < len && doc[e1] == '/' && e1 + 1 < len && name_start_char(doc[e1 + 1]);
    let name_hi = if ns {
        scan_ident(doc, e1 + 1)
    } else {
        e1
    };
    let p4 = scan_ws(doc, name_hi);
    if p4 < len && doc[p4] == '{' {
        match scan_payload(doc, p4) {
            None => None,
            Some(pe) => {
                let payload = chars_to_string(doc, p4, pe);
                let attrs = parse_json_object(payload.as_str());
                finish_token(
                    doc,
                    i,
                    name_lo,
                    name_hi,
                    closer,
                    attrs,
                    Ghost(Some(doc@.subrange(p4 as int, pe as int))),
                    pe,
                )
            },
        }
    } else {
        finish_token(doc, i, name_lo, name_hi, closer, None, Ghost(None::<Seq<char>>), p4)
    }
}

/// Finds the leftmost block delimiter at or after `offset` and classifies
/// it; `None` when no delimiter occurs in the rest of the document.
pub fn next_token(doc: &Vec<char>, offset: usize) -> (r: Option<Token>)
    requires
        offset <= doc.len(),
    ensures
        match r {
            None => first_match(doc@, offset as int) is None,
            Some(t) => {
                &&& first_match(doc@, offset as int) matches Some(ti) && token_corresponds(t, ti)
                &&& offset <= t.start
                &&& 1 <= t.length
                &&& t.start + t.length <= doc.len()
            },
        },
{
    let mut i = offset;
    while i < doc.len()
        invariant
            offset <= i <= doc.len(),
            forall|j: int| offset <= j < i ==> match_at(doc@, j) is None,
        decreases doc.len() - i,
    {
        if doc[i] == '<' {
            match try_match(doc, i) {
                Some(t) => {
                    proof {
                        lemma_first_match_skip(doc@, offset as int, i as int);
                    }
                    return Some(t);
                },
                None => {},
            }
        }
        i = i + 1;
    }
    proof {
        lemma_first_match_skip(doc@, offset as int, doc.len() as int);
    }
    None
}

} // verus!
