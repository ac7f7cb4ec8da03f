//! The parser: single-pass recursive descent over raw source bytes,
//! producing a bracket-matched instruction tree.
//!
//! The grammar is stated once, as the total spec function
//! [`spec_parse`]; the executable [`parse`] is proved to return exactly
//! what the grammar says, for every input.

use vstd::prelude::*;

use crate::ast::{
    lemma_view_prog_push, view_prog, InstrView, Instruction, ParseError, ParseReason,
};

verus! {

/// Whitespace between statements carries no meaning: tab, line feed,
/// carriage return, space.
pub open spec fn is_space(b: u8) -> bool {
    b == 32 || b == 9 || b == 13 || b == 10
}

/// The first position at or after `i` holding a non-whitespace byte.
pub open spec fn spec_skip_ws(s: Seq<u8>, i: int) -> int
    decreases s.len() - i,
{
    if 0 <= i < s.len() && is_space(s[i]) {
        spec_skip_ws(s, i + 1)
    } else {
        i
    }
}

/// The position just past a comment whose text starts at `i`: past the
/// terminating line feed, or the end of the input when none follows.
pub open spec fn spec_skip_comment(s: Seq<u8>, i: int) -> int
    decreases s.len() - i,
{
    if !(0 <= i < s.len()) {
        i
    } else if s[i] == 10 {
        i + 1
    } else {
        spec_skip_comment(s, i + 1)
    }
}

/// The instruction selected by a single leading byte, for the six
/// one-character statements.
pub open spec fn simple_instr(b: u8) -> Option<InstrView> {
    if b == 43 {  // '+'
        Some(InstrView::Increment)
    } else if b == 45 {  // '-'
        Some(InstrView::Decrement)
    } else if b == 62 {  // '>'
        Some(InstrView::PointerRight)
    } else if b == 60 {  // '<'
        Some(InstrView::PointerLeft)
    } else if b == 46 {  // '.'
        Some(InstrView::Output)
    } else if b == 44 {  // ','
        Some(InstrView::Input)
    } else {
        None
    }
}

/// Prepends one parsed statement to the outcome of parsing the rest.
pub open spec fn parse_cons(
    ins: InstrView,
    rest: Result<(Seq<InstrView>, int), (int, ParseReason)>,
) -> Result<(Seq<InstrView>, int), (int, ParseReason)> {
    match rest {
        Ok((p, end)) => Ok((seq![ins] + p, end)),
        Err(e) => Err(e),
    }
}

/// A sequence already parsed, composed with the outcome of the rest.
pub open spec fn prefix_result(
    pre: Seq<InstrView>,
    rest: Result<(Seq<InstrView>, int), (int, ParseReason)>,
) -> Result<(Seq<InstrView>, int), (int, ParseReason)> {
    match rest {
        Ok((p, end)) => Ok((pre + p, end)),
        Err(e) => Err(e),
    }
}

pub proof fn lemma_prefix_cons(
    pre: Seq<InstrView>,
    ins: InstrView,
    rest: Result<(Seq<InstrView>, int), (int, ParseReason)>,
)
    ensures
        prefix_result(pre, parse_cons(ins, rest)) == prefix_result(pre.push(ins), rest),
{
    match rest {
        Ok((p, end)) => {
            assert(pre + (seq![ins] + p) =~= pre.push(ins) + p);
        },
        Err(_) => {},
    }
}

/// The grammar, as a total function: statements are parsed from position
/// `i` until end of input, a closing bracket, or an unrecognized byte —
/// the stop position is returned and the caller decides whether stopping
/// there is legitimate. A loop whose body parse does not stop at a
/// closing bracket is an error carrying the opening bracket's position;
/// errors of nested loops propagate unchanged.
pub open spec fn spec_parse_seq(s: Seq<u8>, i: int) -> Result<
    (Seq<InstrView>, int),
    (int, ParseReason),
>
    decreases s.len() - i,
{
    let j = spec_skip_ws(s, i);
    if !(i <= j < s.len()) {
        Ok((Seq::empty(), j))
    } else {
        match simple_instr(s[j]) {
            Some(ins) => parse_cons(ins, spec_parse_seq(s, j + 1)),
            None => {
                if s[j] == 91 {  // '['
                    match spec_parse_seq(s, j + 1) {
                        Ok((body, k)) => {
                            if j < k < s.len() && s[k] == 93 {  // ']'
                                parse_cons(InstrView::Loop(body), spec_parse_seq(s, k + 1))
                            } else {
                                Err((j, ParseReason::UnterminatedLoop))
                            }
                        },
                        Err(e) => Err(e),
                    }
                } else if s[j] == 47 && j + 1 < s.len() && s[j + 1] == 47 {  // "//"
                    let c = spec_skip_comment(s, j + 2);
                    if j + 1 < c <= s.len() {
                        parse_cons(InstrView::Comment, spec_parse_seq(s, c))
                    } else {
                        Ok((Seq::empty(), j))
                    }
                } else {
                    // ']' or an unrecognized byte stops the sequence here
                    Ok((Seq::empty(), j))
                }
            },
        }
    }
}

/// The whole-program grammar: every byte must belong to some statement;
/// stopping short of the end is an unexpected-character error.
pub open spec fn spec_parse(s: Seq<u8>) -> Result<Seq<InstrView>, (int, ParseReason)> {
    match spec_parse_seq(s, 0) {
        Ok((p, end)) => {
            if end == s.len() {
                Ok(p)
            } else {
                Err((end, ParseReason::UnexpectedCharacter))
            }
        },
        Err(e) => Err(e),
    }
}

/// Advances past whitespace.
fn skip_ws(src: &[u8], from: usize) -> (r: usize)
    requires
        from <= src@.len(),
    ensures
        r as int == spec_skip_ws(src@, from as int),
        from <= r <= src@.len(),
{
    let mut i = from;
    loop
        invariant
            from <= i <= src@.len(),
            spec_skip_ws(src@, from as int) == spec_skip_ws(src@, i as int),
        decreases src@.len() - i,
    {
        if i < src.len() && (src[i] == 32 || src[i] == 9 || src[i] == 13 || src[i] == 10) {
            i = i + 1;
        } else {
            return i;
        }
    }
}

/// Advances past a comment body to just after its terminating line feed,
/// or to the end of the input.
fn skip_comment(src: &[u8], from: usize) -> (r: usize)
    requires
        from <= src@.len(),
    ensures
        r as int == spec_skip_comment(src@, from as int),
        from <= r <= src@.len(),
{
    let mut i = from;
    loop
        invariant
            from <= i <= src@.len(),
            spec_skip_comment(src@, from as int) == spec_skip_comment(src@, i as int),
        decreases src@.len() - i,
    {
        if i >= src.len() {
            return i;
        }
        if src[i] == 10 {
            return i + 1;
        }
        i = i + 1;
    }
}

/// Parses statements from `from` until end of input, a closing bracket,
/// or an unrecognized byte, building the instruction tree bottom-up.
fn parse_seq(src: &[u8], from: usize) -> (r: Result<(Vec<Instruction>, usize), ParseError>)
    requires
        from <= src@.len(),
    ensures
        match spec_parse_seq(src@, from as int) {
            Ok((p, end)) => r matches Ok((v, e)) && view_prog(v@) == p && e as int == end && from
                <= e <= src@.len(),
            Err((pos, reason)) => r matches Err(pe) && pe.position as int == pos && pe.reason
                == reason,
        },
    decreases src@.len() - from,
{
    let ghost s = src@;
    let mut instrs: Vec<Instruction> = Vec::new();
    let mut i = from;
    loop
        invariant
            from <= i <= s.len(),
            s == src@,
            spec_parse_seq(s, from as int) == prefix_result(
                view_prog(instrs@),
                spec_parse_seq(s, i as int),
            ),
        decreases s.len() - i,
    {
        let ghost i0 = i as int;
        let ghost pre = view_prog(instrs@);
        let j = skip_ws(src, i);
        if j >= src.len() {
            proof {
                assert(spec_parse_seq(s, i0) == Ok::<_, (int, ParseReason)>((
                    Seq::<InstrView>::empty(),
                    j as int,
                )));
                assert(pre + Seq::<InstrView>::empty() =~= pre);
            }
            return Ok((instrs, j));
        }
        let b = src[j];
        let simple: Option<Instruction> = if b == 43 {
            Some(Instruction::Increment)
        } else if b == 45 {
            Some(Instruction::Decrement)
        } else if b == 62 {
            Some(Instruction::PointerRight)
        } else if b == 60 {
            Some(Instruction::PointerLeft)
        } else if b == 46 {
            Some(Instruction::Output)
        } else if b == 44 {
            Some(Instruction::Input)
        } else {
            None
        };
        match simple {
            Some(ins) => {
                proof {
                    assert(simple_instr(s[j as int]) == Some(ins.deep()));
                    assert(spec_parse_seq(s, i0) == parse_cons(
                        ins.deep(),
                        spec_parse_seq(s, j as int + 1),
                    ));
                    lemma_prefix_cons(pre, ins.deep(), spec_parse_seq(s, j as int + 1));
                    lemma_view_prog_push(instrs@, ins);
                }
                instrs.push(ins);
                i = j + 1;
            },
            None => {
                if b == 93 {
                    // a closing bracket stops this sequence; the caller
                    // owns the decision whether one is open
                    proof {
                        assert(spec_parse_seq(s, i0) == Ok::<_, (int, ParseReason)>((
                            Seq::<InstrView>::empty(),
                            j as int,
                        )));
                        assert(pre + Seq::<InstrView>::empty() =~= pre);
                    }
                    return Ok((instrs, j));
                } else if b == 91 {
                    match parse_seq(src, j + 1) {
                        Ok((body, k)) => {
                            if k < src.len() && src[k] == 93 {
                                let ins = Instruction::Loop(body);
                                proof {
                                    assert(spec_parse_seq(s, i0) == parse_cons(
                                        ins.deep(),
                                        spec_parse_seq(s, k as int + 1),
                                    ));
                                    lemma_prefix_cons(pre, ins.deep(), spec_parse_seq(s, k as int + 1));
                                    lemma_view_prog_push(instrs@, ins);
                                }
                                instrs.push(ins);
                                i = k + 1;
                            } else {
                                return Err(ParseError {
                                    position: j,
                                    reason: ParseReason::UnterminatedLoop,
                                });
                            }
                        },
                        Err(e) => {
                            return Err(e);
                        },
                    }
                } else if b == 47 && j + 1 < src.len() && src[j + 1] == 47 {
                    let c = skip_comment(src, j + 2);
                    proof {
                        assert(spec_parse_seq(s, i0) == parse_cons(
                            InstrView::Comment,
                            spec_parse_seq(s, c as int),
                        ));
                        lemma_prefix_cons(pre, InstrView::Comment, spec_parse_seq(s, c as int));
                        lemma_view_prog_push(instrs@, Instruction::Comment);
                    }
                    instrs.push(Instruction::Comment);
                    i = c;
                } else {
                    // an unrecognized byte stops the sequence here
                    proof {
                        assert(spec_parse_seq(s, i0) == Ok::<_, (int, ParseReason)>((
                            Seq::<InstrView>::empty(),
                            j as int,
                        )));
                        assert(pre + Seq::<InstrView>::empty() =~= pre);
                    }
                    return Ok((instrs, j));
                }
            },
        }
    }
}

/// Parses program source text into an instruction tree.
///
/// The result is exactly what the grammar says: `Ok` holds the
/// instruction tree whenever `spec_parse` accepts the input, and
/// otherwise the error carries the position and reason that the grammar
/// assigns to the failure.
pub fn parse(src: &[u8]) -> (r: Result<Vec<Instruction>, ParseError>)
    ensures
        match spec_parse(src@) {
            Ok(p) => r matches Ok(v) && view_prog(v@) == p,
            Err((pos, reason)) => r matches Err(e) && e.position as int == pos && e.reason
                == reason,
        },
{
    match parse_seq(src, 0) {
        Ok((v, end)) => {
            if end == src.len() {
                Ok(v)
            } else {
                Err(ParseError { position: end, reason: ParseReason::UnexpectedCharacter })
            }
        },
        Err(e) => Err(e),
    }
}

/// The canonical textual form of one instruction: its selecting
/// character; a loop as its bracketed body; a comment as `//` with a
/// terminating line feed.
pub open spec fn render_instr(ins: InstrView) -> Seq<u8>
    decreases ins,
{
    match ins {
        InstrView::Increment => seq![43u8],
        InstrView::Decrement => seq![45u8],
        InstrView::PointerRight => seq![62u8],
        InstrView::PointerLeft => seq![60u8],
        InstrView::Output => seq![46u8],
        InstrView::Input => seq![44u8],
        InstrView::Loop(body) => seq![91u8] + render_seq(body) + seq![93u8],
        InstrView::Comment => seq![47u8, 47u8, 10u8],
    }
}

/// The canonical textual form of an instruction sequence.
pub open spec fn render_seq(p: Seq<InstrView>) -> Seq<u8>
    decreases p,
{
    if p.len() == 0 {
        Seq::empty()
    } else {
        render_instr(p[0]) + render_seq(p.subrange(1, p.len() as int))
    }
}

/// A comment body holding no line feed is skipped to the end of the
/// input when no line feed follows it.
proof fn lemma_skip_comment_to_end(s: Seq<u8>, i: int)
    requires
        0 <= i <= s.len(),
        forall|t: int| i <= t < s.len() ==> s[t] != 10,
    ensures
        spec_skip_comment(s, i) == s.len(),
    decreases s.len() - i,
{
    if i < s.len() {
        lemma_skip_comment_to_end(s, i + 1);
    }
}

/// A comment body holding no line feed before one at position `e` is
/// skipped to just past that line feed.
proof fn lemma_skip_comment_to_newline(s: Seq<u8>, i: int, e: int)
    requires
        0 <= i <= e < s.len(),
        forall|t: int| i <= t < e ==> s[t] != 10,
        s[e] == 10,
    ensures
        spec_skip_comment(s, i) == e + 1,
    decreases s.len() - i,
{
    if i < e {
        lemma_skip_comment_to_newline(s, i + 1, e);
    }
}

/// Parsing resumes canonical text exactly: when the bytes from `i` on
/// spell `render_seq(p)` and the first byte after them — if any — is a
/// closing bracket, the statement-sequence parse at `i` yields `p` and
/// stops right after the rendered text.
proof fn lemma_parse_render_at(p: Seq<InstrView>, s: Seq<u8>, i: int)
    requires
        0 <= i,
        i + render_seq(p).len() <= s.len(),
        s.subrange(i, i + render_seq(p).len()) == render_seq(p),
        i + render_seq(p).len() == s.len() || s[i + render_seq(p).len()] == 93,
    ensures
        spec_parse_seq(s, i) == Ok::<_, (int, ParseReason)>((p, i + render_seq(p).len())),
    decreases p, 1int,
{
    let r = render_seq(p);
    let end = i + r.len();
    assert forall|t: int| 0 <= t < r.len() implies s[i + t] == r[t] by {
        assert(s.subrange(i, end)[t] == s[i + t]);
    }
    if p.len() == 0 {
        assert(p =~= Seq::<InstrView>::empty());
        assert(spec_skip_ws(s, i) == i);
    } else {
        let ins = p[0];
        let rest = p.subrange(1, p.len() as int);
        let r0 = render_instr(ins);
        let rr = render_seq(rest);
        assert(r == r0 + rr);
        match ins {
            InstrView::Increment => {
                assert(s[i + 0] == r[0] && r[0] == r0[0]);
                assert(s[i] == 43);
                assert(spec_skip_ws(s, i) == i);
                lemma_parse_render_step(p, s, i, 1);
            },
            InstrView::Decrement => {
                assert(s[i + 0] == r[0] && r[0] == r0[0]);
                assert(s[i] == 45);
                assert(spec_skip_ws(s, i) == i);
                lemma_parse_render_step(p, s, i, 1);
            },
            InstrView::PointerRight => {
                assert(s[i + 0] == r[0] && r[0] == r0[0]);
                assert(s[i] == 62);
                assert(spec_skip_ws(s, i) == i);
                lemma_parse_render_step(p, s, i, 1);
            },
            InstrView::PointerLeft => {
                assert(s[i + 0] == r[0] && r[0] == r0[0]);
                assert(s[i] == 60);
                assert(spec_skip_ws(s, i) == i);
                lemma_parse_render_step(p, s, i, 1);
            },
            InstrView::Output => {
                assert(s[i + 0] == r[0] && r[0] == r0[0]);
                assert(s[i] == 46);
                assert(spec_skip_ws(s, i) == i);
                lemma_parse_render_step(p, s, i, 1);
            },
            InstrView::Input => {
                assert(s[i + 0] == r[0] && r[0] == r0[0]);
                assert(s[i] == 44);
                assert(spec_skip_ws(s, i) == i);
                lemma_parse_render_step(p, s, i, 1);
            },
            InstrView::Comment => {
                assert(s[i + 0] == r[0] && s[i + 1] == r[1] && s[i + 2] == r[2]);
                assert(s[i] == 47 && s[i + 1] == 47 && s[i + 2] == 10);
                assert(spec_skip_ws(s, i) == i);
                lemma_skip_comment_to_newline(s, i + 2, i + 2);
                lemma_parse_render_step(p, s, i, 3);
            },
            InstrView::Loop(body) => {
                let rb = render_seq(body);
                assert(r0 == seq![91u8] + rb + seq![93u8]);
                assert(s[i + 0] == r[0] && r[0] == r0[0] && r0[0] == 91);
                assert(s[i] == 91);
                assert(spec_skip_ws(s, i) == i);
                assert forall|t: int| 0 <= t < rb.len() implies s[i + 1 + t] == rb[t] by {
                    assert(r[1 + t] == r0[1 + t]);
                    assert(r0[1 + t] == (seq![91u8] + rb)[1 + t]);
                }
                let k = i + 1 + rb.len();
                assert(s.subrange(i + 1, k) =~= rb);
                assert(s[k] == r[1 + rb.len() as int] && r0[1 + rb.len() as int] == 93);
                lemma_parse_render_at(body, s, i + 1);
                assert(spec_parse_seq(s, i + 1) == Ok::<_, (int, ParseReason)>((body, k)));
                lemma_parse_render_step(p, s, i, 2 + rb.len() as int);
            },
        }
    }
}

/// One statement of canonical text consumed: after `p[0]`'s rendering
/// (`n0` bytes) the rest parses by induction, and prepending `p[0]`
/// rebuilds `p`.
proof fn lemma_parse_render_step(p: Seq<InstrView>, s: Seq<u8>, i: int, n0: int)
    requires
        0 <= i,
        p.len() > 0,
        n0 == render_instr(p[0]).len(),
        i + render_seq(p).len() <= s.len(),
        s.subrange(i, i + render_seq(p).len()) == render_seq(p),
        i + render_seq(p).len() == s.len() || s[i + render_seq(p).len()] == 93,
        spec_parse_seq(s, i) == parse_cons(p[0], spec_parse_seq(s, i + n0)),
    ensures
        spec_parse_seq(s, i) == Ok::<_, (int, ParseReason)>((p, i + render_seq(p).len())),
    decreases p, 0int,
{
    let r = render_seq(p);
    let end = i + r.len();
    let rest = p.subrange(1, p.len() as int);
    let r0 = render_instr(p[0]);
    let rr = render_seq(rest);
    assert(r == r0 + rr);
    assert forall|t: int| 0 <= t < rr.len() implies s[i + n0 + t] == rr[t] by {
        assert(s.subrange(i, end)[n0 + t] == s[i + n0 + t]);
        assert(r[n0 + t] == rr[t]);
    }
    assert(s.subrange(i + n0, i + n0 + rr.len()) =~= rr);
    lemma_parse_render_at(rest, s, i + n0);
    assert(spec_parse_seq(s, i + n0) == Ok::<_, (int, ParseReason)>((rest, end)));
    assert(seq![p[0]] + rest =~= p);
}

/// Parsing the canonical textual form of a tree yields that very tree:
/// parse after render is the identity, so parsing an equivalent textual
/// form of a parse result changes nothing (structural equality holds).
pub proof fn lemma_render_parse_round_trip(p: Seq<InstrView>)
    ensures
        spec_parse(render_seq(p)) == Ok::<_, (int, ParseReason)>(p),
{
    let r = render_seq(p);
    assert(r.subrange(0, r.len() as int) =~= r);
    lemma_parse_render_at(p, r, 0);
}

/// A comment that is the last thing in the source, with no trailing line
/// feed, still parses: end of input terminates it.
pub proof fn lemma_comment_terminated_by_end(content: Seq<u8>)
    requires
        forall|t: int| 0 <= t < content.len() ==> content[t] != 10,
    ensures
        spec_parse(seq![47u8, 47u8] + content) == Ok::<_, (int, ParseReason)>(
            seq![InstrView::Comment],
        ),
{
    let s = seq![47u8, 47u8] + content;
    assert(s[0] == 47 && s[1] == 47);
    assert(spec_skip_ws(s, 0) == 0);
    assert(forall|t: int| 2 <= t < s.len() ==> s[t] == content[t - 2] && s[t] != 10);
    lemma_skip_comment_to_end(s, 2);
    assert(spec_skip_ws(s, s.len() as int) == s.len());
    assert(spec_parse_seq(s, s.len() as int) == Ok::<_, (int, ParseReason)>((
        Seq::<InstrView>::empty(),
        s.len() as int,
    )));
    assert(seq![InstrView::Comment] + Seq::<InstrView>::empty() =~= seq![InstrView::Comment]);
}

/// A comment terminated by a line feed parses, and the line feed is
/// consumed with it.
pub proof fn lemma_comment_terminated_by_newline(content: Seq<u8>)
    requires
        forall|t: int| 0 <= t < content.len() ==> content[t] != 10,
    ensures
        spec_parse(seq![47u8, 47u8] + content + seq![10u8]) == Ok::<_, (int, ParseReason)>(
            seq![InstrView::Comment],
        ),
{
    let s = seq![47u8, 47u8] + content + seq![10u8];
    assert(s[0] == 47 && s[1] == 47);
    assert(spec_skip_ws(s, 0) == 0);
    assert(forall|t: int| 2 <= t < s.len() - 1 ==> s[t] == content[t - 2] && s[t] != 10);
    assert(s[s.len() - 1] == 10);
    lemma_skip_comment_to_newline(s, 2, s.len() - 1);
    assert(spec_skip_ws(s, s.len() as int) == s.len());
    assert(spec_parse_seq(s, s.len() as int) == Ok::<_, (int, ParseReason)>((
        Seq::<InstrView>::empty(),
        s.len() as int,
    )));
    assert(seq![InstrView::Comment] + Seq::<InstrView>::empty() =~= seq![InstrView::Comment]);
}

} // verus!
