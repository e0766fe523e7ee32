use crate::ast;
use crate::ast2cst::lower_block;
use crate::cst::{StatementBlock, Typed};
use crate::indent::{
    indented_tokens, layout, layout_from, no_block_markers, omitted_spaces, synthetic, without_whitespace,
    IndentationError,
};
use crate::parser::{block_tree, is_marker, program_end, tokens_ordered, Parser, ParserFault};
use crate::token::{advanced, SourceLocation, SourceSpan, Token, TokenKind};
use crate::solver::{TypeError, TypeSolver};
use crate::token::start_location;
use crate::tokenizer::{lexes_to, stuck_at, tokenize, NonTokenizableSubstringError};
use vstd::prelude::*;

verus! {

/// The first failure of a stage; later stages do not run.
#[derive(Debug)]
pub enum FrontEndError {
    Lex(NonTokenizableSubstringError),
    Layout(IndentationError),
    Parse(ParserFault),
    Type(TypeError),
}

/// Lexed tokens come in source order, hold no block markers, and start at or
/// after the location lexing started from.
proof fn lemma_lexed_ordered(rest: Seq<char>, loc: SourceLocation, toks: Seq<Token>)
    requires
        lexes_to(rest, loc, toks),
        loc.index + rest.len() <= usize::MAX,
    ensures
        tokens_ordered(toks),
        no_block_markers(toks),
        forall|i: int| 0 <= i < toks.len() ==> (#[trigger] toks[i]).span.0 >= loc.index,
    decreases rest.len(),
{
    reveal(tokens_ordered);
    if rest.len() > 0 {
        let (k, n) = crate::rules::first_match(rest)->Some_0;
        let text = rest.subrange(0, n as int);
        let rest2 = rest.subrange(n as int, rest.len() as int);
        let loc2 = advanced(loc, text, n);
        let tail = toks.drop_first();
        lemma_lexed_ordered(rest2, loc2, tail);
        assert forall|i: int| 0 < i < toks.len() implies #[trigger] toks[i] == tail[i - 1] by {}
        assert forall|i: int, j: int|
            0 <= i < j < toks.len() && !is_marker(#[trigger] toks[i]) && !is_marker(#[trigger] toks[j])
                implies toks[i].span.1 <= toks[j].span.0 by {
            assert(toks[j] == tail[j - 1]);
            if i > 0 {
                assert(toks[i] == tail[i - 1]);
            }
        }
        assert forall|i: int| 0 <= i < toks.len() implies !(#[trigger] toks[i].kind is Indent)
            && !(toks[i].kind is Dedent) by {
            if i > 0 {
                assert(toks[i] == tail[i - 1]);
            }
        }
    }
}

/// Two ordered sequences whose every pair of non-marker tokens, one from each,
/// is in order make an ordered sequence.
proof fn lemma_ordered_concat(a: Seq<Token>, b: Seq<Token>)
    requires
        tokens_ordered(a),
        tokens_ordered(b),
        forall|x: int, y: int|
            0 <= x < a.len() && 0 <= y < b.len() && !is_marker(#[trigger] a[x]) && !is_marker(#[trigger] b[y])
                ==> a[x].span.1 <= b[y].span.0,
    ensures
        tokens_ordered(a + b),
{
    reveal(tokens_ordered);
    let c = a + b;
    assert forall|i: int| 0 <= i < c.len() implies (#[trigger] c[i]).span.0 <= c[i].span.1 by {
        if i < a.len() {
            assert(c[i] == a[i]);
        } else {
            assert(c[i] == b[i - a.len()]);
        }
    }
    assert forall|i: int, j: int|
        0 <= i < j < c.len() && !is_marker(#[trigger] c[i]) && !is_marker(#[trigger] c[j]) implies c[i].span.1
            <= c[j].span.0 by {
        if j < a.len() {
            assert(c[i] == a[i] && c[j] == a[j]);
        } else if i >= a.len() {
            assert(c[i] == b[i - a.len()] && c[j] == b[j - a.len()]);
        } else {
            assert(c[i] == a[i] && c[j] == b[j - a.len()]);
        }
    }
}

/// Markers copying a well-formed span are ordered among themselves.
proof fn lemma_synthetic_ordered(n: nat, kind: TokenKind, loc: SourceLocation, span: SourceSpan)
    requires
        span.0 <= span.1,
        kind is Indent || kind is Dedent,
    ensures
        tokens_ordered(synthetic(n, kind, loc, span)),
        forall|k: int| 0 <= k < n ==> is_marker(#[trigger] synthetic(n, kind, loc, span)[k]),
{
    reveal(tokens_ordered);
}

/// A token then markers: ordered, with only the token not a marker.
proof fn lemma_piece_ordered(t: Token, n: nat, kind: TokenKind, loc: SourceLocation, span: SourceSpan)
    requires
        span.0 <= span.1,
        t.span.0 <= t.span.1,
        kind is Indent || kind is Dedent,
    ensures
        tokens_ordered(seq![t] + synthetic(n, kind, loc, span)),
        forall|k: int|
            0 <= k < (seq![t] + synthetic(n, kind, loc, span)).len() && !is_marker(
                #[trigger] (seq![t] + synthetic(n, kind, loc, span))[k],
            ) ==> k == 0,
{
    reveal(tokens_ordered);
    lemma_synthetic_ordered(n, kind, loc, span);
    let p = seq![t] + synthetic(n, kind, loc, span);
    assert forall|k: int| 0 < k < p.len() implies is_marker(#[trigger] p[k]) by {
        assert(p[k] == synthetic(n, kind, loc, span)[k - 1]);
    }
}

/// Layout keeps tokens in order.
proof fn lemma_layout_ordered(t: Seq<Token>, i: int, level: nat)
    requires
        tokens_ordered(t),
        no_block_markers(t),
        layout_from(t, i, level) is Ok,
        0 <= i,
    ensures
        tokens_ordered(layout_from(t, i, level)->Ok_0),
        forall|k: int|
            0 <= k < layout_from(t, i, level)->Ok_0.len() && !is_marker(
                #[trigger] layout_from(t, i, level)->Ok_0[k],
            ) ==> i < t.len() && layout_from(t, i, level)->Ok_0[k].span.0 >= t[i].span.0,
    decreases t.len() - i,
{
    reveal(tokens_ordered);
    let r = layout_from(t, i, level)->Ok_0;
    if i >= t.len() {
        if level > 0 && t.len() > 0 {
            assert(t[t.len() - 1] == t.last());
            lemma_synthetic_ordered(level, TokenKind::Dedent, t.last().loc, t.last().span);
        } else {
            assert(r =~= Seq::<Token>::empty());
        }
    } else {
        assert(t[i].span.0 <= t[i].span.1);
        assert(!(t[i].kind is Indent) && !(t[i].kind is Dedent));
        let (next, new_level, piece) = if t[i].kind is Newline && i + 1 < t.len() && t[i + 1].kind is Whitespace {
            let ws = t[i + 1];
            let nl = (ws.kind->Whitespace_0 / 4) as nat;
            assert(ws.span.0 <= ws.span.1);
            if nl == level + 1 {
                lemma_piece_ordered(t[i], 1, TokenKind::Indent, ws.loc, ws.span);
                (i + 2, nl, seq![t[i]] + synthetic(1, TokenKind::Indent, ws.loc, ws.span))
            } else {
                lemma_piece_ordered(t[i], (level - nl) as nat, TokenKind::Dedent, ws.loc, ws.span);
                (i + 2, nl, seq![t[i]] + synthetic((level - nl) as nat, TokenKind::Dedent, ws.loc, ws.span))
            }
        } else if t[i].kind is Newline && i + 1 < t.len() {
            lemma_piece_ordered(t[i], level, TokenKind::Dedent, t[i].loc, t[i].span);
            (i + 1, 0nat, seq![t[i]] + synthetic(level, TokenKind::Dedent, t[i].loc, t[i].span))
        } else {
            lemma_piece_ordered(t[i], 0, TokenKind::Dedent, t[i].loc, t[i].span);
            assert(seq![t[i]] + synthetic(0, TokenKind::Dedent, t[i].loc, t[i].span) =~= seq![t[i]]);
            (i + 1, level, seq![t[i]])
        };
        lemma_layout_ordered(t, next, new_level);
        let rest = layout_from(t, next, new_level)->Ok_0;
        assert(r =~= piece + rest);
        assert forall|x: int, y: int|
            0 <= x < piece.len() && 0 <= y < rest.len() && !is_marker(#[trigger] piece[x]) && !is_marker(
                #[trigger] rest[y],
            ) implies piece[x].span.1 <= rest[y].span.0 by {
            assert(x == 0);
            assert(piece[0] == t[i]);
            assert(!is_marker(t[next]));
            assert(t[i].span.1 <= t[next].span.0);
        }
        lemma_ordered_concat(piece, rest);
        assert forall|k: int| 0 <= k < r.len() && !is_marker(#[trigger] r[k]) implies r[k].span.0 >= t[i].span.0 by {
            if k < piece.len() {
                assert(r[k] == piece[k]);
                assert(k == 0);
            } else {
                assert(r[k] == rest[k - piece.len()]);
                assert(!is_marker(t[next]));
                assert(t[i].span.1 <= t[next].span.0);
            }
        }
    }
}

/// Dropping whitespace keeps tokens in order, and keeps only tokens of the input.
proof fn lemma_filter_ordered(t: Seq<Token>)
    requires
        tokens_ordered(t),
    ensures
        tokens_ordered(without_whitespace(t)),
        forall|k: int|
            0 <= k < without_whitespace(t).len() ==> exists|j: int|
                0 <= j < t.len() && #[trigger] without_whitespace(t)[k] == t[j],
    decreases t.len(),
{
    reveal(tokens_ordered);
    if t.len() > 0 {
        let s = t.drop_last();
        assert forall|i: int, j: int|
            0 <= i < j < s.len() && !is_marker(#[trigger] s[i]) && !is_marker(#[trigger] s[j]) implies s[i].span.1
                <= s[j].span.0 by {
            assert(s[i] == t[i] && s[j] == t[j]);
        }
        assert forall|i: int| 0 <= i < s.len() implies (#[trigger] s[i]).span.0 <= s[i].span.1 by {
            assert(s[i] == t[i]);
        }
        lemma_filter_ordered(s);
        let f = without_whitespace(s);
        if !(t.last().kind is Whitespace) {
            let g = f.push(t.last());
            assert(t[t.len() - 1] == t.last());
            assert forall|i: int, j: int|
                0 <= i < j < g.len() && !is_marker(#[trigger] g[i]) && !is_marker(#[trigger] g[j]) implies g[i].span.1
                    <= g[j].span.0 by {
                if j == g.len() - 1 {
                    let jj = choose|jj: int| 0 <= jj < s.len() && #[trigger] f[i] == s[jj];
                    assert(g[i] == t[jj]);
                    assert(t[jj].span.1 <= t[t.len() - 1].span.0);
                } else {
                    assert(g[i] == f[i] && g[j] == f[j]);
                }
            }
            assert forall|i: int| 0 <= i < g.len() implies (#[trigger] g[i]).span.0 <= g[i].span.1 by {
                if i < f.len() {
                    let jj = choose|jj: int| 0 <= jj < s.len() && #[trigger] f[i] == s[jj];
                    assert(g[i] == t[jj]);
                }
            }
            assert forall|k: int| 0 <= k < g.len() implies exists|j: int|
                0 <= j < t.len() && #[trigger] g[k] == t[j] by {
                if k < f.len() {
                    let jj = choose|jj: int| 0 <= jj < s.len() && #[trigger] f[k] == s[jj];
                    assert(g[k] == t[jj]);
                } else {
                    assert(g[k] == t[t.len() - 1]);
                }
            }
        } else {
            assert forall|k: int| 0 <= k < f.len() implies exists|j: int|
                0 <= j < t.len() && #[trigger] f[k] == t[j] by {
                let jj = choose|jj: int| 0 <= jj < s.len() && #[trigger] f[k] == s[jj];
                assert(f[k] == t[jj]);
            }
        }
    }
}

/// The tokens the parser reads for `toks`: laid out, whitespace dropped.
pub open spec fn parser_input(toks: Seq<Token>) -> Seq<Token> {
    without_whitespace(layout(toks)->Ok_0)
}

/// Lexes, lays out and parses `source` into an untyped tree.
pub fn parse_source(source: &str) -> (r: Result<ast::StatementBlock, FrontEndError>)
    requires
        source@.len() + 2 <= u32::MAX,
    ensures
        r matches Err(FrontEndError::Lex(e)) <==> stuck_at(source@, start_location()) is Some,
        r matches Err(FrontEndError::Lex(e)) ==> stuck_at(source@, start_location()) == Some(e.loc),
        r matches Err(FrontEndError::Layout(e)) ==> exists|toks: Seq<crate::token::Token>|
            lexes_to(source@, start_location(), toks) && layout(toks) == Err::<Seq<crate::token::Token>, IndentationError>(e),
        !(r matches Err(FrontEndError::Type(_))),
        r matches Ok(b) ==> ast::block_nested(b),
        r matches Ok(b) ==> exists|toks: Seq<Token>|
            #[trigger] lexes_to(source@, start_location(), toks) && layout(toks) is Ok && program_end(
                parser_input(toks),
                0,
            ) is Some && (b.stmts@.len() > 0 ==> block_tree(parser_input(toks), 0, b)) && (b.stmts@.len()
                == 0 ==> parser_input(toks)[0].kind is End),
        r matches Err(FrontEndError::Parse(f)) ==> exists|toks: Seq<Token>|
            #[trigger] lexes_to(source@, start_location(), toks) && layout(toks) is Ok && program_end(
                parser_input(toks),
                0,
            ) is None,
{
    let tokens = match tokenize(source) {
        Ok(t) => t,
        Err(e) => {
            return Err(FrontEndError::Lex(e));
        },
    };
    proof {
        lemma_lexed_ordered(source@, start_location(), tokens@);
    }
    let ghost lexed = tokens@;
    let laid_out = match indented_tokens(tokens) {
        Ok(t) => t,
        Err(e) => {
            return Err(FrontEndError::Layout(e));
        },
    };
    proof {
        lemma_layout_ordered(lexed, 0, 0);
        lemma_filter_ordered(laid_out@);
    }
    let toks = omitted_spaces(laid_out);
    assert(toks@ == parser_input(lexed));
    let mut parser = Parser::new(toks);
    match parser.parse_program() {
        Ok(b) => Ok(b),
        Err(f) => Err(FrontEndError::Parse(f)),
    }
}

/// Runs the whole front end on `source`: the typed tree, every slot ground,
/// and the solver's final state, or the first error.
pub fn check_source(source: &str) -> (r: Result<(StatementBlock, TypeSolver), FrontEndError>)
    requires
        source@.len() + 2 <= u32::MAX,
    ensures
        r matches Err(FrontEndError::Lex(e)) <==> stuck_at(source@, start_location()) is Some,
        r matches Ok((b, s)) ==> b.complete() && s.wf() && crate::cst::block_nested(b),
        r matches Err(FrontEndError::Parse(f)) ==> exists|toks: Seq<Token>|
            #[trigger] lexes_to(source@, start_location(), toks) && layout(toks) is Ok && program_end(
                parser_input(toks),
                0,
            ) is None,
        (r is Ok || (r matches Err(FrontEndError::Type(_)))) ==> exists|toks: Seq<Token>|
            #[trigger] lexes_to(source@, start_location(), toks) && layout(toks) is Ok && program_end(
                parser_input(toks),
                0,
            ) is Some,
{
    let block = match parse_source(source) {
        Ok(b) => b,
        Err(e) => {
            return Err(e);
        },
    };
    let lowered = lower_block(block);
    match TypeSolver::infer(lowered) {
        Ok(x) => Ok(x),
        Err(e) => Err(FrontEndError::Type(e)),
    }
}

} // verus!
