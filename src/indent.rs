use crate::token::{SourceLocation, SourceSpan, Token, TokenKind};
use vstd::prelude::*;

verus! {

/// A line is indented more than one level deeper than the line before it.
#[derive(Clone, Copy, Debug)]
pub struct IndentationError {
    /// Where the leading whitespace of the offending line starts.
    pub loc: SourceLocation,
    pub span: SourceSpan,
}

/// `n` synthetic tokens of `kind` at `loc` / `span`.
pub open spec fn synthetic(n: nat, kind: TokenKind, loc: SourceLocation, span: SourceSpan) -> Seq<
    Token,
> {
    Seq::new(n, |_i: int| Token { loc, span, kind })
}

/// The layout of tokens `t[i..]` while the current indentation is `level`.
pub open spec fn layout_from(t: Seq<Token>, i: int, level: nat) -> Result<
    Seq<Token>,
    IndentationError,
>
    decreases t.len() - i,
{
    if i < 0 || i >= t.len() {
        if level > 0 && t.len() > 0 {
            Ok(synthetic(level, TokenKind::Dedent, t.last().loc, t.last().span))
        } else {
            Ok(seq![])
        }
    } else if t[i].kind is Newline && i + 1 < t.len() && t[i + 1].kind is Whitespace {
        let ws = t[i + 1];
        let new_level = (ws.kind->Whitespace_0 / 4) as nat;
        if new_level == level + 1 {
            match layout_from(t, i + 2, new_level) {
                Ok(rest) => Ok(
                    seq![t[i]] + synthetic(1, TokenKind::Indent, ws.loc, ws.span) + rest,
                ),
                Err(e) => Err(e),
            }
        } else if new_level <= level {
            match layout_from(t, i + 2, new_level) {
                Ok(rest) => Ok(
                    seq![t[i]] + synthetic(
                        (level - new_level) as nat,
                        TokenKind::Dedent,
                        ws.loc,
                        ws.span,
                    ) + rest,
                ),
                Err(e) => Err(e),
            }
        } else {
            Err(IndentationError { loc: ws.loc, span: ws.span })
        }
    } else if t[i].kind is Newline && i + 1 < t.len() {
        match layout_from(t, i + 1, 0) {
            Ok(rest) => Ok(
                seq![t[i]] + synthetic(level, TokenKind::Dedent, t[i].loc, t[i].span) + rest,
            ),
            Err(e) => Err(e),
        }
    } else {
        match layout_from(t, i + 1, level) {
            Ok(rest) => Ok(seq![t[i]] + rest),
            Err(e) => Err(e),
        }
    }
}

/// The layout of a whole token sequence.
pub open spec fn layout(t: Seq<Token>) -> Result<Seq<Token>, IndentationError> {
    layout_from(t, 0, 0)
}

/// `Indent` or `Dedent`.
pub open spec fn marker(indent: bool) -> TokenKind {
    if indent {
        TokenKind::Indent
    } else {
        TokenKind::Dedent
    }
}

/// `v` back to front.
pub(crate) fn into_reversed<T>(v: Vec<T>) -> (r: Vec<T>)
    ensures
        r@.len() == v@.len(),
        forall|i: int| 0 <= i < v@.len() ==> #[trigger] r@[i] == v@[v@.len() - 1 - i],
{
    let mut v = v;
    let ghost orig = v@;
    let mut r: Vec<T> = Vec::new();
    while v.len() > 0
        invariant
            v@ == orig.subrange(0, v@.len() as int),
            r@.len() + v@.len() == orig.len(),
            forall|i: int| 0 <= i < r@.len() ==> #[trigger] r@[i] == orig[orig.len() - 1 - i],
        decreases v@.len(),
    {
        let tok = v.pop().unwrap();
        r.push(tok);
    }
    r
}

/// Appends `n` synthetic tokens to `out`.
fn push_synthetic(out: &mut Vec<Token>, n: usize, indent: bool, loc: SourceLocation, span: SourceSpan)
    ensures
        final(out)@ == old(out)@ + synthetic(n as nat, marker(indent), loc, span),
{
    let ghost kind = marker(indent);
    let ghost before = out@;
    let mut j: usize = 0;
    while j < n
        invariant
            j <= n,
            kind == marker(indent),
            out@ == before + synthetic(j as nat, kind, loc, span),
        decreases n - j,
    {
        let k = if indent {
            TokenKind::Indent
        } else {
            TokenKind::Dedent
        };
        out.push(Token { loc, span, kind: k });
        j = j + 1;
        assert(out@ =~= before + synthetic(j as nat, kind, loc, span));
    }
}

/// Turns line-leading whitespace into explicit block delimiters: an `Indent`
/// after a line one level (four columns) deeper, one `Dedent` per level after a
/// shallower line, and the `Dedent`s still open at the end.
pub fn indented_tokens(tokens: Vec<Token>) -> (r: Result<Vec<Token>, IndentationError>)
    ensures
        match layout(tokens@) {
            Ok(s) => r matches Ok(out) && out@ == s,
            Err(e) => r == Err::<Vec<Token>, IndentationError>(e),
        },
{
    let ghost t = tokens@;
    let n = tokens.len();
    let mut rev = into_reversed(tokens);
    let mut out: Vec<Token> = Vec::new();
    let mut level: usize = 0;
    let mut i: usize = 0;
    let mut last_loc = SourceLocation { index: 0, col: 1, lineno: 1 };
    let mut last_span: SourceSpan = (0, 0);
    while rev.len() > 0
        invariant
            t == tokens@,
            n == t.len(),
            i + rev@.len() == n,
            forall|j: int| 0 <= j < rev@.len() ==> #[trigger] rev@[j] == t[n - 1 - j],
            level <= i,
            i > 0 ==> last_loc == t[i - 1].loc && last_span == t[i - 1].span,
            layout(t) == match layout_from(t, i as int, level as nat) {
                Ok(rest) => Ok(out@ + rest),
                Err(e) => Err::<Seq<Token>, IndentationError>(e),
            },
        decreases rev@.len(),
    {
        let ghost out0 = out@;
        let ghost level0 = level;
        let tok = rev.pop().unwrap();
        assert(tok == t[i as int]);
        let is_newline = match tok.kind {
            TokenKind::Newline => true,
            _ => false,
        };
        let next_ws: Option<u32> = if rev.len() > 0 {
            match rev[rev.len() - 1].kind {
                TokenKind::Whitespace(k) => Some(k),
                _ => None,
            }
        } else {
            None
        };
        if is_newline && next_ws.is_some() {
            let k = next_ws.unwrap();
            let ws = rev.pop().unwrap();
            assert(ws == t[i + 1]);
            let new_level = (k / 4) as usize;
            let ghost rest_of = layout_from(t, i + 2, new_level as nat);
            if new_level == level + 1 {
                let (wl, wsp) = (ws.loc, ws.span);
                out.push(tok);
                push_synthetic(&mut out, 1, true, wl, wsp);
                assert(out@.subrange(out0.len() as int, out@.len() as int) =~= seq![t[i as int]]
                    + synthetic(1, TokenKind::Indent, wl, wsp));
            } else if new_level <= level {
                let (wl, wsp) = (ws.loc, ws.span);
                out.push(tok);
                push_synthetic(&mut out, level - new_level, false, wl, wsp);
                assert(out@.subrange(out0.len() as int, out@.len() as int) =~= seq![t[i as int]]
                    + synthetic((level - new_level) as nat, TokenKind::Dedent, wl, wsp));
            } else {
                let e = IndentationError { loc: ws.loc, span: ws.span };
                return Err(e);
            }
            last_loc = ws.loc;
            last_span = ws.span;
            level = new_level;
            i = i + 2;
            proof {
                if let Ok(rest) = layout_from(t, i as int, level as nat) {
                    let piece = out@.subrange(out0.len() as int, out@.len() as int);
                    assert(out@ =~= out0 + piece);
                    assert(out0 + (piece + rest) =~= out@ + rest);
                }
            }
        } else if is_newline && rev.len() > 0 {
            let (nl, nsp) = (tok.loc, tok.span);
            out.push(tok);
            push_synthetic(&mut out, level, false, nl, nsp);
            last_loc = nl;
            last_span = nsp;
            level = 0;
            i = i + 1;
            proof {
                if let Ok(rest) = layout_from(t, i as int, 0) {
                    assert(out0 + (seq![t[i - 1]] + synthetic(
                        level0 as nat,
                        TokenKind::Dedent,
                        t[i - 1].loc,
                        t[i - 1].span,
                    ) + rest) =~= out@ + rest);
                }
            }
        } else {
            last_loc = tok.loc;
            last_span = tok.span;
            out.push(tok);
            i = i + 1;
            proof {
                if let Ok(rest) = layout_from(t, i as int, level as nat) {
                    assert(out0 + (seq![t[i - 1]] + rest) =~= out@ + rest);
                }
            }
        }
    }
    let ghost out0 = out@;
    push_synthetic(&mut out, level, false, last_loc, last_span);
    assert(level == 0 ==> out@ =~= out0 + seq![]);
    Ok(out)
}

/// `t` without its `Whitespace` tokens, order kept.
pub open spec fn without_whitespace(t: Seq<Token>) -> Seq<Token>
    decreases t.len(),
{
    if t.len() == 0 {
        seq![]
    } else if t.last().kind is Whitespace {
        without_whitespace(t.drop_last())
    } else {
        without_whitespace(t.drop_last()).push(t.last())
    }
}

/// Drops the `Whitespace` tokens, keeping the others in order.
pub fn omitted_spaces(tokens: Vec<Token>) -> (r: Vec<Token>)
    ensures
        r@ == without_whitespace(tokens@),
{
    let ghost t = tokens@;
    let n = tokens.len();
    let mut rev = into_reversed(tokens);
    let mut out: Vec<Token> = Vec::new();
    let mut i: usize = 0;
    while rev.len() > 0
        invariant
            n == t.len(),
            i + rev@.len() == n,
            forall|j: int| 0 <= j < rev@.len() ==> #[trigger] rev@[j] == t[n - 1 - j],
            out@ == without_whitespace(t.subrange(0, i as int)),
        decreases rev@.len(),
    {
        let tok = rev.pop().unwrap();
        assert(tok == t[i as int]);
        assert(t.subrange(0, i + 1).drop_last() =~= t.subrange(0, i as int));
        match tok.kind {
            TokenKind::Whitespace(_) => {},
            _ => {
                out.push(tok);
            },
        }
        i = i + 1;
    }
    assert(t.subrange(0, n as int) =~= t);
    out
}

/// The number of `Indent`s minus the number of `Dedent`s in `s`.
pub open spec fn depth(s: Seq<Token>) -> int
    decreases s.len(),
{
    if s.len() == 0 {
        0
    } else {
        depth(s.drop_last()) + if s.last().kind is Indent {
            1int
        } else if s.last().kind is Dedent {
            -1int
        } else {
            0int
        }
    }
}

/// Whether `t` holds no `Indent` or `Dedent`, as a lexed stream does not.
pub open spec fn no_block_markers(t: Seq<Token>) -> bool {
    forall|i: int| 0 <= i < t.len() ==> !(#[trigger] t[i].kind is Indent) && !(t[i].kind is Dedent)
}

proof fn lemma_depth_concat(a: Seq<Token>, b: Seq<Token>)
    ensures
        depth(a + b) == depth(a) + depth(b),
    decreases b.len(),
{
    if b.len() == 0 {
        assert(a + b =~= a);
    } else {
        assert((a + b).drop_last() =~= a + b.drop_last());
        lemma_depth_concat(a, b.drop_last());
    }
}

proof fn lemma_depth_synthetic(
    n: nat,
    indent: bool,
    loc: SourceLocation,
    span: SourceSpan,
    j: int,
)
    requires
        0 <= j <= n,
    ensures
        depth(synthetic(n, marker(indent), loc, span).subrange(0, j)) == if indent {
            j
        } else {
            -j
        },
    decreases j,
{
    let s = synthetic(n, marker(indent), loc, span);
    if j > 0 {
        assert(s.subrange(0, j).drop_last() =~= s.subrange(0, j - 1));
        lemma_depth_synthetic(n, indent, loc, span, j - 1);
    }
}

/// The prefixes of `piece + rest` keep `level + depth` non-negative, given
/// that `piece` does down to `low` and `rest` does from `low` on.
proof fn lemma_prefix_depth(piece: Seq<Token>, rest: Seq<Token>, level: int, low: int)
    requires
        forall|k: int| 0 <= k <= piece.len() ==> level + depth(#[trigger] piece.subrange(0, k)) >= 0,
        level + depth(piece) == low,
        forall|k: int| 0 <= k <= rest.len() ==> low + depth(#[trigger] rest.subrange(0, k)) >= 0,
        low + depth(rest) == 0,
    ensures
        forall|k: int|
            0 <= k <= (piece + rest).len() ==> level + depth(#[trigger] (piece + rest).subrange(0, k))
                >= 0,
        level + depth(piece + rest) == 0,
{
    lemma_depth_concat(piece, rest);
    assert forall|k: int| 0 <= k <= (piece + rest).len() implies level + depth(
        #[trigger] (piece + rest).subrange(0, k),
    ) >= 0 by {
        if k <= piece.len() {
            assert((piece + rest).subrange(0, k) =~= piece.subrange(0, k));
        } else {
            assert((piece + rest).subrange(0, k) =~= piece + rest.subrange(0, k - piece.len()));
            lemma_depth_concat(piece, rest.subrange(0, k - piece.len()));
            assert(rest.subrange(0, k - piece.len()) == rest.subrange(0, k - piece.len()));
        }
    }
}

/// A newline followed by `n` markers: the prefix depths run from 0 to `n` or `-n`.
proof fn lemma_newline_piece(
    nl: Token,
    n: nat,
    indent: bool,
    loc: SourceLocation,
    span: SourceSpan,
    level: int,
)
    requires
        nl.kind is Newline,
        indent ==> n == 1,
        !indent ==> n <= level,
        level >= 0,
    ensures
        forall|k: int|
            0 <= k <= (seq![nl] + synthetic(n, marker(indent), loc, span)).len() ==> level + depth(
                #[trigger] (seq![nl] + synthetic(n, marker(indent), loc, span)).subrange(0, k),
            ) >= 0,
        depth(seq![nl] + synthetic(n, marker(indent), loc, span)) == if indent {
            1int
        } else {
            -(n as int)
        },
{
    let syn = synthetic(n, marker(indent), loc, span);
    let piece = seq![nl] + syn;
    assert(depth(seq![nl]) == 0) by {
        reveal_with_fuel(depth, 2);
        assert(seq![nl].drop_last() =~= Seq::<Token>::empty());
    }
    lemma_depth_concat(seq![nl], syn);
    lemma_depth_synthetic(n, indent, loc, span, n as int);
    assert(syn.subrange(0, n as int) =~= syn);
    assert forall|k: int| 0 <= k <= piece.len() implies level + depth(
        #[trigger] piece.subrange(0, k),
    ) >= 0 by {
        if k == 0 {
            assert(piece.subrange(0, 0) =~= Seq::<Token>::empty());
        } else {
            assert(piece.subrange(0, k) =~= seq![nl] + syn.subrange(0, k - 1));
            lemma_depth_concat(seq![nl], syn.subrange(0, k - 1));
            lemma_depth_synthetic(n, indent, loc, span, k - 1);
        }
    }
}

proof fn lemma_layout_from_balanced(t: Seq<Token>, i: int, level: nat)
    requires
        no_block_markers(t),
        layout_from(t, i, level) is Ok,
        level > 0 ==> t.len() > 0,
    ensures
        ({
            let r = layout_from(t, i, level)->Ok_0;
            &&& forall|k: int| 0 <= k <= r.len() ==> level + depth(#[trigger] r.subrange(0, k)) >= 0
            &&& level + depth(r) == 0
        }),
    decreases t.len() - i,
{
    let r = layout_from(t, i, level)->Ok_0;
    if i < 0 || i >= t.len() {
        if level > 0 && t.len() > 0 {
            let syn = synthetic(level, TokenKind::Dedent, t.last().loc, t.last().span);
            assert(marker(false) == TokenKind::Dedent);
            assert forall|k: int| 0 <= k <= r.len() implies level + depth(
                #[trigger] r.subrange(0, k),
            ) >= 0 by {
                lemma_depth_synthetic(level, false, t.last().loc, t.last().span, k);
            }
            lemma_depth_synthetic(level, false, t.last().loc, t.last().span, level as int);
            assert(syn.subrange(0, level as int) =~= syn);
        } else {
            assert forall|k: int| 0 <= k <= r.len() implies level + depth(
                #[trigger] r.subrange(0, k),
            ) >= 0 by {
                assert(r.subrange(0, k) =~= Seq::<Token>::empty());
            }
        }
    } else if t[i].kind is Newline && i + 1 < t.len() && t[i + 1].kind is Whitespace {
        let ws = t[i + 1];
        let new_level = (ws.kind->Whitespace_0 / 4) as nat;
        lemma_layout_from_balanced(t, i + 2, new_level);
        let rest = layout_from(t, i + 2, new_level)->Ok_0;
        if new_level == level + 1 {
            assert(marker(true) == TokenKind::Indent);
            lemma_newline_piece(t[i], 1, true, ws.loc, ws.span, level as int);
            lemma_prefix_depth(
                seq![t[i]] + synthetic(1, marker(true), ws.loc, ws.span),
                rest,
                level as int,
                new_level as int,
            );
        } else {
            assert(marker(false) == TokenKind::Dedent);
            lemma_newline_piece(t[i], (level - new_level) as nat, false, ws.loc, ws.span, level as int);
            lemma_prefix_depth(
                seq![t[i]] + synthetic((level - new_level) as nat, marker(false), ws.loc, ws.span),
                rest,
                level as int,
                new_level as int,
            );
        }
    } else if t[i].kind is Newline && i + 1 < t.len() {
        lemma_layout_from_balanced(t, i + 1, 0);
        let rest = layout_from(t, i + 1, 0)->Ok_0;
        assert(marker(false) == TokenKind::Dedent);
        lemma_newline_piece(t[i], level, false, t[i].loc, t[i].span, level as int);
        lemma_prefix_depth(
            seq![t[i]] + synthetic(level, marker(false), t[i].loc, t[i].span),
            rest,
            level as int,
            0,
        );
    } else {
        lemma_layout_from_balanced(t, i + 1, level);
        let rest = layout_from(t, i + 1, level)->Ok_0;
        let piece = seq![t[i]];
        assert(!(t[i].kind is Indent) && !(t[i].kind is Dedent));
        assert(depth(piece) == 0) by {
            reveal_with_fuel(depth, 2);
            assert(piece.drop_last() =~= Seq::<Token>::empty());
        }
        assert forall|k: int| 0 <= k <= piece.len() implies level + depth(
            #[trigger] piece.subrange(0, k),
        ) >= 0 by {
            if k == 0 {
                assert(piece.subrange(0, 0) =~= Seq::<Token>::empty());
            } else {
                assert(piece.subrange(0, k) =~= piece);
            }
        }
        lemma_prefix_depth(piece, rest, level as int, level as int);
    }
}

/// Layout keeps blocks balanced: no prefix of its output closes more blocks
/// than it opened, and the whole output closes every block it opens.
pub proof fn lemma_layout_balanced(t: Seq<Token>)
    requires
        no_block_markers(t),
        layout(t) is Ok,
    ensures
        forall|k: int|
            0 <= k <= layout(t)->Ok_0.len() ==> depth(#[trigger] layout(t)->Ok_0.subrange(0, k))
                >= 0,
        depth(layout(t)->Ok_0) == 0,
{
    lemma_layout_from_balanced(t, 0, 0);
}

} // verus!
