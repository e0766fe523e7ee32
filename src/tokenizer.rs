use crate::rules::{
    first_match, first_match_from, is_blank, lemma_match_blanks, lemma_rule_match_bound,
    rule_match, rule_order, token_from_rule, RegexTokenizerRule, RuleKind, TokenizerRule,
};
use crate::token::{advanced, lemma_walk_bounds, start_location, SourceLocation, Token, TokenKind};
use vstd::prelude::*;
use vstd::string::StringSliceAdditionalSpecFns;

verus! {

/// No rule matches at `loc`, where input remains: the error covers the rest
/// of the input, up to its last byte.
#[derive(Clone, Copy, Debug)]
pub struct NonTokenizableSubstringError {
    pub loc: SourceLocation,
    pub span: (usize, usize),
}

/// The `End` token at `loc`.
pub open spec fn is_end_token(tok: Token, loc: SourceLocation) -> bool {
    tok.kind == TokenKind::End && tok.loc == loc && tok.span == (loc.index, loc.index)
}

/// Whether lexing `rest` from `loc` on yields exactly `toks`: one token per
/// winning rule, then `End`.
pub open spec fn lexes_to(rest: Seq<char>, loc: SourceLocation, toks: Seq<Token>) -> bool
    decreases rest.len(),
{
    if rest.len() == 0 {
        toks.len() == 1 && is_end_token(toks[0], loc)
    } else {
        match first_match(rest) {
            Some((k, n)) => {
                &&& 0 < n <= rest.len()
                &&& toks.len() > 0
                &&& token_from_rule(toks[0], k, rest.subrange(0, n as int), loc)
                &&& lexes_to(
                    rest.subrange(n as int, rest.len() as int),
                    advanced(loc, rest.subrange(0, n as int), n),
                    toks.drop_first(),
                )
            },
            None => false,
        }
    }
}

/// Where lexing `rest` from `loc` on gets stuck, if it does.
pub open spec fn stuck_at(rest: Seq<char>, loc: SourceLocation) -> Option<SourceLocation>
    decreases rest.len(),
{
    if rest.len() == 0 {
        None
    } else {
        match first_match(rest) {
            Some((k, n)) => if 0 < n <= rest.len() {
                stuck_at(
                    rest.subrange(n as int, rest.len() as int),
                    advanced(loc, rest.subrange(0, n as int), n),
                )
            } else {
                None
            },
            None => Some(loc),
        }
    }
}

/// The characters of the input that is left, if any.
pub open spec fn text_of(input: Option<&str>) -> Option<Seq<char>> {
    match input {
        Some(s) => Some(s@),
        None => None,
    }
}

/// One step of a token stream: from the input `before` at `loc`, the step
/// returns `r` and leaves `after` at `loc2`.
pub open spec fn stream_step(
    before: Option<Seq<char>>,
    loc: SourceLocation,
    r: Option<Token>,
    after: Option<Seq<char>>,
    loc2: SourceLocation,
) -> bool {
    match before {
        None => r is None && after is None && loc2 == loc,
        Some(s) => match first_match(s) {
            Some((k, n)) => {
                &&& 0 < n <= s.len()
                &&& r is Some
                &&& token_from_rule(r->Some_0, k, s.subrange(0, n as int), loc)
                &&& after == Some(s.subrange(n as int, s.len() as int))
                &&& loc2 == advanced(loc, s.subrange(0, n as int), n)
            },
            None => if s.len() == 0 {
                &&& r is Some
                &&& is_end_token(r->Some_0, loc)
                &&& after is None
                &&& loc2 == loc
            } else {
                r is None && after == before && loc2 == loc
            },
        },
    }
}

/// The first winning rule's match fits in its input.
proof fn lemma_first_match_from(s: Seq<char>, i: int)
    ensures
        first_match_from(s, i) matches Some((k, n)) ==> n == rule_match(k, s) && n > 0,
    decreases rule_order().len() - i,
{
    if 0 <= i < rule_order().len() && rule_match(rule_order()[i], s) == 0 {
        lemma_first_match_from(s, i + 1);
    }
}

/// `s` without its blanks.
pub open spec fn strip_blanks(s: Seq<char>) -> Seq<char>
    decreases s.len(),
{
    if s.len() == 0 {
        seq![]
    } else if is_blank(s[0]) {
        strip_blanks(s.drop_first())
    } else {
        seq![s[0]] + strip_blanks(s.drop_first())
    }
}

proof fn lemma_strip_concat(a: Seq<char>, b: Seq<char>)
    ensures
        strip_blanks(a + b) == strip_blanks(a) + strip_blanks(b),
    decreases a.len(),
{
    if a.len() == 0 {
        assert(a + b =~= b);
        assert(strip_blanks(a) + strip_blanks(b) =~= strip_blanks(b));
    } else {
        assert((a + b).drop_first() =~= a.drop_first() + b);
        lemma_strip_concat(a.drop_first(), b);
        if !is_blank(a[0]) {
            assert(seq![a[0]] + (strip_blanks(a.drop_first()) + strip_blanks(b)) =~= (seq![a[0]]
                + strip_blanks(a.drop_first())) + strip_blanks(b));
        }
    }
}

proof fn lemma_strip_uniform(a: Seq<char>, blanks: bool)
    requires
        forall|j: int| 0 <= j < a.len() ==> is_blank(#[trigger] a[j]) == blanks,
    ensures
        strip_blanks(a) == if blanks {
            Seq::<char>::empty()
        } else {
            a
        },
    decreases a.len(),
{
    if a.len() > 0 {
        assert forall|j: int| 0 <= j < a.drop_first().len() implies is_blank(
            #[trigger] a.drop_first()[j],
        ) == blanks by {
            assert(a.drop_first()[j] == a[j + 1]);
        }
        lemma_strip_uniform(a.drop_first(), blanks);
        if !blanks {
            assert(seq![a[0]] + a.drop_first() =~= a);
        }
    } else {
        assert(a =~= Seq::<char>::empty());
    }
}

/// What the tokens capture, in order: the source under each token's span,
/// whitespace tokens left out.
pub open spec fn captures(src: Seq<char>, toks: Seq<Token>) -> Seq<char>
    decreases toks.len(),
{
    if toks.len() == 0 {
        seq![]
    } else {
        let t = toks[0];
        let here = if t.kind is Whitespace {
            Seq::<char>::empty()
        } else {
            src.subrange(t.span.0 as int, t.span.1 as int)
        };
        here + captures(src, toks.drop_first())
    }
}

/// Where each token of a stream lexed from the suffix `rest` of `src` stands.
pub open spec fn token_in_source(src: Seq<char>, t: Token) -> bool {
    &&& t.span.0 == t.loc.index
    &&& t.span.0 <= t.span.1 <= src.len()
    &&& (t.kind is Identifier ==> t.kind->Identifier_0@ == src.subrange(t.span.0 as int, t.span.1 as int))
    &&& (t.kind is Integer ==> t.kind->Integer_0@ == src.subrange(t.span.0 as int, t.span.1 as int))
}

proof fn lemma_lexed_suffix(src: Seq<char>, rest: Seq<char>, loc: SourceLocation, toks: Seq<Token>)
    requires
        lexes_to(rest, loc, toks),
        loc.index + rest.len() == src.len(),
        src.subrange(loc.index as int, src.len() as int) == rest,
        src.len() <= usize::MAX,
    ensures
        forall|i: int| 0 <= i < toks.len() ==> token_in_source(src, #[trigger] toks[i]),
        captures(src, toks) == strip_blanks(rest),
    decreases rest.len(),
{
    if rest.len() == 0 {
        assert(toks.drop_first() =~= Seq::<Token>::empty());
        assert(src.subrange(loc.index as int, loc.index as int) =~= Seq::<char>::empty());
        assert(captures(src, toks.drop_first()) =~= Seq::<char>::empty());
        assert(captures(src, toks) =~= Seq::<char>::empty());
    } else {
        let (k, n) = first_match(rest)->Some_0;
        lemma_first_match_from(rest, 0);
        let text = rest.subrange(0, n as int);
        let rest2 = rest.subrange(n as int, rest.len() as int);
        let loc2 = advanced(loc, text, n);
        assert(src.subrange(loc2.index as int, src.len() as int) =~= rest2);
        lemma_lexed_suffix(src, rest2, loc2, toks.drop_first());
        let t = toks[0];
        assert(src.subrange(t.span.0 as int, t.span.1 as int) =~= text);
        assert forall|i: int| 0 <= i < toks.len() implies token_in_source(src, #[trigger] toks[i]) by {
            if i > 0 {
                assert(toks[i] == toks.drop_first()[i - 1]);
            }
        }
        lemma_match_blanks(k, rest);
        assert forall|j: int| 0 <= j < text.len() implies is_blank(#[trigger] text[j]) == (k
            == RuleKind::Whitespace) by {
            assert(text[j] == rest[j]);
        }
        lemma_strip_uniform(text, k == RuleKind::Whitespace);
        assert(rest =~= text + rest2);
        lemma_strip_concat(text, rest2);
        assert(t.kind is Whitespace <==> k == RuleKind::Whitespace);
    }
}

/// Every token lexed from `src` starts at its location's index and lies in
/// the source; a name or an integer holds exactly the source text under its
/// span.
pub proof fn lemma_token_spans(src: Seq<char>, toks: Seq<Token>)
    requires
        lexes_to(src, start_location(), toks),
        src.len() <= usize::MAX,
    ensures
        forall|i: int| 0 <= i < toks.len() ==> token_in_source(src, #[trigger] toks[i]),
{
    assert(src.subrange(0, src.len() as int) =~= src);
    lemma_lexed_suffix(src, src, start_location(), toks);
}

/// Concatenating what the tokens capture, whitespace tokens left out, gives
/// back the source without its blanks.
pub proof fn lemma_captures_rebuild_source(src: Seq<char>, toks: Seq<Token>)
    requires
        lexes_to(src, start_location(), toks),
        src.len() <= usize::MAX,
    ensures
        captures(src, toks) == strip_blanks(src),
{
    assert(src.subrange(0, src.len() as int) =~= src);
    lemma_lexed_suffix(src, src, start_location(), toks);
}

/// A lazy token sequence over the input that is left.
pub struct TokenStream<'a> {
    /// The input not yet tokenised; `None` once `End` was emitted.
    pub input: Option<&'a str>,
    /// The location of the first character of `input`.
    pub loc: SourceLocation,
    /// The rules, in priority order.
    pub tokenizer_rules: Vec<RegexTokenizerRule>,
}

/// Bounds that keep locations representable while `rest` is consumed from `loc`.
pub open spec fn location_fits(loc: SourceLocation, rest: Seq<char>) -> bool {
    &&& loc.index + rest.len() + 2 <= u32::MAX
    &&& loc.col <= loc.index + 1
    &&& loc.lineno <= loc.index + 1
}

impl<'a> TokenStream<'a> {
    pub open spec fn wf(&self) -> bool {
        &&& self.tokenizer_rules@.len() == rule_order().len()
        &&& forall|i: int|
            0 <= i < rule_order().len() ==> (#[trigger] self.tokenizer_rules@[i]).kind
                == rule_order()[i]
        &&& self.input matches Some(s) ==> location_fits(self.loc, s@)
    }

    /// Takes the next token: the one of the first rule that matches, or `End`
    /// once when nothing is left. Returns `None` when no rule matches the
    /// input that is left (which then stays), or after `End`.
    pub fn next(&mut self) -> (r: Option<Token>)
        requires
            old(self).wf(),
        ensures
            final(self).wf(),
            stream_step(text_of(old(self).input), old(self).loc, r, text_of(final(self).input), final(self).loc),
    {
        let input = match self.input {
            None => {
                return None;
            },
            Some(input) => input,
        };
        let ghost s = input@;
        let mut i: usize = 0;
        while i < self.tokenizer_rules.len()
            invariant
                self.wf(),
                self.input == Some(input),
                self.loc == old(self).loc,
                old(self).input == Some(input),
                input@ == s,
                0 <= i <= rule_order().len(),
                first_match(s) == first_match_from(s, i as int),
            decreases rule_order().len() - i,
        {
            let rule = self.tokenizer_rules[i];
            proof {
                lemma_walk_bounds(self.loc, s);
            }
            match rule.try_tokenize(input, self.loc) {
                Some((tok, rest, loc)) => {
                    proof {
                        let n = rule_match(rule.kind, s);
                        lemma_rule_match_bound(rule.kind, s);
                        lemma_walk_bounds(self.loc, s.subrange(0, n as int));
                        assert(rule.kind == rule_order()[i as int]);
                    }
                    self.input = Some(rest);
                    self.loc = loc;
                    return Some(tok);
                },
                None => {},
            }
            i = i + 1;
        }
        if input.is_empty() {
            self.input = None;
            Some(Token { loc: self.loc, span: (self.loc.index, self.loc.index), kind: TokenKind::End })
        } else {
            None
        }
    }
}

/// The standard rule set, in priority order.
fn standard_rules() -> (r: Vec<RegexTokenizerRule>)
    ensures
        r@.len() == rule_order().len(),
        forall|i: int| 0 <= i < rule_order().len() ==> (#[trigger] r@[i]).kind == rule_order()[i],
{
    let mut r = Vec::new();
    r.push(RegexTokenizerRule::new(RuleKind::Keyword));
    r.push(RegexTokenizerRule::new(RuleKind::Integer));
    r.push(RegexTokenizerRule::new(RuleKind::Whitespace));
    r.push(RegexTokenizerRule::new(RuleKind::Newline));
    r.push(RegexTokenizerRule::new(RuleKind::LeftParen));
    r.push(RegexTokenizerRule::new(RuleKind::RightParen));
    r.push(RegexTokenizerRule::new(RuleKind::Identifier));
    r.push(RegexTokenizerRule::new(RuleKind::CompoundOperator));
    r.push(RegexTokenizerRule::new(RuleKind::Operator));
    r.push(RegexTokenizerRule::new(RuleKind::Punctuation));
    r
}

/// A token stream over `input`, starting at line 1, column 1.
pub fn try_tokenize<'a>(input: &'a str) -> (r: TokenStream<'a>)
    requires
        input@.len() + 2 <= u32::MAX,
    ensures
        r.wf(),
        r.input == Some(input),
        r.loc == start_location(),
{
    TokenStream { input: Some(input), loc: SourceLocation::new(), tokenizer_rules: standard_rules() }
}

/// One step of an error-aware stream: like `stream_step`, except that where
/// no rule matches the error is returned once, over `[loc.index, end)`.
pub open spec fn aware_step(
    before: Option<Seq<char>>,
    loc: SourceLocation,
    end: usize,
    r: Option<Result<Token, NonTokenizableSubstringError>>,
    after: Option<Seq<char>>,
    loc2: SourceLocation,
) -> bool {
    match before {
        Some(s) => if s.len() > 0 && first_match(s) is None {
            &&& r == Some(
                Err::<Token, NonTokenizableSubstringError>(
                    NonTokenizableSubstringError { loc, span: (loc.index, end) },
                ),
            )
            &&& after is None
            &&& loc2 == loc
        } else {
            &&& r is Some
            &&& r->Some_0 is Ok
            &&& stream_step(before, loc, Some(r->Some_0->Ok_0), after, loc2)
        },
        None => r is None && after is None && loc2 == loc,
    }
}

/// A token stream that reports where no rule matched.
pub struct ErrorAwareTokenStream<'a> {
    pub stream: TokenStream<'a>,
    /// The byte length of the whole input.
    pub end: usize,
}

impl<'a> ErrorAwareTokenStream<'a> {
    pub fn new(input: &'a str) -> (r: ErrorAwareTokenStream<'a>)
        requires
            input@.len() + 2 <= u32::MAX,
        ensures
            r.stream.wf(),
            r.stream.input == Some(input),
            r.stream.loc == start_location(),
            r.end == input.spec_bytes().len() as usize,
    {
        ErrorAwareTokenStream { stream: try_tokenize(input), end: input.len() }
    }

    /// The next token, or the error where no rule matches.
    pub fn next(&mut self) -> (r: Option<Result<Token, NonTokenizableSubstringError>>)
        requires
            old(self).stream.wf(),
        ensures
            final(self).stream.wf(),
            final(self).end == old(self).end,
            aware_step(
                text_of(old(self).stream.input),
                old(self).stream.loc,
                old(self).end,
                r,
                text_of(final(self).stream.input),
                final(self).stream.loc,
            ),
    {
        match self.stream.next() {
            Some(tok) => Some(Ok(tok)),
            None => {
                if self.stream.input.is_some() {
                    let err = NonTokenizableSubstringError {
                        loc: self.stream.loc,
                        span: (self.stream.loc.index, self.end),
                    };
                    self.stream.input = None;
                    Some(Err(err))
                } else {
                    None
                }
            },
        }
    }
}

/// The input that a stream has left, as a measure of progress.
pub open spec fn remaining(input: Option<&str>) -> nat {
    match input {
        Some(s) => s@.len() + 1,
        None => 0,
    }
}

/// Lexes the whole input: the tokens up to and including `End`, or the error
/// where no rule matches.
pub fn tokenize(input: &str) -> (r: Result<Vec<Token>, NonTokenizableSubstringError>)
    requires
        input@.len() + 2 <= u32::MAX,
    ensures
        r is Ok <==> stuck_at(input@, start_location()) is None,
        r matches Ok(toks) ==> lexes_to(input@, start_location(), toks@),
        r matches Err(e) ==> stuck_at(input@, start_location()) == Some(e.loc) && e.span == (
            e.loc.index,
            input.spec_bytes().len() as usize,
        ),
{
    let mut stream = try_tokenize(input);
    let mut toks: Vec<Token> = Vec::new();
    loop
        invariant
            stream.wf(),
            stream.input is Some,
            stuck_at(input@, start_location()) == stuck_at(
                stream.input->Some_0@,
                stream.loc,
            ),
            forall|t: Seq<Token>|
                #[trigger] lexes_to(stream.input->Some_0@, stream.loc, t) ==> lexes_to(
                    input@,
                    start_location(),
                    toks@ + t,
                ),
        decreases remaining(stream.input),
    {
        let ghost rest = stream.input->Some_0@;
        let ghost loc = stream.loc;
        let ghost before = toks@;
        match stream.next() {
            Some(tok) => {
                let is_end = match tok.kind {
                    TokenKind::End => true,
                    _ => false,
                };
                toks.push(tok);
                if is_end {
                    proof {
                        assert(rest.len() == 0);
                        assert(lexes_to(rest, loc, seq![tok]));
                        assert(before + seq![tok] =~= toks@);
                    }
                    return Ok(toks);
                }
                proof {
                    let n = first_match(rest)->Some_0.1;
                    let next_rest = rest.subrange(n as int, rest.len() as int);
                    assert forall|t: Seq<Token>| #[trigger]
                        lexes_to(stream.input->Some_0@, stream.loc, t) implies lexes_to(
                        input@,
                        start_location(),
                        toks@ + t,
                    ) by {
                        let t2 = seq![tok] + t;
                        assert(t2.drop_first() =~= t);
                        assert(lexes_to(rest, loc, t2));
                        assert(before + t2 =~= toks@ + t);
                    }
                }
            },
            None => {
                return Err(
                    NonTokenizableSubstringError {
                        loc: stream.loc,
                        span: (stream.loc.index, input.len()),
                    },
                );
            },
        }
    }
}

} // verus!
