use crate::token::{
    advanced, operator_of_char, Keyword, Operator, Punctuation, SourceLocation, Token, TokenKind,
};
use vstd::prelude::*;

verus! {

/// The lexer's rules, highest priority first.
#[derive(Clone, Copy, Debug, PartialEq, Eq, Structural)]
pub enum RuleKind {
    Keyword,
    Integer,
    Whitespace,
    Newline,
    LeftParen,
    RightParen,
    Identifier,
    CompoundOperator,
    Operator,
    Punctuation,
}

/// The rules in priority order.
pub open spec fn rule_order() -> Seq<RuleKind> {
    seq![
        RuleKind::Keyword,
        RuleKind::Integer,
        RuleKind::Whitespace,
        RuleKind::Newline,
        RuleKind::LeftParen,
        RuleKind::RightParen,
        RuleKind::Identifier,
        RuleKind::CompoundOperator,
        RuleKind::Operator,
        RuleKind::Punctuation,
    ]
}

/// The anchored regular expression of each rule.
pub open spec fn rule_pattern(k: RuleKind) -> Seq<char> {
    match k {
        RuleKind::Keyword => "^(let|while)"@,
        RuleKind::Integer => "^[0-9_]+"@,
        RuleKind::Whitespace => "^[ \\t]+"@,
        RuleKind::Newline => "^[\\n\\r]"@,
        RuleKind::LeftParen => "^\\("@,
        RuleKind::RightParen => "^\\)"@,
        RuleKind::Identifier => "^[A-Za-z_][A-Za-z0-9_]*"@,
        RuleKind::CompoundOperator => "^[-+*/%><]="@,
        RuleKind::Operator => "^[-+*/%><=]"@,
        RuleKind::Punctuation => "^[;:]"@,
    }
}

pub open spec fn is_digit_char(c: char) -> bool {
    '0' <= c <= '9'
}

pub open spec fn is_ident_start(c: char) -> bool {
    ('a' <= c <= 'z') || ('A' <= c <= 'Z') || c == '_'
}

/// Character classes that a rule repeats.
#[derive(Clone, Copy, Debug, PartialEq, Eq, Structural)]
pub enum CharClass {
    /// `[0-9_]`
    DigitOrUnderscore,
    /// `[ \t]`
    Blank,
    /// `[A-Za-z0-9_]`
    IdentChar,
}

pub open spec fn in_class(cl: CharClass, c: char) -> bool {
    match cl {
        CharClass::DigitOrUnderscore => is_digit_char(c) || c == '_',
        CharClass::Blank => c == ' ' || c == '\t',
        CharClass::IdentChar => is_ident_start(c) || is_digit_char(c),
    }
}

/// The number of characters of `s` from `i` on, up to the first one outside `cl`.
pub open spec fn run_from(s: Seq<char>, i: int, cl: CharClass) -> nat
    decreases s.len() - i,
{
    if 0 <= i < s.len() && in_class(cl, s[i]) {
        1 + run_from(s, i + 1, cl)
    } else {
        0
    }
}

pub open spec fn is_operator_char(c: char) -> bool {
    c == '-' || c == '+' || c == '*' || c == '/' || c == '%' || c == '>' || c == '<'
}

pub open spec fn starts_with(s: Seq<char>, p: Seq<char>) -> bool {
    p.len() <= s.len() && s.subrange(0, p.len() as int) == p
}

pub open spec fn let_chars() -> Seq<char> {
    seq!['l', 'e', 't']
}

pub open spec fn while_chars() -> Seq<char> {
    seq!['w', 'h', 'i', 'l', 'e']
}

/// How many characters at the start of `s` the rule's pattern matches; 0 when
/// it does not match (no pattern matches the empty string).
pub open spec fn rule_match(k: RuleKind, s: Seq<char>) -> nat {
    match k {
        RuleKind::Keyword => if starts_with(s, let_chars()) {
            3
        } else if starts_with(s, while_chars()) {
            5
        } else {
            0
        },
        RuleKind::Integer => run_from(s, 0, CharClass::DigitOrUnderscore),
        RuleKind::Whitespace => run_from(s, 0, CharClass::Blank),
        RuleKind::Newline => if s.len() > 0 && (s[0] == '\n' || s[0] == '\r') {
            1
        } else {
            0
        },
        RuleKind::LeftParen => if s.len() > 0 && s[0] == '(' {
            1
        } else {
            0
        },
        RuleKind::RightParen => if s.len() > 0 && s[0] == ')' {
            1
        } else {
            0
        },
        RuleKind::Identifier => if s.len() > 0 && is_ident_start(s[0]) {
            1 + run_from(s, 1, CharClass::IdentChar)
        } else {
            0
        },
        RuleKind::CompoundOperator => if s.len() > 1 && is_operator_char(s[0]) && s[1] == '=' {
            2
        } else {
            0
        },
        RuleKind::Operator => if s.len() > 0 && (is_operator_char(s[0]) || s[0] == '=') {
            1
        } else {
            0
        },
        RuleKind::Punctuation => if s.len() > 0 && (s[0] == ';' || s[0] == ':') {
            1
        } else {
            0
        },
    }
}

/// The byte range that the regex search reports for a rule on `s`: the match
/// is anchored at 0 and covers ASCII characters only, one byte each.
pub open spec fn rule_find(k: RuleKind, s: Seq<char>) -> Option<(usize, usize)> {
    if rule_match(k, s) == 0 {
        None
    } else {
        Some((0usize, rule_match(k, s) as usize))
    }
}

/// The first rule, from position `i` of the order on, that matches `s`.
pub open spec fn first_match_from(s: Seq<char>, i: int) -> Option<(RuleKind, nat)>
    decreases rule_order().len() - i,
{
    if i < 0 || i >= rule_order().len() {
        None
    } else if rule_match(rule_order()[i], s) > 0 {
        Some((rule_order()[i], rule_match(rule_order()[i], s)))
    } else {
        first_match_from(s, i + 1)
    }
}

/// The rule that wins on `s` and the length of its match.
pub open spec fn first_match(s: Seq<char>) -> Option<(RuleKind, nat)> {
    first_match_from(s, 0)
}

/// Whether `kind` is the token that rule `k` builds from the matched `text`.
pub open spec fn kind_fits(kind: TokenKind, k: RuleKind, text: Seq<char>) -> bool {
    match k {
        RuleKind::Keyword => kind == TokenKind::Keyword(
            if text == let_chars() {
                Keyword::Let
            } else {
                Keyword::While
            },
        ),
        RuleKind::Integer => kind matches TokenKind::Integer(d) && d@ == text,
        RuleKind::Whitespace => kind == TokenKind::Whitespace(text.len() as u32),
        RuleKind::Newline => kind == TokenKind::Newline,
        RuleKind::LeftParen => kind == TokenKind::LeftParen,
        RuleKind::RightParen => kind == TokenKind::RightParen,
        RuleKind::Identifier => kind matches TokenKind::Identifier(n) && n@ == text,
        RuleKind::CompoundOperator => operator_of_char(text[0]) matches Some(op) && kind
            == TokenKind::CompoundOperator(op),
        RuleKind::Operator => operator_of_char(text[0]) matches Some(op) && kind
            == TokenKind::Operator(op),
        RuleKind::Punctuation => kind == TokenKind::Punctuation(
            if text[0] == ':' {
                Punctuation::Colon
            } else {
                Punctuation::Semicolon
            },
        ),
    }
}

/// Relies on regex::Regex::new and regex::Regex::find: each of the lexer's patterns
/// is a valid expression, and find reports the leftmost-first match as the byte
/// offsets of `Match::start` and `Match::end`. A `^` pattern can only match at 0;
/// `+` and `*` repeat greedily; of `let|while` the first alternative that matches wins.
#[verifier::external_body]
fn regex_find(pattern: &str, haystack: &str) -> (r: Option<(usize, usize)>)
    requires
        exists|k: RuleKind| pattern@ == rule_pattern(k),
    ensures
        forall|k: RuleKind| pattern@ == rule_pattern(k) ==> r == rule_find(k, haystack@),
{
    match regex::Regex::new(pattern) {
        Ok(re) => re.find(haystack).map(|m| (m.start(), m.end())),
        Err(_) => None,
    }
}

/// A lexer rule: an anchored regular expression and the token it builds.
#[derive(Clone, Copy, Debug)]
pub struct RegexTokenizerRule {
    pub kind: RuleKind,
}

/// The pattern text of a rule.
pub fn pattern_of(k: RuleKind) -> (r: &'static str)
    ensures
        r@ == rule_pattern(k),
{
    match k {
        RuleKind::Keyword => "^(let|while)",
        RuleKind::Integer => "^[0-9_]+",
        RuleKind::Whitespace => "^[ \\t]+",
        RuleKind::Newline => "^[\\n\\r]",
        RuleKind::LeftParen => "^\\(",
        RuleKind::RightParen => "^\\)",
        RuleKind::Identifier => "^[A-Za-z_][A-Za-z0-9_]*",
        RuleKind::CompoundOperator => "^[-+*/%><]=",
        RuleKind::Operator => "^[-+*/%><=]",
        RuleKind::Punctuation => "^[;:]",
    }
}


/// Whether `tok` is what rule `k` builds from `text` matched at `loc`.
pub open spec fn token_from_rule(tok: Token, k: RuleKind, text: Seq<char>, loc: SourceLocation) -> bool {
    &&& tok.loc == loc
    &&& tok.span == (loc.index, (loc.index + text.len()) as usize)
    &&& kind_fits(tok.kind, k, text)
}

proof fn lemma_run_bound(s: Seq<char>, i: int, cl: CharClass)
    requires
        0 <= i <= s.len(),
    ensures
        i + run_from(s, i, cl) <= s.len(),
        forall|j: int| i <= j < i + run_from(s, i, cl) ==> in_class(cl, #[trigger] s[j]),
    decreases s.len() - i,
{
    if i < s.len() && in_class(cl, s[i]) {
        lemma_run_bound(s, i + 1, cl);
    }
}

/// A match never runs past the end of the input.
pub proof fn lemma_rule_match_bound(k: RuleKind, s: Seq<char>)
    ensures
        rule_match(k, s) <= s.len(),
{
    match k {
        RuleKind::Integer => lemma_run_bound(s, 0, CharClass::DigitOrUnderscore),
        RuleKind::Whitespace => lemma_run_bound(s, 0, CharClass::Blank),
        RuleKind::Identifier => {
            if s.len() > 0 {
                lemma_run_bound(s, 1, CharClass::IdentChar);
            }
        },
        _ => {},
    }
}

pub open spec fn is_blank(c: char) -> bool {
    c == ' ' || c == '\t'
}

/// The whitespace rule matches blanks only, and no other rule matches a blank.
pub proof fn lemma_match_blanks(k: RuleKind, s: Seq<char>)
    requires
        rule_match(k, s) > 0,
    ensures
        forall|j: int|
            0 <= j < rule_match(k, s) ==> (is_blank(#[trigger] s[j]) <==> k == RuleKind::Whitespace),
{
    match k {
        RuleKind::Keyword => {
            if starts_with(s, let_chars()) {
                assert forall|j: int| 0 <= j < 3 implies !is_blank(#[trigger] s[j]) by {
                    assert(s[j] == s.subrange(0, 3)[j]);
                }
            } else {
                assert forall|j: int| 0 <= j < 5 implies !is_blank(#[trigger] s[j]) by {
                    assert(s[j] == s.subrange(0, 5)[j]);
                }
            }
        },
        RuleKind::Integer => lemma_run_bound(s, 0, CharClass::DigitOrUnderscore),
        RuleKind::Whitespace => lemma_run_bound(s, 0, CharClass::Blank),
        RuleKind::Identifier => lemma_run_bound(s, 1, CharClass::IdentChar),
        _ => {},
    }
}

/// A lexer rule: how much of an input it matches, and the token it builds.
pub trait TokenizerRule {
    /// How many characters at the start of `s` the rule matches; 0 for none.
    spec fn match_len(&self, s: Seq<char>) -> nat;

    /// Whether `tok` is the token the rule builds from `text` matched at `loc`.
    spec fn builds(&self, tok: Token, text: Seq<char>, loc: SourceLocation) -> bool;

    /// Matches the rule at the start of `input`; on a match, returns the token,
    /// the rest of the input and the location after the match.
    fn try_tokenize<'a>(&self, input: &'a str, loc: SourceLocation) -> (r: Option<
        (Token, &'a str, SourceLocation),
    >)
        requires
            loc.index + input@.len() <= usize::MAX,
            loc.col + input@.len() < u32::MAX,
            loc.lineno + input@.len() < u32::MAX,
        ensures
            r is None <==> self.match_len(input@) == 0,
            r matches Some((tok, rest, next)) ==> {
                let n = self.match_len(input@);
                &&& n <= input@.len()
                &&& self.builds(tok, input@.subrange(0, n as int), loc)
                &&& rest@ == input@.subrange(n as int, input@.len() as int)
                &&& next == advanced(loc, input@.subrange(0, n as int), n)
            },
    ;
}

impl RegexTokenizerRule {
    pub fn new(kind: RuleKind) -> (r: RegexTokenizerRule)
        ensures
            r.kind == kind,
    {
        RegexTokenizerRule { kind }
    }
}

impl TokenizerRule for RegexTokenizerRule {
    open spec fn match_len(&self, s: Seq<char>) -> nat {
        rule_match(self.kind, s)
    }

    open spec fn builds(&self, tok: Token, text: Seq<char>, loc: SourceLocation) -> bool {
        token_from_rule(tok, self.kind, text, loc)
    }

    fn try_tokenize<'a>(&self, input: &'a str, loc: SourceLocation) -> (r: Option<
        (Token, &'a str, SourceLocation),
    >) {
        let found = regex_find(pattern_of(self.kind), input);
        let n = match found {
            None => {
                return None;
            },
            Some((_, end)) => end,
        };
        proof {
            lemma_rule_match_bound(self.kind, input@);
        }
        let len = input.unicode_len();
        let text = input.substring_char(0, n);
        let rest = input.substring_char(n, len);
        let kind = match self.kind {
            RuleKind::Keyword => {
                if n == 3 {
                    assert(text@ =~= let_chars());
                    TokenKind::Keyword(Keyword::Let)
                } else {
                    assert(text@ =~= while_chars());
                    assert(text@ != let_chars()) by {
                        assert(text@.len() != let_chars().len());
                    }
                    TokenKind::Keyword(Keyword::While)
                }
            },
            RuleKind::Integer => TokenKind::Integer(text.to_owned()),
            RuleKind::Whitespace => TokenKind::Whitespace(n as u32),
            RuleKind::Newline => TokenKind::Newline,
            RuleKind::LeftParen => TokenKind::LeftParen,
            RuleKind::RightParen => TokenKind::RightParen,
            RuleKind::Identifier => TokenKind::Identifier(text.to_owned()),
            RuleKind::CompoundOperator => {
                let c = input.get_char(0);
                match Operator::from_char(c) {
                    Some(op) => TokenKind::CompoundOperator(op),
                    None => {
                        return None;
                    },
                }
            },
            RuleKind::Operator => {
                let c = input.get_char(0);
                match Operator::from_char(c) {
                    Some(op) => TokenKind::Operator(op),
                    None => {
                        return None;
                    },
                }
            },
            RuleKind::Punctuation => {
                let c = input.get_char(0);
                if c == ':' {
                    TokenKind::Punctuation(Punctuation::Colon)
                } else {
                    TokenKind::Punctuation(Punctuation::Semicolon)
                }
            },
        };
        let tok = Token { loc, span: (loc.index, loc.index + n), kind };
        let mut next = loc;
        next.advance(input, n);
        Some((tok, rest, next))
    }
}

} // verus!
