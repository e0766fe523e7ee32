use vstd::prelude::*;

verus! {

/// Absolute byte index, 1-based column and 1-based line of a source position.
#[derive(Clone, Copy, Debug, PartialEq, Eq, Structural)]
pub struct SourceLocation {
    pub index: usize,
    pub col: u32,
    pub lineno: u32,
}

/// Half-open byte range `[start, end)` into the source.
pub type SourceSpan = (usize, usize);

/// The location of the first character of a source.
pub open spec fn start_location() -> SourceLocation {
    SourceLocation { index: 0, col: 1, lineno: 1 }
}

/// Line and column after reading one character: a carriage return is skipped,
/// a line feed starts a new line, any other character moves one column on.
pub open spec fn step_location(loc: SourceLocation, c: char) -> SourceLocation {
    if c == '\r' {
        loc
    } else if c == '\n' {
        SourceLocation { col: 1, lineno: (loc.lineno + 1) as u32, ..loc }
    } else {
        SourceLocation { col: (loc.col + 1) as u32, ..loc }
    }
}

/// Line and column after reading `text`; the index is left alone.
pub open spec fn walk_location(loc: SourceLocation, text: Seq<char>) -> SourceLocation
    decreases text.len(),
{
    if text.len() == 0 {
        loc
    } else {
        step_location(walk_location(loc, text.drop_last()), text.last())
    }
}

/// The location reached from `loc` by consuming `text`, which is `by` bytes long.
pub open spec fn advanced(loc: SourceLocation, text: Seq<char>, by: nat) -> SourceLocation {
    SourceLocation { index: (loc.index + by) as usize, ..walk_location(loc, text) }
}

/// Walking never moves the column by more than one per character (it may reset
/// to 1), and the line by at most one per character.
pub proof fn lemma_walk_bounds(loc: SourceLocation, text: Seq<char>)
    requires
        loc.col + text.len() < u32::MAX,
        loc.lineno + text.len() < u32::MAX,
    ensures
        walk_location(loc, text).index == loc.index,
        walk_location(loc, text).col <= loc.col + text.len() || walk_location(loc, text).col
            <= 1 + text.len(),
        walk_location(loc, text).lineno <= loc.lineno + text.len(),
        walk_location(loc, text).lineno >= loc.lineno,
    decreases text.len(),
{
    if text.len() > 0 {
        lemma_walk_bounds(loc, text.drop_last());
    }
}

impl SourceLocation {
    /// The location of the first character of a source.
    pub fn new() -> (r: SourceLocation)
        ensures
            r == start_location(),
    {
        SourceLocation { index: 0, col: 1, lineno: 1 }
    }

    /// Moves past the first `by` characters of `input`, which take `by` bytes.
    pub fn advance(&mut self, input: &str, by: usize)
        requires
            by <= input@.len(),
            old(self).index + by <= usize::MAX,
            old(self).col + by < u32::MAX,
            old(self).lineno + by < u32::MAX,
        ensures
            *final(self) == advanced(*old(self), input@.subrange(0, by as int), by as nat),
    {
        let ghost start = *self;
        let mut i: usize = 0;
        while i < by
            invariant
                i <= by,
                by <= input@.len(),
                start.index + by <= usize::MAX,
                start.col + by < u32::MAX,
                start.lineno + by < u32::MAX,
                *self == walk_location(start, input@.subrange(0, i as int)),
            decreases by - i,
        {
            proof {
                lemma_walk_bounds(start, input@.subrange(0, i as int));
            }
            let ch = input.get_char(i);
            if ch == '\r' {
            } else if ch == '\n' {
                self.col = 1;
                self.lineno = self.lineno + 1;
            } else {
                self.col = self.col + 1;
            }
            proof {
                let t = input@.subrange(0, i + 1);
                assert(t.drop_last() =~= input@.subrange(0, i as int));
            }
            i = i + 1;
        }
        proof {
            lemma_walk_bounds(start, input@.subrange(0, by as int));
        }
        self.index = self.index + by;
    }
}


impl Default for SourceLocation {
    /// The location of the first character of a source.
    fn default() -> (r: SourceLocation)
        ensures
            r == start_location(),
    {
        SourceLocation::new()
    }
}

/// The keywords of the language.
#[derive(Clone, Copy, Debug, PartialEq, Eq, Structural)]
pub enum Keyword {
    Let,
    While,
}

/// Binary operators; `Equals` also separates a declared name from its value.
#[derive(Clone, Copy, Debug, PartialEq, Eq, Structural)]
pub enum Operator {
    Equals,
    Add,
    Sub,
    Mul,
    Div,
    Mod,
    Greater,
    Less,
}

/// The character that spells an operator.
pub open spec fn operator_char(op: Operator) -> char {
    match op {
        Operator::Equals => '=',
        Operator::Add => '+',
        Operator::Sub => '-',
        Operator::Mul => '*',
        Operator::Div => '/',
        Operator::Mod => '%',
        Operator::Greater => '>',
        Operator::Less => '<',
    }
}

/// The operator spelled by a character, if any.
pub open spec fn operator_of_char(c: char) -> Option<Operator> {
    if c == '=' {
        Some(Operator::Equals)
    } else if c == '+' {
        Some(Operator::Add)
    } else if c == '-' {
        Some(Operator::Sub)
    } else if c == '*' {
        Some(Operator::Mul)
    } else if c == '/' {
        Some(Operator::Div)
    } else if c == '%' {
        Some(Operator::Mod)
    } else if c == '>' {
        Some(Operator::Greater)
    } else if c == '<' {
        Some(Operator::Less)
    } else {
        None
    }
}

impl Operator {
    /// The operator spelled by `c`.
    pub fn from_char(c: char) -> (r: Option<Operator>)
        ensures
            r == operator_of_char(c),
            r matches Some(op) ==> operator_char(op) == c,
    {
        if c == '=' {
            Some(Operator::Equals)
        } else if c == '+' {
            Some(Operator::Add)
        } else if c == '-' {
            Some(Operator::Sub)
        } else if c == '*' {
            Some(Operator::Mul)
        } else if c == '/' {
            Some(Operator::Div)
        } else if c == '%' {
            Some(Operator::Mod)
        } else if c == '>' {
            Some(Operator::Greater)
        } else if c == '<' {
            Some(Operator::Less)
        } else {
            None
        }
    }

    /// The text of the operator.
    pub fn as_str(self) -> (r: &'static str)
        ensures
            r@ == seq![operator_char(self)],
    {
        proof {
            reveal_strlit("=");
            reveal_strlit("+");
            reveal_strlit("-");
            reveal_strlit("*");
            reveal_strlit("/");
            reveal_strlit("%");
            reveal_strlit(">");
            reveal_strlit("<");
        }
        match self {
            Operator::Equals => "=",
            Operator::Add => "+",
            Operator::Sub => "-",
            Operator::Mul => "*",
            Operator::Div => "/",
            Operator::Mod => "%",
            Operator::Greater => ">",
            Operator::Less => "<",
        }
    }
}

/// Punctuation marks.
#[derive(Clone, Copy, Debug, PartialEq, Eq, Structural)]
pub enum Punctuation {
    Colon,
    Semicolon,
}

/// What a token is.
#[derive(Clone, Debug)]
pub enum TokenKind {
    Keyword(Keyword),
    Identifier(String),
    Operator(Operator),
    CompoundOperator(Operator),
    Punctuation(Punctuation),
    /// A run of horizontal whitespace, by its length.
    Whitespace(u32),
    Indent,
    Dedent,
    Newline,
    LeftParen,
    RightParen,
    /// Digits and underscores, as written.
    Integer(String),
    /// Emitted once, when the input is exhausted.
    End,
}

/// A lexical atom with its kind, location and span.
#[derive(Debug)]
pub struct Token {
    pub loc: SourceLocation,
    pub span: SourceSpan,
    pub kind: TokenKind,
}

impl Token {
    /// Whether the token is a (non-compound) binary operator.
    pub fn is_binop(&self) -> (r: bool)
        ensures
            r == (self.kind is Operator),
    {
        match self.kind {
            TokenKind::Operator(_) => true,
            _ => false,
        }
    }
}

/// Anything that knows where in the source it stands.
pub trait SourceObject {
    spec fn location(&self) -> SourceLocation;

    spec fn extent(&self) -> SourceSpan;

    /// The location of the first character.
    fn source_location(&self) -> (r: SourceLocation)
        ensures
            r == self.location(),
    ;

    /// The full extent.
    fn source_span(&self) -> (r: SourceSpan)
        ensures
            r == self.extent(),
    ;
}

impl SourceObject for Token {
    open spec fn location(&self) -> SourceLocation {
        self.loc
    }

    open spec fn extent(&self) -> SourceSpan {
        self.span
    }

    fn source_location(&self) -> (r: SourceLocation) {
        self.loc
    }

    fn source_span(&self) -> (r: SourceSpan) {
        self.span
    }
}

} // verus!
