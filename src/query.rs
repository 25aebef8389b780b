use crate::ngram::{chars_of, text_of};
use vstd::prelude::*;

verus! {

/// A parsed query, as mathematical values.
pub enum Query {
    Or(Box<Query>, Box<Query>),
    And(Box<Query>, Box<Query>),
    Not(Box<Query>),
    Lang(Seq<char>),
    File(Seq<char>),
    Term(Seq<char>),
    Regex(Seq<char>),
}

/// A query tree: binary `Or` and `And`, unary `Not`, and the leaves.
#[derive(Debug, PartialEq, Eq)]
pub enum QueryNode {
    Or { lhs: Box<QueryNode>, rhs: Box<QueryNode> },
    And { lhs: Box<QueryNode>, rhs: Box<QueryNode> },
    Not(Box<QueryNode>),
    Lang(String),
    File(String),
    Term(String),
    Regex(String),
}

impl QueryNode {
    pub open spec fn view(&self) -> Query
        decreases self,
    {
        match self {
            QueryNode::Or { lhs, rhs } => Query::Or(Box::new(lhs.view()), Box::new(rhs.view())),
            QueryNode::And { lhs, rhs } => Query::And(Box::new(lhs.view()), Box::new(rhs.view())),
            QueryNode::Not(q) => Query::Not(Box::new(q.view())),
            QueryNode::Lang(s) => Query::Lang(s@),
            QueryNode::File(s) => Query::File(s@),
            QueryNode::Term(s) => Query::Term(s@),
            QueryNode::Regex(s) => Query::Regex(s@),
        }
    }
}

/// A lexical token of the query language, as mathematical values.
pub enum TokenView {
    Open,
    Close,
    And,
    Or,
    Not,
    Term(Seq<char>),
    Regex(Seq<char>),
    Lang(Seq<char>),
    File(Seq<char>),
}

/// A lexical token of the query language.
pub enum Token {
    Open,
    Close,
    And,
    Or,
    Not,
    Term(Vec<char>),
    Regex(Vec<char>),
    Lang(Vec<char>),
    File(Vec<char>),
}

impl Token {
    pub open spec fn view(&self) -> TokenView {
        match self {
            Token::Open => TokenView::Open,
            Token::Close => TokenView::Close,
            Token::And => TokenView::And,
            Token::Or => TokenView::Or,
            Token::Not => TokenView::Not,
            Token::Term(w) => TokenView::Term(w@),
            Token::Regex(w) => TokenView::Regex(w@),
            Token::Lang(w) => TokenView::Lang(w@),
            Token::File(w) => TokenView::File(w@),
        }
    }
}

/// The views of a sequence of tokens.
pub open spec fn tokens_view(ts: Seq<Token>) -> Seq<TokenView> {
    ts.map_values(|t: Token| t.view())
}

/// Why a query failed to parse.
#[derive(Debug, PartialEq, Eq, Structural)]
pub enum ParseError {
    /// An unterminated quote or regex, or a filter with nothing after its prefix.
    Lexical,
    /// Tokens that do not form a query: unbalanced parentheses, a missing operand,
    /// a stray operator.
    Syntax,
}

pub open spec fn is_space(c: char) -> bool {
    c == ' ' || c == '\t' || c == '\n' || c == '\r'
}

/// Characters that end a bare word.
pub open spec fn ends_word(c: char) -> bool {
    is_space(c) || c == '(' || c == ')' || c == '"'
}

/// The first position at or after `i` that holds `c`, or the length.
pub open spec fn find_char(cs: Seq<char>, i: int, c: char) -> int
    decreases cs.len() - i,
{
    if i < 0 || i >= cs.len() {
        cs.len() as int
    } else if cs[i] == c {
        i
    } else {
        find_char(cs, i + 1, c)
    }
}

/// The end of the bare word that starts at `i`.
pub open spec fn word_end(cs: Seq<char>, i: int) -> int
    decreases cs.len() - i,
{
    if i < 0 || i >= cs.len() {
        cs.len() as int
    } else if ends_word(cs[i]) {
        i
    } else {
        word_end(cs, i + 1)
    }
}

pub open spec fn has_prefix(w: Seq<char>, p: Seq<char>) -> bool {
    w.len() >= p.len() && w.take(p.len() as int) == p
}

/// The token a bare word stands for: an operator keyword, a filter, or a term.
pub open spec fn word_token(w: Seq<char>) -> Option<TokenView> {
    if w == seq!['A', 'N', 'D'] {
        Some(TokenView::And)
    } else if w == seq!['O', 'R'] {
        Some(TokenView::Or)
    } else if w == seq!['N', 'O', 'T'] {
        Some(TokenView::Not)
    } else if has_prefix(w, seq!['l', 'a', 'n', 'g', ':']) {
        if w.len() == 5 {
            None
        } else {
            Some(TokenView::Lang(w.skip(5)))
        }
    } else if has_prefix(w, seq!['f', 'i', 'l', 'e', ':']) {
        if w.len() == 5 {
            None
        } else {
            Some(TokenView::File(w.skip(5)))
        }
    } else {
        Some(TokenView::Term(w))
    }
}

/// The tokens of `cs` from position `i` on; `None` where the text cannot be split into tokens.
pub open spec fn lex_from(cs: Seq<char>, i: int) -> Option<Seq<TokenView>>
    decreases cs.len() - i,
{
    if i < 0 || i >= cs.len() {
        Some(Seq::empty())
    } else {
        let c = cs[i];
        if is_space(c) {
            lex_from(cs, i + 1)
        } else if c == '(' || c == ')' {
            match lex_from(cs, i + 1) {
                Some(rest) => Some(
                    seq![
                        if c == '(' {
                            TokenView::Open
                        } else {
                            TokenView::Close
                        },
                    ] + rest,
                ),
                None => None,
            }
        } else if c == '"' || c == '/' {
            let close = find_char(cs, i + 1, c);
            if close >= cs.len() || close <= i {
                None
            } else {
                let inner = cs.subrange(i + 1, close);
                match lex_from(cs, close + 1) {
                    Some(rest) => Some(
                        seq![
                            if c == '"' {
                                TokenView::Term(inner)
                            } else {
                                TokenView::Regex(inner)
                            },
                        ] + rest,
                    ),
                    None => None,
                }
            }
        } else {
            let end = word_end(cs, i);
            if end <= i || end > cs.len() {
                None
            } else {
                match (word_token(cs.subrange(i, end)), lex_from(cs, end)) {
                    (Some(t), Some(rest)) => Some(seq![t] + rest),
                    _ => None,
                }
            }
        }
    }
}

/// The tokens of a query text.
pub open spec fn lex(cs: Seq<char>) -> Option<Seq<TokenView>> {
    lex_from(cs, 0)
}

/// A term at `i`: a parenthesised expression, `NOT` and a term, or a leaf;
/// with the position after it.
pub open spec fn parse_term(ts: Seq<TokenView>, i: int) -> Option<(Query, int)>
    decreases ts.len() - i, 1int,
{
    if i < 0 || i >= ts.len() {
        None
    } else {
        match ts[i] {
            TokenView::Open => match parse_expr(ts, i + 1) {
                Some((e, k)) => if k < ts.len() && ts[k] is Close {
                    Some((e, k + 1))
                } else {
                    None
                },
                None => None,
            },
            TokenView::Not => match parse_term(ts, i + 1) {
                Some((t, k)) => Some((Query::Not(Box::new(t)), k)),
                None => None,
            },
            TokenView::Term(w) => Some((Query::Term(w), i + 1)),
            TokenView::Regex(w) => Some((Query::Regex(w), i + 1)),
            TokenView::Lang(w) => Some((Query::Lang(w), i + 1)),
            TokenView::File(w) => Some((Query::File(w), i + 1)),
            _ => None,
        }
    }
}

/// The rest of an expression after `lhs`: `AND` or `OR` and a term, any number
/// of times, grouping to the left.
pub open spec fn parse_rest(ts: Seq<TokenView>, j: int, lhs: Query) -> Option<(Query, int)>
    decreases ts.len() - j, 3int,
{
    if j < 0 || j >= ts.len() || !(ts[j] is And || ts[j] is Or) {
        Some((lhs, j))
    } else {
        match parse_term(ts, j + 1) {
            Some((rhs, k)) => if k <= j || k > ts.len() {
                None
            } else {
                let q = if ts[j] is And {
                    Query::And(Box::new(lhs), Box::new(rhs))
                } else {
                    Query::Or(Box::new(lhs), Box::new(rhs))
                };
                parse_rest(ts, k, q)
            },
            None => None,
        }
    }
}

/// An expression at `i`: a term followed by its rest.
pub open spec fn parse_expr(ts: Seq<TokenView>, i: int) -> Option<(Query, int)>
    decreases ts.len() - i, 2int,
{
    if i < 0 || i >= ts.len() {
        None
    } else {
        match parse_term(ts, i) {
            Some((t, k)) => if k <= i || k > ts.len() {
                None
            } else {
                parse_rest(ts, k, t)
            },
            None => None,
        }
    }
}

/// The query that a whole token sequence forms.
pub open spec fn parse_tokens(ts: Seq<TokenView>) -> Option<Query> {
    match parse_expr(ts, 0) {
        Some((q, k)) => if k == ts.len() {
            Some(q)
        } else {
            None
        },
        None => None,
    }
}

/// The query a text denotes, if it is well formed.
pub open spec fn parse_query(s: Seq<char>) -> Option<Query> {
    match lex(s) {
        Some(ts) => parse_tokens(ts),
        None => None,
    }
}

fn is_space_char(c: char) -> (r: bool)
    ensures
        r == is_space(c),
{
    c == ' ' || c == '\t' || c == '\n' || c == '\r'
}

fn find_char_exec(cs: &Vec<char>, i: usize, c: char) -> (r: usize)
    requires
        i <= cs@.len(),
    ensures
        r == find_char(cs@, i as int, c),
        i <= r <= cs@.len(),
{
    let mut j = i;
    while j < cs.len() && cs[j] != c
        invariant
            i <= j <= cs@.len(),
            find_char(cs@, i as int, c) == find_char(cs@, j as int, c),
        decreases cs@.len() - j,
    {
        j = j + 1;
    }
    j
}

fn word_end_exec(cs: &Vec<char>, i: usize) -> (r: usize)
    requires
        i <= cs@.len(),
    ensures
        r == word_end(cs@, i as int),
        i <= r <= cs@.len(),
{
    let mut j = i;
    while j < cs.len() && !(is_space_char(cs[j]) || cs[j] == '(' || cs[j] == ')' || cs[j] == '"')
        invariant
            i <= j <= cs@.len(),
            word_end(cs@, i as int) == word_end(cs@, j as int),
        decreases cs@.len() - j,
    {
        j = j + 1;
    }
    j
}

fn slice_chars(cs: &Vec<char>, from: usize, to: usize) -> (r: Vec<char>)
    requires
        from <= to <= cs@.len(),
    ensures
        r@ == cs@.subrange(from as int, to as int),
{
    let mut out: Vec<char> = Vec::new();
    let mut i = from;
    while i < to
        invariant
            from <= i <= to <= cs@.len(),
            out@ == cs@.subrange(from as int, i as int),
        decreases to - i,
    {
        proof {
            assert(cs@.subrange(from as int, i + 1) =~= cs@.subrange(from as int, i as int).push(
                cs@[i as int],
            ));
        }
        out.push(cs[i]);
        i = i + 1;
    }
    out
}

fn word_token_exec(w: Vec<char>) -> (r: Option<Token>)
    ensures
        match word_token(w@) {
            None => r is None,
            Some(t) => r matches Some(x) && x.view() == t,
        },
{
    let n = w.len();
    if n == 3 && w[0] == 'A' && w[1] == 'N' && w[2] == 'D' {
        proof {
            assert(w@ =~= seq!['A', 'N', 'D']);
        }
        return Some(Token::And);
    }
    proof {
        if w@ == seq!['A', 'N', 'D'] {
            assert(w@[1] == 'N');
        }
    }
    if n == 2 && w[0] == 'O' && w[1] == 'R' {
        proof {
            assert(w@ =~= seq!['O', 'R']);
        }
        return Some(Token::Or);
    }
    proof {
        if w@ == seq!['O', 'R'] {
            assert(w@[1] == 'R');
        }
    }
    if n == 3 && w[0] == 'N' && w[1] == 'O' && w[2] == 'T' {
        proof {
            assert(w@ =~= seq!['N', 'O', 'T']);
        }
        return Some(Token::Not);
    }
    proof {
        if w@ == seq!['N', 'O', 'T'] {
            assert(w@[1] == 'O');
        }
    }
    let is_lang = n >= 5 && w[0] == 'l' && w[1] == 'a' && w[2] == 'n' && w[3] == 'g' && w[4]
        == ':';
    proof {
        let p = seq!['l', 'a', 'n', 'g', ':'];
        if is_lang {
            assert(w@.take(5) =~= p);
        }
        if has_prefix(w@, p) {
            assert(w@.take(5)[0] == 'l' && w@.take(5)[1] == 'a' && w@.take(5)[2] == 'n'
                && w@.take(5)[3] == 'g' && w@.take(5)[4] == ':');
        }
    }
    if is_lang {
        if n == 5 {
            return None;
        }
        return Some(Token::Lang(slice_chars(&w, 5, n)));
    }
    let is_file = n >= 5 && w[0] == 'f' && w[1] == 'i' && w[2] == 'l' && w[3] == 'e' && w[4]
        == ':';
    proof {
        let p = seq!['f', 'i', 'l', 'e', ':'];
        if is_file {
            assert(w@.take(5) =~= p);
        }
        if has_prefix(w@, p) {
            assert(w@.take(5)[0] == 'f' && w@.take(5)[1] == 'i' && w@.take(5)[2] == 'l'
                && w@.take(5)[3] == 'e' && w@.take(5)[4] == ':');
        }
    }
    if is_file {
        if n == 5 {
            return None;
        }
        return Some(Token::File(slice_chars(&w, 5, n)));
    }
    Some(Token::Term(w))
}

/// Splits query text into tokens.
pub fn tokenize(s: &str) -> (r: Option<Vec<Token>>)
    ensures
        match lex(s@) {
            None => r is None,
            Some(ts) => r matches Some(v) && tokens_view(v@) == ts,
        },
{
    let cs = chars_of(s);
    let mut tokens: Vec<Token> = Vec::new();
    let mut i: usize = 0;
    while i < cs.len()
        invariant
            cs@ == s@,
            i <= cs@.len(),
            lex(s@) == match lex_from(cs@, i as int) {
                Some(rest) => Some(tokens_view(tokens@) + rest),
                None => None::<Seq<TokenView>>,
            },
        decreases cs@.len() - i,
    {
        let c = cs[i];
        let ghost before = tokens@;
        if is_space_char(c) {
            i = i + 1;
        } else if c == '(' || c == ')' {
            let t = if c == '(' {
                Token::Open
            } else {
                Token::Close
            };
            tokens.push(t);
            proof {
                assert(tokens_view(tokens@) =~= tokens_view(before).push(t.view()));
                let rest = lex_from(cs@, i + 1);
                if rest is Some {
                    assert(tokens_view(before) + (seq![t.view()] + rest->0) =~= tokens_view(tokens@)
                        + rest->0);
                }
            }
            i = i + 1;
        } else if c == '"' || c == '/' {
            let close = find_char_exec(&cs, i + 1, c);
            if close >= cs.len() {
                return None;
            }
            let inner = slice_chars(&cs, i + 1, close);
            let t = if c == '"' {
                Token::Term(inner)
            } else {
                Token::Regex(inner)
            };
            proof {
                assert(t.view() == if c == '"' {
                    TokenView::Term(cs@.subrange(i + 1, close as int))
                } else {
                    TokenView::Regex(cs@.subrange(i + 1, close as int))
                });
            }
            tokens.push(t);
            proof {
                assert(tokens_view(tokens@) =~= tokens_view(before).push(t.view()));
                let rest = lex_from(cs@, close + 1);
                if rest is Some {
                    assert(tokens_view(before) + (seq![t.view()] + rest->0) =~= tokens_view(tokens@)
                        + rest->0);
                }
            }
            i = close + 1;
        } else {
            let end = word_end_exec(&cs, i);
            if end <= i {
                return None;
            }
            let w = slice_chars(&cs, i, end);
            match word_token_exec(w) {
                None => {
                    return None;
                },
                Some(t) => {
                    tokens.push(t);
                    proof {
                        assert(tokens_view(tokens@) =~= tokens_view(before).push(t.view()));
                        let rest = lex_from(cs@, end as int);
                        if rest is Some {
                            assert(tokens_view(before) + (seq![t.view()] + rest->0)
                                =~= tokens_view(tokens@) + rest->0);
                        }
                    }
                    i = end;
                },
            }
        }
    }
    proof {
        assert(tokens_view(tokens@) + Seq::<TokenView>::empty() =~= tokens_view(tokens@));
    }
    Some(tokens)
}

fn leaf(t: &Token) -> (r: Option<QueryNode>)
    ensures
        match t.view() {
            TokenView::Term(w) => r matches Some(n) && n.view() == Query::Term(w),
            TokenView::Regex(w) => r matches Some(n) && n.view() == Query::Regex(w),
            TokenView::Lang(w) => r matches Some(n) && n.view() == Query::Lang(w),
            TokenView::File(w) => r matches Some(n) && n.view() == Query::File(w),
            _ => r is None,
        },
{
    match t {
        Token::Term(w) => Some(QueryNode::Term(text_of(w.as_slice()))),
        Token::Regex(w) => Some(QueryNode::Regex(text_of(w.as_slice()))),
        Token::Lang(w) => Some(QueryNode::Lang(text_of(w.as_slice()))),
        Token::File(w) => Some(QueryNode::File(text_of(w.as_slice()))),
        _ => None,
    }
}

fn term_exec(ts: &Vec<Token>, i: usize) -> (r: Option<(QueryNode, usize)>)
    ensures
        match parse_term(tokens_view(ts@), i as int) {
            None => r is None,
            Some((q, k)) => r matches Some((n, k2)) && n.view() == q && k2 == k,
        },
    decreases ts@.len() - i, 1int,
{
    let ghost tv = tokens_view(ts@);
    if i >= ts.len() {
        return None;
    }
    proof {
        assert(tv[i as int] == ts@[i as int].view());
    }
    match &ts[i] {
        Token::Open => match expr_exec(ts, i + 1) {
            Some((e, k)) => {
                if k < ts.len() {
                    proof {
                        assert(tv[k as int] == ts@[k as int].view());
                    }
                    match &ts[k] {
                        Token::Close => Some((e, k + 1)),
                        _ => None,
                    }
                } else {
                    None
                }
            },
            None => None,
        },
        Token::Not => match term_exec(ts, i + 1) {
            Some((t, k)) => Some((QueryNode::Not(Box::new(t)), k)),
            None => None,
        },
        t => match leaf(t) {
            Some(n) => Some((n, i + 1)),
            None => None,
        },
    }
}

fn rest_exec(ts: &Vec<Token>, j: usize, lhs: QueryNode) -> (r: Option<(QueryNode, usize)>)
    requires
        j <= ts@.len(),
    ensures
        match parse_rest(tokens_view(ts@), j as int, lhs.view()) {
            None => r is None,
            Some((q, k)) => r matches Some((n, k2)) && n.view() == q && k2 == k,
        },
    decreases ts@.len() - j, 3int,
{
    let ghost tv = tokens_view(ts@);
    if j >= ts.len() {
        return Some((lhs, j));
    }
    proof {
        assert(tv[j as int] == ts@[j as int].view());
    }
    let is_and = match &ts[j] {
        Token::And => true,
        Token::Or => false,
        _ => {
            return Some((lhs, j));
        },
    };
    match term_exec(ts, j + 1) {
        Some((rhs, k)) => {
            if k <= j || k > ts.len() {
                return None;
            }
            let q = if is_and {
                QueryNode::And { lhs: Box::new(lhs), rhs: Box::new(rhs) }
            } else {
                QueryNode::Or { lhs: Box::new(lhs), rhs: Box::new(rhs) }
            };
            rest_exec(ts, k, q)
        },
        None => None,
    }
}

fn expr_exec(ts: &Vec<Token>, i: usize) -> (r: Option<(QueryNode, usize)>)
    ensures
        match parse_expr(tokens_view(ts@), i as int) {
            None => r is None,
            Some((q, k)) => r matches Some((n, k2)) && n.view() == q && k2 == k,
        },
    decreases ts@.len() - i, 2int,
{
    if i >= ts.len() {
        return None;
    }
    match term_exec(ts, i) {
        Some((t, k)) => {
            if k <= i || k > ts.len() {
                return None;
            }
            rest_exec(ts, k, t)
        },
        None => None,
    }
}

impl QueryNode {
    /// Parses query text: terms joined by `AND` and `OR`, grouping to the left
    /// with equal precedence; `NOT` as a prefix binding tighter; parentheses;
    /// `"phrase"` terms; `/regex/`; `lang:` and `file:` filters; bare words.
    pub fn new(s: &str) -> (r: Result<QueryNode, ParseError>)
        ensures
            r matches Err(ParseError::Lexical) <==> lex(s@) is None,
            r matches Err(ParseError::Syntax) <==> lex(s@) is Some && parse_query(s@) is None,
            r is Ok <==> parse_query(s@) is Some,
            r matches Ok(q) ==> parse_query(s@) == Some(q.view()),
    {
        match tokenize(s) {
            None => Err(ParseError::Lexical),
            Some(ts) => match expr_exec(&ts, 0) {
                Some((q, k)) => {
                    if k == ts.len() {
                        Ok(q)
                    } else {
                        Err(ParseError::Syntax)
                    }
                },
                None => Err(ParseError::Syntax),
            },
        }
    }
}

} // verus!
