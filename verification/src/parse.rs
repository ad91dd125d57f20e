//! Parsing: a recursive-descent parser over the token stream, building a
//! binary expression tree per a four-level precedence grammar:
//!
//! ```text
//! expr    := term ( (Or | Nor | Xor) expr )?
//! term    := factor ( (And | Nand | Is) term )?
//! factor  := Not primary | primary
//! primary := True | False | Variable | LeftParen expr RightParen
//! ```
//!
//! The grammar is right-recursive at each level, so every binary operator
//! groups to the right: `A is B is C` parses as `A is (B is C)`.

use crate::lexer::tok_view;
use crate::lexer::toks_from;
use crate::lexer::GhostToken;
use crate::lexer::Lexer;
use crate::lexer::Operator;
use crate::lexer::Token;
use crate::lexer::lemma_toks_index;
use crate::lexer::lemma_toks_len;
use crate::lexer::lemma_toks_no_end;
use vstd::prelude::*;

verus! {

/// Why parsing failed, carrying a human-readable message.
#[derive(Debug, Clone)]
pub struct ParseError {
    pub message: String,
}

/// The ghost shape of a parse failure.
pub enum PErr {
    Unexpected,
    Unbalanced,
    Incomplete,
    Empty,
}

/// The message text of each kind of failure.
pub open spec fn perr_msg(e: PErr) -> Seq<char> {
    match e {
        PErr::Unexpected => "ParseError: Unknown token"@,
        PErr::Unbalanced => "ParseError: Incorrect parenthese"@,
        PErr::Incomplete => "ParseError: Failed to create a parse tree."@,
        PErr::Empty => "ParseError: Empty formula."@,
    }
}

/// A node of the expression tree: leaves carry a variable or a literal,
/// `Not` has only a left child, binary operators have both.
#[derive(Debug)]
pub struct Tree {
    pub token: Token,
    pub left: Option<Box<Tree>>,
    pub right: Option<Box<Tree>>,
}

/// The ghost expression tree the parser is specified against.
pub enum STree {
    SVarT(int),
    SLit(bool),
    SNot(Box<STree>),
    SBin(Operator, Box<STree>, Box<STree>),
}

/// Shape invariant of an expression tree: leaves are childless, `Not`
/// has exactly a left child, binary operators have both children.
pub open spec fn wf_tree(t: Tree) -> bool
    decreases t,
{
    match t.token {
        Token::Var(_, _) => t.left is None && t.right is None,
        Token::True => t.left is None && t.right is None,
        Token::False => t.left is None && t.right is None,
        Token::Op(op) => match t.left {
            Some(l) => if op == Operator::Not {
                wf_tree(*l) && t.right is None
            } else {
                match t.right {
                    Some(r) => wf_tree(*l) && wf_tree(*r),
                    None => false,
                }
            },
            None => false,
        },
        _ => false,
    }
}

/// The ghost meaning of a well-formed expression tree.
pub open spec fn tree_view(t: Tree) -> STree
    decreases t,
{
    match t.token {
        Token::Var(_, n) => STree::SVarT(n as int),
        Token::True => STree::SLit(true),
        Token::False => STree::SLit(false),
        Token::Op(op) => match t.left {
            Some(l) => if op == Operator::Not {
                STree::SNot(Box::new(tree_view(*l)))
            } else {
                match t.right {
                    Some(r) => STree::SBin(op, Box::new(tree_view(*l)), Box::new(tree_view(*r))),
                    None => STree::SLit(false),
                }
            },
            None => STree::SLit(false),
        },
        _ => STree::SLit(false),
    }
}

/// The token under a cursor; beyond the stream it is the end marker.
pub open spec fn tok_at(toks: Seq<GhostToken>, i: int) -> GhostToken {
    if 0 <= i < toks.len() {
        toks[i]
    } else {
        GhostToken::GEnd
    }
}

/// The operators of the lowest precedence level.
pub open spec fn is_expr_op(op: Operator) -> bool {
    op == Operator::Or || op == Operator::Nor || op == Operator::Xor
}

/// The operators of the middle precedence level.
pub open spec fn is_term_op(op: Operator) -> bool {
    op == Operator::And || op == Operator::Nand || op == Operator::Is
}

/// The grammar's `expr` production: a `term`, optionally followed by a
/// low-precedence operator and a right-recursive `expr`. The `i <= j`
/// test in the recursion is always true — a production never moves the
/// cursor backward — and only justifies the termination measure.
pub open spec fn sparse_expr(toks: Seq<GhostToken>, i: int) -> Result<(STree, int), PErr>
    decreases toks.len() - i, 3int,
{
    match sparse_term(toks, i) {
        Err(e) => Err(e),
        Ok((t, j)) => match tok_at(toks, j) {
            GhostToken::GOp(op) => if is_expr_op(op) && i <= j {
                match sparse_expr(toks, j + 1) {
                    Err(e) => Err(e),
                    Ok((r, k)) => Ok((STree::SBin(op, Box::new(t), Box::new(r)), k)),
                }
            } else {
                Ok((t, j))
            },
            _ => Ok((t, j)),
        },
    }
}

/// The grammar's `term` production: a `factor`, optionally followed by a
/// middle-precedence operator and a right-recursive `term`.
pub open spec fn sparse_term(toks: Seq<GhostToken>, i: int) -> Result<(STree, int), PErr>
    decreases toks.len() - i, 2int,
{
    match sparse_factor(toks, i) {
        Err(e) => Err(e),
        Ok((t, j)) => match tok_at(toks, j) {
            GhostToken::GOp(op) => if is_term_op(op) && i <= j {
                match sparse_term(toks, j + 1) {
                    Err(e) => Err(e),
                    Ok((r, k)) => Ok((STree::SBin(op, Box::new(t), Box::new(r)), k)),
                }
            } else {
                Ok((t, j))
            },
            _ => Ok((t, j)),
        },
    }
}

/// The grammar's `factor` production: a negated or a plain `primary`.
pub open spec fn sparse_factor(toks: Seq<GhostToken>, i: int) -> Result<(STree, int), PErr>
    decreases toks.len() - i, 1int,
{
    match tok_at(toks, i) {
        GhostToken::GOp(op) => if op == Operator::Not {
            match sparse_primary(toks, i + 1) {
                Err(e) => Err(e),
                Ok((t, j)) => Ok((STree::SNot(Box::new(t)), j)),
            }
        } else {
            sparse_primary(toks, i)
        },
        _ => sparse_primary(toks, i),
    }
}

/// The grammar's `primary` production: a literal, a variable, or a
/// parenthesized `expr`. A missing closing parenthesis is the
/// unbalanced-parentheses failure; a token that cannot start a primary
/// is the unexpected-token failure.
pub open spec fn sparse_primary(toks: Seq<GhostToken>, i: int) -> Result<(STree, int), PErr>
    decreases toks.len() - i, 0int,
{
    match tok_at(toks, i) {
        GhostToken::GTrue => Ok((STree::SLit(true), i + 1)),
        GhostToken::GFalse => Ok((STree::SLit(false), i + 1)),
        GhostToken::GVar(n) => Ok((STree::SVarT(n), i + 1)),
        GhostToken::GLpar => match sparse_expr(toks, i + 1) {
            Err(e) => Err(e),
            Ok((t, j)) => if tok_at(toks, j) is GRpar {
                Ok((t, j + 1))
            } else {
                Err(PErr::Unbalanced)
            },
        },
        _ => Err(PErr::Unexpected),
    }
}

/// The whole parse: an `expr` that must consume every token; trailing
/// tokens are the incomplete-parse failure.
pub open spec fn sparse_top(toks: Seq<GhostToken>, i: int) -> Result<STree, PErr> {
    match sparse_expr(toks, i) {
        Err(e) => Err(e),
        Ok((t, j)) => if j >= toks.len() {
            Ok(t)
        } else {
            Err(PErr::Incomplete)
        },
    }
}

/// Every variable token in the stream has an index below `n`.
pub open spec fn toks_vars_below(toks: Seq<GhostToken>, n: int) -> bool {
    forall|k: int|
        0 <= k < toks.len() ==> ((#[trigger] toks[k]) matches GhostToken::GVar(i) ==> 0 <= i < n)
}

/// Every variable index in the tree that the tree-shaped spec functions
/// below refer to lies inside the token stream's variable bound.
pub open spec fn tree_vars_below(t: STree, n: int) -> bool
    decreases t,
{
    match t {
        STree::SVarT(i) => 0 <= i < n,
        STree::SLit(_) => true,
        STree::SNot(x) => tree_vars_below(*x, n),
        STree::SBin(_, x, y) => tree_vars_below(*x, n) && tree_vars_below(*y, n),
    }
}

/// A parsed `expr` only mentions variable indices below the stream's bound.
pub proof fn lemma_expr_vars_below(toks: Seq<GhostToken>, i: int, n: int)
    requires
        toks_vars_below(toks, n),
    ensures
        sparse_expr(toks, i) matches Ok((t, j)) ==> tree_vars_below(t, n),
    decreases toks.len() - i, 3int,
{
    lemma_term_vars_below(toks, i, n);
    match sparse_term(toks, i) {
        Err(_) => {},
        Ok((t, j)) => match tok_at(toks, j) {
            GhostToken::GOp(op) => if is_expr_op(op) && i <= j {
                lemma_expr_vars_below(toks, j + 1, n);
            },
            _ => {},
        },
    }
}

/// A parsed `term` only mentions variable indices below the stream's bound.
pub proof fn lemma_term_vars_below(toks: Seq<GhostToken>, i: int, n: int)
    requires
        toks_vars_below(toks, n),
    ensures
        sparse_term(toks, i) matches Ok((t, j)) ==> tree_vars_below(t, n),
    decreases toks.len() - i, 2int,
{
    lemma_factor_vars_below(toks, i, n);
    match sparse_factor(toks, i) {
        Err(_) => {},
        Ok((t, j)) => match tok_at(toks, j) {
            GhostToken::GOp(op) => if is_term_op(op) && i <= j {
                lemma_term_vars_below(toks, j + 1, n);
            },
            _ => {},
        },
    }
}

/// A parsed `factor` only mentions variable indices below the stream's bound.
pub proof fn lemma_factor_vars_below(toks: Seq<GhostToken>, i: int, n: int)
    requires
        toks_vars_below(toks, n),
    ensures
        sparse_factor(toks, i) matches Ok((t, j)) ==> tree_vars_below(t, n),
    decreases toks.len() - i, 1int,
{
    match tok_at(toks, i) {
        GhostToken::GOp(op) => if op == Operator::Not {
            lemma_primary_vars_below(toks, i + 1, n);
        } else {
            lemma_primary_vars_below(toks, i, n);
        },
        _ => {
            lemma_primary_vars_below(toks, i, n);
        },
    }
}

/// A parsed `primary` only mentions variable indices below the stream's bound.
pub proof fn lemma_primary_vars_below(toks: Seq<GhostToken>, i: int, n: int)
    requires
        toks_vars_below(toks, n),
    ensures
        sparse_primary(toks, i) matches Ok((t, j)) ==> tree_vars_below(t, n),
    decreases toks.len() - i, 0int,
{
    match tok_at(toks, i) {
        GhostToken::GVar(m) => {
            assert(tok_at(toks, i) == toks[i]);
        },
        GhostToken::GLpar => {
            lemma_expr_vars_below(toks, i + 1, n);
        },
        _ => {},
    }
}

/// The parser: a tokenizer plus exactly one token of lookahead.
pub struct Parser {
    pub lexer: Lexer,
    pub curr_token: Token,
    pub idx: Ghost<int>,
}

impl Parser {
    /// The raw tokens the parser reads.
    pub open spec fn words(self) -> Seq<Seq<char>> {
        self.lexer.strs.deep_view()
    }

    /// The classified token stream the parser consumes.
    pub open spec fn toks(self) -> Seq<GhostToken> {
        toks_from(self.words(), Seq::empty())
    }

    /// The cursor of the lookahead token.
    pub open spec fn cursor(self) -> int {
        self.idx@
    }

    /// The tokenizer is well formed, the cursor is in range, the
    /// tokenizer's position sits one past the cursor, and the lookahead
    /// token is the token under the cursor.
    pub open spec fn inv(self) -> bool {
        &&& self.lexer.wf()
        &&& 0 <= self.idx@ <= self.words().len()
        &&& self.lexer.position as int == if self.idx@ < self.words().len() {
            self.idx@ + 1
        } else {
            self.words().len() as int
        }
        &&& tok_view(self.curr_token) == tok_at(self.toks(), self.idx@)
    }

    /// Tokens not yet consumed; the parser's termination measure.
    pub open spec fn remaining(self) -> int {
        self.words().len() - self.idx@
    }

    /// Build a parser over a fresh tokenizer, loading one token of
    /// lookahead.
    pub fn new(mut lexer: Lexer) -> (p: Parser)
        requires
            lexer.wf(),
            lexer.position == 0,
        ensures
            p.inv(),
            p.cursor() == 0,
            p.lexer.strs == lexer.strs,
    {
        let ghost words = lexer.strs.deep_view();
        let curr_token = lexer.get_token();
        proof {
            lemma_toks_len(words, Seq::<Seq<char>>::empty());
            if words.len() > 0 {
                lemma_toks_index(words, Seq::<Seq<char>>::empty(), 0);
                assert(words.take(0) =~= Seq::<Seq<char>>::empty());
            }
        }
        Parser { lexer, curr_token, idx: Ghost(0) }
    }

    /// Consume the lookahead token and load the next one.
    fn advance(&mut self)
        requires
            old(self).inv(),
            tok_view(old(self).curr_token) != GhostToken::GEnd,
        ensures
            final(self).inv(),
            final(self).lexer.strs == old(self).lexer.strs,
            final(self).cursor() == old(self).cursor() + 1,
    {
        proof {
            lemma_toks_len(self.words(), Seq::<Seq<char>>::empty());
        }
        let t = self.lexer.get_token();
        self.curr_token = t;
        self.idx = Ghost(self.idx@ + 1);
        proof {
            let words = self.words();
            if self.idx@ < words.len() {
                lemma_toks_index(words, Seq::<Seq<char>>::empty(), self.idx@);
            }
        }
    }

    /// Parse the whole token stream. On success the tree is exactly what
    /// the grammar gives; each failure carries the message of its kind.
    pub fn parse(&mut self) -> (r: Result<Option<Box<Tree>>, ParseError>)
        requires
            old(self).inv(),
        ensures
            final(self).inv(),
            final(self).lexer.strs == old(self).lexer.strs,
            match r {
                Ok(root) => {
                    &&& sparse_top(old(self).toks(), old(self).cursor()) matches Ok(t)
                        && root matches Some(tr) && wf_tree(*tr) && tree_view(*tr) == t
                    &&& final(self).cursor() == old(self).toks().len()
                },
                Err(e) => sparse_top(old(self).toks(), old(self).cursor()) matches Err(pe)
                    && e.message@ == perr_msg(pe),
            },
    {
        proof {
            lemma_toks_len(self.words(), Seq::<Seq<char>>::empty());
            lemma_toks_no_end(self.words(), Seq::<Seq<char>>::empty());
        }
        let root = match self.eval_expr() {
            Ok(root) => root,
            Err(e) => {
                return Err(e);
            },
        };
        match self.curr_token {
            Token::End => Ok(root),
            _ => Err(
                ParseError {
                    message: String::from_str("ParseError: Failed to create a parse tree."),
                },
            ),
        }
    }

    /// The `expr` production.
    fn eval_expr(&mut self) -> (r: Result<Option<Box<Tree>>, ParseError>)
        requires
            old(self).inv(),
        ensures
            final(self).inv(),
            final(self).lexer.strs == old(self).lexer.strs,
            old(self).cursor() <= final(self).cursor(),
            match r {
                Ok(root) => sparse_expr(old(self).toks(), old(self).cursor()) matches Ok((t, j))
                    && final(self).cursor() == j && (root matches Some(tr) && wf_tree(*tr)
                    && tree_view(*tr) == t),
                Err(e) => sparse_expr(old(self).toks(), old(self).cursor()) matches Err(pe)
                    && e.message@ == perr_msg(pe),
            },
        decreases old(self).remaining(), 3int,
    {
        let mut root = match self.eval_term() {
            Ok(root) => root,
            Err(e) => {
                return Err(e);
            },
        };
        let mut bin_op: Option<Operator> = None;
        match &self.curr_token {
            Token::Op(op) => {
                if *op == Operator::Or || *op == Operator::Nor || *op == Operator::Xor {
                    bin_op = Some(*op);
                }
            },
            _ => {},
        }
        match bin_op {
            Some(o) => {
                let token = Token::Op(o);
                self.advance();
                let right = match self.eval_expr() {
                    Ok(right) => right,
                    Err(e) => {
                        return Err(e);
                    },
                };
                root = Some(Box::new(Tree { token, left: root, right }));
                Ok(root)
            },
            None => Ok(root),
        }
    }

    /// The `term` production.
    fn eval_term(&mut self) -> (r: Result<Option<Box<Tree>>, ParseError>)
        requires
            old(self).inv(),
        ensures
            final(self).inv(),
            final(self).lexer.strs == old(self).lexer.strs,
            old(self).cursor() <= final(self).cursor(),
            match r {
                Ok(root) => sparse_term(old(self).toks(), old(self).cursor()) matches Ok((t, j))
                    && final(self).cursor() == j && (root matches Some(tr) && wf_tree(*tr)
                    && tree_view(*tr) == t),
                Err(e) => sparse_term(old(self).toks(), old(self).cursor()) matches Err(pe)
                    && e.message@ == perr_msg(pe),
            },
        decreases old(self).remaining(), 2int,
    {
        let mut root = match self.eval_factor() {
            Ok(root) => root,
            Err(e) => {
                return Err(e);
            },
        };
        let mut bin_op: Option<Operator> = None;
        match &self.curr_token {
            Token::Op(op) => {
                if *op == Operator::And || *op == Operator::Nand || *op == Operator::Is {
                    bin_op = Some(*op);
                }
            },
            _ => {},
        }
        match bin_op {
            Some(o) => {
                let token = Token::Op(o);
                self.advance();
                let right = match self.eval_term() {
                    Ok(right) => right,
                    Err(e) => {
                        return Err(e);
                    },
                };
                root = Some(Box::new(Tree { token, left: root, right }));
                Ok(root)
            },
            None => Ok(root),
        }
    }

    /// The `factor` production.
    fn eval_factor(&mut self) -> (r: Result<Option<Box<Tree>>, ParseError>)
        requires
            old(self).inv(),
        ensures
            final(self).inv(),
            final(self).lexer.strs == old(self).lexer.strs,
            old(self).cursor() <= final(self).cursor(),
            match r {
                Ok(root) => sparse_factor(old(self).toks(), old(self).cursor()) matches Ok((t, j))
                    && final(self).cursor() == j && (root matches Some(tr) && wf_tree(*tr)
                    && tree_view(*tr) == t),
                Err(e) => sparse_factor(old(self).toks(), old(self).cursor()) matches Err(pe)
                    && e.message@ == perr_msg(pe),
            },
        decreases old(self).remaining(), 1int,
    {
        let mut is_not: bool = false;
        match &self.curr_token {
            Token::Op(op) => {
                if *op == Operator::Not {
                    is_not = true;
                }
            },
            _ => {},
        }
        if is_not {
            let token = Token::Op(Operator::Not);
            self.advance();
            let prim = match self.eval_primary() {
                Ok(prim) => prim,
                Err(e) => {
                    return Err(e);
                },
            };
            Ok(Some(Box::new(Tree { token, left: prim, right: None })))
        } else {
            self.eval_primary()
        }
    }

    /// The `primary` production.
    fn eval_primary(&mut self) -> (r: Result<Option<Box<Tree>>, ParseError>)
        requires
            old(self).inv(),
        ensures
            final(self).inv(),
            final(self).lexer.strs == old(self).lexer.strs,
            old(self).cursor() <= final(self).cursor(),
            match r {
                Ok(root) => sparse_primary(old(self).toks(), old(self).cursor()) matches Ok(
                    (t, j),
                ) && final(self).cursor() == j && (root matches Some(tr) && wf_tree(*tr)
                    && tree_view(*tr) == t),
                Err(e) => sparse_primary(old(self).toks(), old(self).cursor()) matches Err(pe)
                    && e.message@ == perr_msg(pe),
            },
        decreases old(self).remaining(), 0int,
    {
        let mut leaf: Option<Token> = None;
        let mut is_lpar: bool = false;
        match &self.curr_token {
            Token::True => {
                leaf = Some(Token::True);
            },
            Token::False => {
                leaf = Some(Token::False);
            },
            Token::Var(name, n) => {
                leaf = Some(Token::Var(name.clone(), *n));
            },
            Token::Lpar => {
                is_lpar = true;
            },
            _ => {},
        }
        match leaf {
            Some(token) => {
                self.advance();
                Ok(Some(Box::new(Tree { token, left: None, right: None })))
            },
            None => {
                if is_lpar {
                    self.advance();
                    let inner = match self.eval_expr() {
                        Ok(inner) => inner,
                        Err(e) => {
                            return Err(e);
                        },
                    };
                    let mut is_rpar: bool = false;
                    match &self.curr_token {
                        Token::Rpar => {
                            is_rpar = true;
                        },
                        _ => {},
                    }
                    if is_rpar {
                        self.advance();
                        Ok(inner)
                    } else {
                        Err(
                            ParseError {
                                message: String::from_str("ParseError: Incorrect parenthese"),
                            },
                        )
                    }
                } else {
                    Err(ParseError { message: String::from_str("ParseError: Unknown token") })
                }
            },
        }
    }
}

} // verus!
