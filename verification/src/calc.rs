//! Evaluation of an expression tree over a boolean assignment,
//! enumeration of every assignment, and rendering of the truth table.

use crate::lexer::strip_ws;
use crate::lexer::toks_from;
use crate::lexer::vars_from;
use crate::lexer::GhostToken;
use crate::lexer::Lexer;
use crate::lexer::Operator;
use crate::lexer::Token;
use crate::lexer::spec_split;
use crate::parse::perr_msg;
use crate::parse::sparse_top;
use crate::parse::tree_vars_below;
use crate::parse::tree_view;
use crate::parse::wf_tree;
use crate::parse::PErr;
use crate::parse::ParseError;
use crate::parse::Parser;
use crate::parse::STree;
use crate::parse::Tree;
use vstd::arithmetic::power2::lemma_pow2_unfold;
use vstd::arithmetic::power2::pow2;
use vstd::prelude::*;
use vstd::string::StrSliceExecFns;

verus! {

/// The value of a binary connective. `Is` is material implication.
pub open spec fn apply_bin(op: Operator, x: bool, y: bool) -> bool {
    match op {
        Operator::Or => x || y,
        Operator::Nor => !(x || y),
        Operator::Xor => x != y,
        Operator::And => x && y,
        Operator::Nand => !(x && y),
        Operator::Is => !x || y,
        Operator::Not => false,
    }
}

/// The value of an expression tree under an assignment: variables are
/// looked up by index, literals are themselves, connectives combine
/// their children's values.
pub open spec fn seval(t: STree, a: Seq<bool>) -> bool
    decreases t,
{
    match t {
        STree::SVarT(n) => a[n],
        STree::SLit(b) => b,
        STree::SNot(x) => !seval(*x, a),
        STree::SBin(op, x, y) => apply_bin(op, seval(*x, a), seval(*y, a)),
    }
}

/// What applying a prefix operator to an optional value yields: only
/// negation of a present value succeeds.
pub open spec fn spec_calc_prefix(op: Operator, x: Option<bool>) -> Option<bool> {
    match x {
        Some(b) => if op == Operator::Not {
            Some(!b)
        } else {
            None
        },
        None => None,
    }
}

/// Apply a prefix operator to an optional operand.
pub fn calc_prefix(op: Operator, x: Option<bool>) -> (r: Option<bool>)
    ensures
        r == spec_calc_prefix(op, x),
{
    match x {
        Some(x) => match op {
            Operator::Not => Some(!x),
            _ => None,
        },
        None => None,
    }
}

/// What applying an infix operator to optional values yields: both
/// operands must be present and the operator must be binary.
pub open spec fn spec_calc_infix(op: Operator, x: Option<bool>, y: Option<bool>) -> Option<bool> {
    match (x, y) {
        (Some(a), Some(b)) => if op == Operator::Not {
            None
        } else {
            Some(apply_bin(op, a, b))
        },
        _ => None,
    }
}

/// Apply an infix operator to optional operands.
pub fn calc_infix(op: Operator, x: Option<bool>, y: Option<bool>) -> (r: Option<bool>)
    ensures
        r == spec_calc_infix(op, x, y),
{
    match (x, y) {
        (Some(x), Some(y)) => match op {
            Operator::Or => Some(x || y),
            Operator::Nor => Some(!(x || y)),
            Operator::Xor => Some(x != y),
            Operator::And => Some(x && y),
            Operator::Nand => Some(!(x && y)),
            Operator::Is => Some(!x || y),
            _ => None,
        },
        (_, _) => None,
    }
}

/// Evaluate a tree under one assignment vector. A well-formed tree with
/// variable indices inside the vector evaluates to exactly its ghost
/// meaning; an absent tree yields nothing.
pub fn calc(vec: &Vec<bool>, root: &Option<Box<Tree>>) -> (r: Option<bool>)
    requires
        match root {
            Some(t) => wf_tree(**t) && tree_vars_below(tree_view(**t), vec@.len() as int),
            None => true,
        },
    ensures
        r == match root {
            Some(t) => Some(seval(tree_view(**t), vec@)),
            None => None::<bool>,
        },
    decreases root,
{
    match root {
        Some(t) => match &t.token {
            Token::Var(_, n) => Some(vec[*n as usize]),
            Token::True => Some(true),
            Token::False => Some(false),
            Token::Op(op) => if *op == Operator::Not {
                calc_prefix(Operator::Not, calc(vec, &t.left))
            } else {
                calc_infix(*op, calc(vec, &t.left), calc(vec, &t.right))
            },
            _ => None,
        },
        None => None,
    }
}

/// Each assignment vector of `vs`, with `p` prepended.
pub open spec fn with_prefix(p: Seq<bool>, vs: Seq<Seq<bool>>) -> Seq<Seq<bool>> {
    vs.map_values(|v: Seq<bool>| p + v)
}

/// Every length-`n` assignment vector, in the fixed order that chooses
/// `true` before `false` at each position, first position outermost.
pub open spec fn enum_vecs(n: nat) -> Seq<Seq<bool>>
    decreases n,
{
    if n == 0 {
        seq![Seq::<bool>::empty()]
    } else {
        with_prefix(seq![true], enum_vecs((n - 1) as nat)) + with_prefix(
            seq![false],
            enum_vecs((n - 1) as nat),
        )
    }
}

/// Prepending nothing changes nothing.
pub proof fn lemma_with_prefix_empty(vs: Seq<Seq<bool>>)
    ensures
        with_prefix(Seq::<bool>::empty(), vs) == vs,
{
    assert forall|i: int| 0 <= i < vs.len() implies with_prefix(Seq::<bool>::empty(), vs)[i]
        == vs[i] by {
        assert(Seq::<bool>::empty() + vs[i] =~= vs[i]);
    }
    assert(with_prefix(Seq::<bool>::empty(), vs) =~= vs);
}

/// Prefixing distributes over concatenation of vector lists.
pub proof fn lemma_with_prefix_add(p: Seq<bool>, a: Seq<Seq<bool>>, b: Seq<Seq<bool>>)
    ensures
        with_prefix(p, a + b) == with_prefix(p, a) + with_prefix(p, b),
{
    assert forall|i: int| 0 <= i < a.len() + b.len() implies with_prefix(p, a + b)[i]
        == (with_prefix(p, a) + with_prefix(p, b))[i] by {
        if i < a.len() {
            assert((a + b)[i] == a[i]);
        } else {
            assert((a + b)[i] == b[i - a.len()]);
        }
    }
    assert(with_prefix(p, a + b) =~= with_prefix(p, a) + with_prefix(p, b));
}

/// Growing the prefix by one value is prefixing twice.
pub proof fn lemma_with_prefix_push(p: Seq<bool>, b: bool, vs: Seq<Seq<bool>>)
    ensures
        with_prefix(p.push(b), vs) == with_prefix(p, with_prefix(seq![b], vs)),
{
    assert forall|i: int| 0 <= i < vs.len() implies with_prefix(p.push(b), vs)[i] == with_prefix(
        p,
        with_prefix(seq![b], vs),
    )[i] by {
        assert(p.push(b) + vs[i] =~= p + (seq![b] + vs[i]));
    }
    assert(with_prefix(p.push(b), vs) =~= with_prefix(p, with_prefix(seq![b], vs)));
}

/// The enumeration has exactly two to the `n` rows, each of length `n`.
pub proof fn lemma_enum_vecs_shape(n: nat)
    ensures
        enum_vecs(n).len() == pow2(n),
        forall|i: int| 0 <= i < enum_vecs(n).len() ==> (#[trigger] enum_vecs(n)[i]).len() == n,
    decreases n,
{
    if n == 0 {
        vstd::arithmetic::power2::lemma2_to64();
    } else {
        lemma_enum_vecs_shape((n - 1) as nat);
        lemma_pow2_unfold(n);
        let e = enum_vecs((n - 1) as nat);
        assert forall|i: int| 0 <= i < enum_vecs(n).len() implies (#[trigger] enum_vecs(n)[i]).len()
            == n by {
            if i < e.len() {
                assert(enum_vecs(n)[i] == seq![true] + e[i]);
            } else {
                assert(enum_vecs(n)[i] == seq![false] + e[i - e.len()]);
            }
        }
    }
}

/// No assignment vector is enumerated twice.
pub proof fn lemma_enum_vecs_distinct(n: nat)
    ensures
        forall|i: int, j: int|
            0 <= i < j < enum_vecs(n).len() ==> enum_vecs(n)[i] != enum_vecs(n)[j],
    decreases n,
{
    if n == 0 {
    } else {
        let e = enum_vecs((n - 1) as nat);
        lemma_enum_vecs_distinct((n - 1) as nat);
        assert forall|i: int, j: int| 0 <= i < j < enum_vecs(n).len() implies enum_vecs(n)[i]
            != enum_vecs(n)[j] by {
            let a = enum_vecs(n)[i];
            let b = enum_vecs(n)[j];
            if i < e.len() {
                assert(a == seq![true] + e[i]);
                assert(a[0] == true);
                assert(a.drop_first() =~= e[i]);
            } else {
                assert(a == seq![false] + e[i - e.len()]);
                assert(a[0] == false);
                assert(a.drop_first() =~= e[i - e.len()]);
            }
            if j < e.len() {
                assert(b == seq![true] + e[j]);
                assert(b[0] == true);
                assert(b.drop_first() =~= e[j]);
            } else {
                assert(b == seq![false] + e[j - e.len()]);
                assert(b[0] == false);
                assert(b.drop_first() =~= e[j - e.len()]);
            }
        }
    }
}

/// Every length-`n` assignment vector is enumerated.
pub proof fn lemma_enum_vecs_complete(n: nat, v: Seq<bool>)
    requires
        v.len() == n,
    ensures
        enum_vecs(n).contains(v),
    decreases n,
{
    if n == 0 {
        assert(v =~= Seq::<bool>::empty());
        assert(enum_vecs(0)[0] == v);
    } else {
        lemma_enum_vecs_complete((n - 1) as nat, v.drop_first());
        let e = enum_vecs((n - 1) as nat);
        let k = choose|k: int| 0 <= k < e.len() && e[k] == v.drop_first();
        assert(seq![v[0]] + v.drop_first() =~= v);
        if v[0] {
            assert(enum_vecs(n)[k] == seq![true] + e[k]);
            assert(enum_vecs(n)[k] == v);
        } else {
            assert(enum_vecs(n)[k + e.len()] == seq![false] + e[k]);
            assert(enum_vecs(n)[k + e.len()] == v);
        }
    }
}

/// Fill every suffix combination of `vec` from position `len - n` on,
/// appending one snapshot of `vec` per combination to `vvec`, `true`
/// first at every position.
pub fn rec(vvec: &mut Vec<Vec<bool>>, vec: &mut Vec<bool>, n: usize, len: usize)
    requires
        n <= len,
        old(vec)@.len() == len,
    ensures
        final(vec)@.len() == len,
        final(vec)@.take(len - n) == old(vec)@.take(len - n),
        final(vvec).deep_view() == old(vvec).deep_view() + with_prefix(
            old(vec)@.take(len - n),
            enum_vecs(n as nat),
        ),
    decreases n,
{
    if n == 0 {
        let mut row: Vec<bool> = Vec::new();
        let mut i: usize = 0;
        while i < vec.len()
            invariant
                0 <= i <= vec@.len(),
                row@ == vec@.take(i as int),
            decreases vec@.len() - i,
        {
            row.push(vec[i]);
            proof {
                assert(vec@.take(i + 1) =~= vec@.take(i as int).push(vec@[i as int]));
            }
            i = i + 1;
        }
        proof {
            assert(vec@.take(vec@.len() as int) =~= vec@);
        }
        proof {
            assert(row.deep_view() =~= row@);
        }
        vvec.push(row);
        proof {
            assert(vec@.take(len - 0) =~= vec@);
            assert(with_prefix(vec@.take(len as int), enum_vecs(0))[0] == vec@.take(len as int)
                + Seq::<bool>::empty());
            assert(vec@.take(len as int) + Seq::<bool>::empty() =~= vec@);
            assert(vvec.deep_view() =~= old(vvec).deep_view() + with_prefix(
                old(vec)@.take(len - 0),
                enum_vecs(0),
            ));
        }
    } else {
        let ghost p = vec@.take(len - n);
        let ghost sub = enum_vecs((n - 1) as nat);
        vec.set(len - n, true);
        proof {
            assert(vec@.take(len - (n - 1)) =~= p.push(true));
            assert(vec@.take(len - n) =~= p);
        }
        rec(vvec, vec, n - 1, len);
        vec.set(len - n, false);
        proof {
            assert(vec@.take(len - (n - 1)) =~= p.push(false));
            assert(vec@.take(len - n) =~= p);
        }
        rec(vvec, vec, n - 1, len);
        proof {
            lemma_with_prefix_push(p, true, sub);
            lemma_with_prefix_push(p, false, sub);
            lemma_with_prefix_add(p, with_prefix(seq![true], sub), with_prefix(seq![false], sub));
            assert(final(vvec).deep_view() =~= old(vvec).deep_view() + with_prefix(
                p,
                enum_vecs(n as nat),
            ));
            assert(final(vec)@.take(len - n) =~= p);
        }
    }
}


/// The table digit of a boolean.
pub open spec fn bit_char(b: bool) -> char {
    if b {
        '1'
    } else {
        '0'
    }
}

/// `n` spaces.
pub open spec fn spaces(n: nat) -> Seq<char>
    decreases n,
{
    if n == 0 {
        Seq::empty()
    } else {
        spaces((n - 1) as nat).push(' ')
    }
}

/// The padding in front of a cell's digit: one less than the column
/// width, the length of the variable's name.
pub open spec fn pad_width(name: Seq<char>) -> nat {
    if name.len() == 0 {
        0
    } else {
        (name.len() - 1) as nat
    }
}

/// One table cell: a separator, padding, and the digit.
pub open spec fn cell(name: Seq<char>, b: bool) -> Seq<char> {
    seq!['|'] + spaces(pad_width(name)) + seq![bit_char(b)]
}

/// The first `k` header columns, one per variable name.
pub open spec fn header_cols(vars: Seq<Seq<char>>, k: int) -> Seq<char>
    decreases k,
{
    if k <= 0 {
        Seq::empty()
    } else {
        header_cols(vars, k - 1) + seq!['|'] + vars[k - 1]
    }
}

/// The first `k` cells of one row.
pub open spec fn row_cells(vars: Seq<Seq<char>>, row: Seq<bool>, k: int) -> Seq<char>
    decreases k,
{
    if k <= 0 {
        Seq::empty()
    } else {
        row_cells(vars, row, k - 1) + cell(vars[k - 1], row[k - 1])
    }
}

/// One rendered row: its cells, then the formula's value in the `f` column.
pub open spec fn row_str(vars: Seq<Seq<char>>, row: Seq<bool>, f: bool) -> Seq<char> {
    row_cells(vars, row, row.len() as int) + seq!['|', '|', bit_char(f), '|', '\n']
}

/// The first `k` rendered rows, each valued by evaluating the tree.
pub open spec fn rows_str(vars: Seq<Seq<char>>, rows: Seq<Seq<bool>>, t: STree, k: int) -> Seq<
    char,
>
    decreases k,
{
    if k <= 0 {
        Seq::empty()
    } else {
        rows_str(vars, rows, t, k - 1) + row_str(vars, rows[k - 1], seval(t, rows[k - 1]))
    }
}

/// The whole table: delimiter, the echoed formula, the header with one
/// column per variable plus the `f` column, and one row per assignment.
pub open spec fn spec_table(s: Seq<char>, vars: Seq<Seq<char>>, rows: Seq<Seq<bool>>, t: STree) -> Seq<
    char,
> {
    "```"@ + "input: "@ + s + seq!['\n'] + header_cols(vars, vars.len() as int) + seq![
        '|',
        '|',
        'f',
        '|',
        '\n',
    ] + rows_str(vars, rows, t, rows.len() as int) + "```"@
}

/// The raw tokens of a formula.
pub open spec fn spec_words(s: Seq<char>) -> Seq<Seq<char>> {
    spec_split(strip_ws(s))
}

/// The classified token stream of a formula.
pub open spec fn spec_tokens(s: Seq<char>) -> Seq<GhostToken> {
    toks_from(spec_words(s), Seq::empty())
}

/// The variable registry of a formula, in first-appearance order.
pub open spec fn spec_vars(s: Seq<char>) -> Seq<Seq<char>> {
    vars_from(spec_words(s), Seq::empty())
}

/// What a formula parses to: a blank formula is rejected outright,
/// anything else is handed to the grammar.
pub open spec fn spec_result(s: Seq<char>) -> Result<STree, PErr> {
    if strip_ws(s).len() == 0 {
        Err(PErr::Empty)
    } else {
        sparse_top(spec_tokens(s), 0)
    }
}

/// For a formula with `n` distinct variables, the table holds exactly
/// two to the `n` assignment rows, and each row assigns all `n`
/// variables, so each rendered row has one cell per variable and the
/// trailing `f` cell: `n + 1` columns.
pub proof fn lemma_table_shape(s: Seq<char>)
    ensures
        enum_vecs(spec_vars(s).len()).len() == pow2(spec_vars(s).len()),
        forall|i: int|
            0 <= i < enum_vecs(spec_vars(s).len()).len() ==> (#[trigger] enum_vecs(
                spec_vars(s).len(),
            )[i]).len() == spec_vars(s).len(),
{
    lemma_enum_vecs_shape(spec_vars(s).len());
}

/// Build the truth table of a formula: tokenize, parse, enumerate every
/// assignment of the variables, evaluate each, and render. Exactly the
/// formulas the grammar accepts yield a table; each rejected formula
/// yields the message of its failure.
pub fn make_truth_table(s: String) -> (r: Result<String, ParseError>)
    requires
        s@.len() <= i32::MAX as int,
    ensures
        match r {
            Ok(out) => spec_result(s@) matches Ok(t) && out@ == spec_table(
                s@,
                spec_vars(s@),
                enum_vecs(spec_vars(s@).len()),
                t,
            ),
            Err(e) => spec_result(s@) matches Err(pe) && e.message@ == perr_msg(pe),
        },
{
    if !crate::lexer::has_content(&s) {
        return Err(ParseError { message: String::from_str("ParseError: Empty formula.") });
    }
    let lexer = Lexer::new(s.clone());
    let mut parser = Parser::new(lexer);
    let ghost words = spec_words(s@);
    let ghost toks = spec_tokens(s@);
    proof {
        assert(parser.toks() == toks);
    }
    let root = match parser.parse() {
        Ok(root) => root,
        Err(e) => {
            return Err(e);
        },
    };
    let ghost t = tree_view(*root.unwrap());
    let ghost varsv = spec_vars(s@);
    let n: usize = parser.lexer.vnum as usize;
    proof {
        crate::lexer::lemma_toks_len(words, Seq::<Seq<char>>::empty());
        assert(parser.lexer.strs.deep_view().take(parser.lexer.position as int)
            =~= parser.lexer.strs.deep_view());
        assert(parser.lexer.vars.deep_view() == varsv);
        assert(n as int == varsv.len());
        crate::lexer::lemma_vars_from_no_dup(words, Seq::<Seq<char>>::empty());
        crate::lexer::lemma_toks_vars_in_registry(words, Seq::<Seq<char>>::empty());
        crate::parse::lemma_expr_vars_below(toks, 0, n as int);
        assert(tree_vars_below(t, n as int));
        lemma_enum_vecs_shape(n as nat);
    }
    let mut vec: Vec<bool> = Vec::new();
    let mut i: usize = 0;
    while i < n
        invariant
            0 <= i <= n,
            vec@.len() == i,
        decreases n - i,
    {
        vec.push(true);
        i = i + 1;
    }
    let mut vvec: Vec<Vec<bool>> = Vec::new();
    rec(&mut vvec, &mut vec, n, n);
    let ghost rows = vvec.deep_view();
    proof {
        lemma_with_prefix_empty(enum_vecs(n as nat));
        assert(Seq::<bool>::empty().is_prefix_of(Seq::<bool>::empty()));
        assert(rows =~= enum_vecs(n as nat));
        assert(rows == enum_vecs(varsv.len()));
    }
    let mut table = String::new();
    table.append("```");
    table.append("input: ");
    table.append(s.as_str());
    table.append("\n");
    proof {
        reveal_strlit("\n");
        assert("\n"@ =~= seq!['\n']);
    }
    let ghost head = "```"@ + "input: "@ + s@ + seq!['\n'];
    proof {
        assert(table@ =~= head);
    }
    let mut cnt: usize = 0;
    while cnt < parser.lexer.vars.len()
        invariant
            0 <= cnt <= parser.lexer.vars@.len(),
            parser.lexer.vars.deep_view() == varsv,
            varsv.len() == parser.lexer.vars@.len(),
            table@ == head + header_cols(varsv, cnt as int),
        decreases parser.lexer.vars@.len() - cnt,
    {
        table.append("|");
        table.append(parser.lexer.vars[cnt].as_str());
        proof {
            reveal_strlit("|");
            assert("|"@ =~= seq!['|']);
            assert(parser.lexer.vars@[cnt as int]@ == varsv[cnt as int]);
            assert(table@ =~= head + header_cols(varsv, cnt + 1));
        }
        cnt = cnt + 1;
    }
    table.append("||f|\n");
    proof {
        reveal_strlit("||f|\n");
        assert("||f|\n"@ =~= seq!['|', '|', 'f', '|', '\n']);
    }
    let ghost head2 = head + header_cols(varsv, varsv.len() as int) + seq!['|', '|', 'f', '|', '\n'];
    proof {
        assert(table@ =~= head2);
    }
    let mut ri: usize = 0;
    while ri < vvec.len()
        invariant
            0 <= ri <= vvec@.len(),
            vvec.deep_view() == rows,
            rows.len() == vvec@.len(),
            parser.lexer.vars.deep_view() == varsv,
            n as int == varsv.len(),
            n == parser.lexer.vars@.len(),
            forall|q: int| 0 <= q < rows.len() ==> (#[trigger] rows[q]).len() == n,
            root matches Some(tr) && wf_tree(*tr) && tree_view(*tr) == t,
            tree_vars_below(t, n as int),
            table@ == head2 + rows_str(varsv, rows, t, ri as int),
        decreases vvec@.len() - ri,
    {
        let row: &Vec<bool> = &vvec[ri];
        proof {
            assert(row@ == rows[ri as int]);
            assert(row@.len() == n);
        }
        let ghost rowpre = head2 + rows_str(varsv, rows, t, ri as int);
        let mut cnt: usize = 0;
        while cnt < row.len()
            invariant
                0 <= cnt <= row@.len(),
                row@.len() == n,
                row@ == rows[ri as int],
                0 <= ri < rows.len(),
                parser.lexer.vars.deep_view() == varsv,
                n as int == varsv.len(),
                n == parser.lexer.vars@.len(),
                table@ == rowpre + row_cells(varsv, row@, cnt as int),
            decreases row@.len() - cnt,
        {
            table.append("|");
            proof {
                reveal_strlit("|");
                assert("|"@ =~= seq!['|']);
            }
            let ghost cellpre = rowpre + row_cells(varsv, row@, cnt as int) + seq!['|'];
            proof {
                assert(table@ =~= cellpre);
            }
            let vname: &String = &parser.lexer.vars[cnt];
            let vstr: &str = vname.as_str();
            let name_len: usize = vstr.unicode_len();
            proof {
                assert(parser.lexer.vars@[cnt as int]@ == varsv[cnt as int]);
                assert(vstr@ == varsv[cnt as int]);
                assert(name_len == varsv[cnt as int].len());
            }
            let mut k: usize = 1;
            while k < name_len
                invariant
                    1 <= k,
                    k <= name_len || k == 1,
                    k - 1 <= pad_width(varsv[cnt as int]),
                    name_len == varsv[cnt as int].len(),
                    0 <= cnt < varsv.len(),
                    table@ == cellpre + spaces((k - 1) as nat),
                decreases name_len - k,
            {
                table.append(" ");
                proof {
                    reveal_strlit(" ");
                    assert(" "@ =~= seq![' ']);
                    assert(cellpre + spaces((k - 1) as nat) + " "@ =~= cellpre + spaces(k as nat));
                }
                k = k + 1;
            }
            proof {
                assert(spaces((k - 1) as nat) == spaces(pad_width(varsv[cnt as int])));
            }
            if row[cnt] {
                table.append("1");
                proof {
                    reveal_strlit("1");
                    assert("1"@ =~= seq!['1']);
                }
            } else {
                table.append("0");
                proof {
                    reveal_strlit("0");
                    assert("0"@ =~= seq!['0']);
                }
            }
            proof {
                assert(table@ =~= cellpre + spaces(pad_width(varsv[cnt as int])) + seq![
                    bit_char(row@[cnt as int]),
                ]);
                assert(cellpre + spaces(pad_width(varsv[cnt as int])) + seq![
                    bit_char(row@[cnt as int]),
                ] =~= rowpre + row_cells(varsv, row@, cnt + 1));
            }
            cnt = cnt + 1;
        }
        let v = calc(row, &root);
        let fb: bool = match v {
            Some(b) => b,
            None => false,
        };
        proof {
            assert(fb == seval(t, row@));
        }
        table.append("||");
        if fb {
            table.append("1");
            proof {
                reveal_strlit("1");
                assert("1"@ =~= seq!['1']);
            }
        } else {
            table.append("0");
            proof {
                reveal_strlit("0");
                assert("0"@ =~= seq!['0']);
            }
        }
        table.append("|\n");
        proof {
            reveal_strlit("||");
            reveal_strlit("|\n");
            assert("||"@ =~= seq!['|', '|']);
            assert("|\n"@ =~= seq!['|', '\n']);
            assert(table@ =~= rowpre + row_cells(varsv, row@, row@.len() as int) + seq![
                '|',
                '|',
                bit_char(fb),
                '|',
                '\n',
            ]);
            assert(table@ =~= head2 + rows_str(varsv, rows, t, ri + 1));
        }
        ri = ri + 1;
    }
    table.append("```");
    proof {
        assert(table@ =~= spec_table(s@, varsv, rows, t));
    }
    Ok(table)
}

} // verus!
