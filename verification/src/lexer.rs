//! Tokenization: splitting a formula string into raw tokens and
//! classifying them, with a first-appearance registry of variable names.

use vstd::prelude::*;

verus! {

/// The connectives of the grammar. `Is` is material implication.
#[derive(Debug, Clone, Copy, PartialEq, Eq, Structural)]
pub enum Operator {
    And,
    Nand,
    Or,
    Nor,
    Xor,
    Not,
    Is,
}

/// A classified token. A variable carries its name and its index in the
/// first-appearance registry.
#[derive(Debug, Clone)]
pub enum Token {
    Var(String, i32),
    Op(Operator),
    True,
    False,
    Rpar,
    Lpar,
    End,
    Error,
}

/// The ghost counterpart of `Token`: a variable is reduced to its index.
pub enum GhostToken {
    GVar(int),
    GOp(Operator),
    GTrue,
    GFalse,
    GRpar,
    GLpar,
    GEnd,
    GErr,
}

/// The ghost meaning of an executable token.
pub open spec fn tok_view(t: Token) -> GhostToken {
    match t {
        Token::Var(_, n) => GhostToken::GVar(n as int),
        Token::Op(op) => GhostToken::GOp(op),
        Token::True => GhostToken::GTrue,
        Token::False => GhostToken::GFalse,
        Token::Rpar => GhostToken::GRpar,
        Token::Lpar => GhostToken::GLpar,
        Token::End => GhostToken::GEnd,
        Token::Error => GhostToken::GErr,
    }
}

/// The whitespace characters removed before splitting: exactly the ASCII
/// whitespace characters.
pub open spec fn is_ws_char(c: char) -> bool {
    c == ' ' || c == '\t' || c == '\n' || c == '\r' || c == '\u{c}'
}

/// A formula with its whitespace removed.
pub open spec fn strip_ws(s: Seq<char>) -> Seq<char> {
    s.filter(|c: char| !is_ws_char(c))
}

/// Character classes for raw splitting: lowercase letters (0), uppercase
/// letters and digits (1), punctuation that always stands alone (2),
/// everything else (3).
pub open spec fn spec_charkind(c: char) -> int {
    if 'a' <= c && c <= 'z' {
        0
    } else if ('A' <= c && c <= 'Z') || ('0' <= c && c <= '9') {
        1
    } else if c == '(' || c == ')' || c == '~' || c == '!' {
        2
    } else {
        3
    }
}

/// Raw splitting: partition a whitespace-free character stream into
/// maximal runs of one character class, except that class-2 punctuation
/// is always a token of its own.
pub open spec fn spec_split(cs: Seq<char>) -> Seq<Seq<char>>
    decreases cs.len(),
{
    if cs.len() == 0 {
        Seq::empty()
    } else if cs.len() == 1 {
        seq![cs]
    } else {
        let rest = spec_split(cs.drop_last());
        let c = cs.last();
        let prev = cs[cs.len() - 2];
        if spec_charkind(prev) == spec_charkind(c) && spec_charkind(c) != 2 {
            rest.update(rest.len() - 1, rest.last().push(c))
        } else {
            rest.push(seq![c])
        }
    }
}

pub type Charkind = u8;

/// The character class used by raw splitting.
pub fn match_charkind(c: &char) -> (k: Charkind)
    ensures
        k as int == spec_charkind(*c),
{
    let c = *c;
    if 'a' <= c && c <= 'z' {
        0
    } else if ('A' <= c && c <= 'Z') || ('0' <= c && c <= '9') {
        1
    } else if c == '(' || c == ')' || c == '~' || c == '!' {
        2
    } else {
        3
    }
}

/// Relies on std's `String::push`: appends one character at the end.
#[verifier::external_body]
fn push_char(s: &mut String, c: char)
    ensures
        final(s)@ == old(s)@.push(c),
{
    s.push(c)
}

/// Every group produced by raw splitting is non-empty.
pub proof fn lemma_split_groups_nonempty(cs: Seq<char>)
    ensures
        forall|i: int| 0 <= i < spec_split(cs).len() ==> #[trigger] spec_split(cs)[i].len() > 0,
        spec_split(cs).len() <= cs.len(),
        cs.len() > 0 ==> spec_split(cs).len() > 0,
    decreases cs.len(),
{
    if cs.len() <= 1 {
    } else {
        lemma_split_groups_nonempty(cs.drop_last());
    }
}

/// Split a whitespace-free non-empty character stream into raw tokens.
fn split_chars(cs: &Vec<char>) -> (r: Vec<String>)
    requires
        cs@.len() > 0,
    ensures
        r.deep_view() == spec_split(cs@),
{
    let mut strs: Vec<String> = Vec::new();
    let mut first = String::new();
    push_char(&mut first, cs[0]);
    strs.push(first);
    let mut prev: Charkind = match_charkind(&cs[0]);
    let mut i: usize = 1;
    proof {
        assert(cs@.take(1) =~= seq![cs@[0]]);
        assert(strs.deep_view() =~= spec_split(cs@.take(1)));
    }
    while i < cs.len()
        invariant
            1 <= i <= cs@.len(),
            strs.deep_view() == spec_split(cs@.take(i as int)),
            strs@.len() > 0,
            prev as int == spec_charkind(cs@[i - 1]),
        decreases cs@.len() - i,
    {
        let c = cs[i];
        let k = match_charkind(&c);
        proof {
            assert(cs@.take(i + 1).drop_last() =~= cs@.take(i as int));
            assert(cs@.take(i + 1).last() == cs@[i as int]);
            assert(cs@.take(i + 1)[i - 1] == cs@[i - 1]);
            lemma_split_groups_nonempty(cs@.take(i as int));
        }
        if prev != 2 && prev == k {
            let mut last = strs.pop().unwrap();
            push_char(&mut last, c);
            strs.push(last);
            proof {
                let old_split = spec_split(cs@.take(i as int));
                assert(strs.deep_view() =~= old_split.update(
                    old_split.len() - 1,
                    old_split.last().push(c),
                ));
            }
        } else {
            let mut fresh = String::new();
            push_char(&mut fresh, c);
            strs.push(fresh);
            proof {
                let old_split = spec_split(cs@.take(i as int));
                assert(strs.deep_view() =~= old_split.push(seq![cs@[i as int]]));
            }
        }
        prev = k;
        i = i + 1;
    }
    proof {
        assert(cs@.take(cs@.len() as int) =~= cs@);
    }
    strs
}

/// Remove all whitespace characters from a string.
fn strip_chars(s: &String) -> (r: Vec<char>)
    ensures
        r@ == strip_ws(s@),
{
    let st: &str = s.as_str();
    let n = st.unicode_len();
    let mut out: Vec<char> = Vec::new();
    let mut i: usize = 0;
    proof {
        assert(st@.take(0) =~= Seq::<char>::empty());
        assert(out@ =~= strip_ws(st@.take(0)));
    }
    while i < n
        invariant
            0 <= i <= n,
            n == st@.len(),
            st@ == s@,
            out@ == strip_ws(st@.take(i as int)),
        decreases n - i,
    {
        let c = st.get_char(i);
        proof {
            assert(st@.take(i + 1).drop_last() =~= st@.take(i as int));
            assert(st@.take(i + 1).last() == st@[i as int]);
            reveal_with_fuel(Seq::filter, 2);
        }
        let ws = c == ' ' || c == '\t' || c == '\n' || c == '\r' || c == '\u{c}';
        if !ws {
            out.push(c);
        }
        i = i + 1;
    }
    proof {
        assert(st@.take(st@.len() as int) =~= st@);
    }
    out
}

/// The index a variable name receives: the position of its first
/// occurrence in the registry, or the registry's length if it is new.
pub open spec fn var_index(vars: Seq<Seq<char>>, w: Seq<char>) -> int
    decreases vars.len(),
{
    if vars.len() == 0 {
        0
    } else if vars[0] == w {
        0
    } else {
        1 + var_index(vars.drop_first(), w)
    }
}

/// Whether a raw token is one of the reserved words or symbols; anything
/// else is a variable name.
pub open spec fn is_reserved(w: Seq<char>) -> bool {
    ||| w == "("@
    ||| w == ")"@
    ||| w == "TRUE"@
    ||| w == "1"@
    ||| w == "FALSE"@
    ||| w == "0"@
    ||| w == "and"@
    ||| w == "*"@
    ||| w == "nand"@
    ||| w == "or"@
    ||| w == "+"@
    ||| w == "nor"@
    ||| w == "xor"@
    ||| w == "is"@
    ||| w == "->"@
    ||| w == "~"@
    ||| w == "!"@
}

/// Classification of one raw token against the current registry.
pub open spec fn classify(w: Seq<char>, vars: Seq<Seq<char>>) -> GhostToken {
    if w == "("@ {
        GhostToken::GLpar
    } else if w == ")"@ {
        GhostToken::GRpar
    } else if w == "TRUE"@ || w == "1"@ {
        GhostToken::GTrue
    } else if w == "FALSE"@ || w == "0"@ {
        GhostToken::GFalse
    } else if w == "and"@ || w == "*"@ {
        GhostToken::GOp(Operator::And)
    } else if w == "nand"@ {
        GhostToken::GOp(Operator::Nand)
    } else if w == "or"@ || w == "+"@ {
        GhostToken::GOp(Operator::Or)
    } else if w == "nor"@ {
        GhostToken::GOp(Operator::Nor)
    } else if w == "xor"@ {
        GhostToken::GOp(Operator::Xor)
    } else if w == "is"@ || w == "->"@ {
        GhostToken::GOp(Operator::Is)
    } else if w == "~"@ || w == "!"@ {
        GhostToken::GOp(Operator::Not)
    } else {
        GhostToken::GVar(var_index(vars, w))
    }
}

/// The registry after one raw token has been consumed: a new variable
/// name is appended, everything else leaves it unchanged.
pub open spec fn vars_after(vars: Seq<Seq<char>>, w: Seq<char>) -> Seq<Seq<char>> {
    if !is_reserved(w) && !vars.contains(w) {
        vars.push(w)
    } else {
        vars
    }
}

/// The token stream of a sequence of raw tokens, starting from a given
/// registry.
pub open spec fn toks_from(words: Seq<Seq<char>>, vars: Seq<Seq<char>>) -> Seq<GhostToken>
    decreases words.len(),
{
    if words.len() == 0 {
        Seq::empty()
    } else {
        seq![classify(words[0], vars)] + toks_from(
            words.drop_first(),
            vars_after(vars, words[0]),
        )
    }
}

/// The registry after a sequence of raw tokens has been consumed.
pub open spec fn vars_from(words: Seq<Seq<char>>, vars: Seq<Seq<char>>) -> Seq<Seq<char>>
    decreases words.len(),
{
    if words.len() == 0 {
        vars
    } else {
        vars_from(words.drop_first(), vars_after(vars, words[0]))
    }
}

/// Split a formula into raw tokens: whitespace is removed, then the
/// remaining characters are partitioned into maximal same-class runs.
pub fn format_string(s: String) -> (r: Vec<String>)
    requires
        strip_ws(s@).len() > 0,
    ensures
        r.deep_view() == spec_split(strip_ws(s@)),
{
    let cs = strip_chars(&s);
    split_chars(&cs)
}

/// Whether a formula holds any non-whitespace character.
pub(crate) fn has_content(s: &String) -> (b: bool)
    ensures
        b == (strip_ws(s@).len() > 0),
{
    let cs = strip_chars(s);
    cs.len() > 0
}

/// If `w` first occurs in the registry at position `i`, that is its index.
pub proof fn lemma_var_index_found(vars: Seq<Seq<char>>, w: Seq<char>, i: int)
    requires
        0 <= i < vars.len(),
        vars[i] == w,
        forall|j: int| 0 <= j < i ==> vars[j] != w,
    ensures
        var_index(vars, w) == i,
    decreases i,
{
    if i == 0 {
    } else {
        assert(vars[0] != w);
        assert(vars.drop_first()[i - 1] == vars[i]);
        assert forall|j: int| 0 <= j < i - 1 implies vars.drop_first()[j] != w by {
            assert(vars.drop_first()[j] == vars[j + 1]);
        }
        lemma_var_index_found(vars.drop_first(), w, i - 1);
    }
}

/// A name absent from the registry gets the next index, the registry's length.
pub proof fn lemma_var_index_absent(vars: Seq<Seq<char>>, w: Seq<char>)
    requires
        forall|j: int| 0 <= j < vars.len() ==> vars[j] != w,
    ensures
        var_index(vars, w) == vars.len(),
        !vars.contains(w),
    decreases vars.len(),
{
    if vars.len() == 0 {
    } else {
        assert forall|j: int| 0 <= j < vars.drop_first().len() implies vars.drop_first()[j] != w by {
            assert(vars.drop_first()[j] == vars[j + 1]);
        }
        lemma_var_index_absent(vars.drop_first(), w);
    }
}

/// Consuming one more raw token updates the registry by `vars_after`.
pub proof fn lemma_vars_from_snoc(words: Seq<Seq<char>>, vars: Seq<Seq<char>>)
    requires
        words.len() > 0,
    ensures
        vars_from(words, vars) == vars_after(vars_from(words.drop_last(), vars), words.last()),
    decreases words.len(),
{
    if words.len() == 1 {
        assert(words.drop_last() =~= Seq::<Seq<char>>::empty());
        assert(words.drop_first() =~= Seq::<Seq<char>>::empty());
        assert(words.last() == words[0]);
        assert(vars_from(words, vars) == vars_from(words.drop_first(), vars_after(vars, words[0])));
        assert(vars_from(Seq::<Seq<char>>::empty(), vars_after(vars, words[0])) == vars_after(
            vars,
            words[0],
        ));
        assert(vars_from(Seq::<Seq<char>>::empty(), vars) == vars);
    } else {
        let tail = words.drop_first();
        let va0 = vars_after(vars, words[0]);
        lemma_vars_from_snoc(tail, va0);
        assert(tail.drop_last() =~= words.drop_last().drop_first());
        assert(tail.last() == words.last());
        assert(words.drop_last()[0] == words[0]);
        assert(vars_from(words, vars) == vars_from(tail, va0));
        assert(vars_from(words.drop_last(), vars) == vars_from(
            words.drop_last().drop_first(),
            vars_after(vars, words.drop_last()[0]),
        ));
    }
}

/// The registry only grows, by at most one name per raw token, and the
/// old registry stays a prefix of the new one.
pub proof fn lemma_vars_from_len(words: Seq<Seq<char>>, vars: Seq<Seq<char>>)
    ensures
        vars.len() <= vars_from(words, vars).len() <= vars.len() + words.len(),
        vars.is_prefix_of(vars_from(words, vars)),
    decreases words.len(),
{
    if words.len() == 0 {
    } else {
        lemma_vars_from_len(words.drop_first(), vars_after(vars, words[0]));
        assert(vars.is_prefix_of(vars_after(vars, words[0])));
    }
}

/// One classified token per raw token.
pub proof fn lemma_toks_len(words: Seq<Seq<char>>, vars: Seq<Seq<char>>)
    ensures
        toks_from(words, vars).len() == words.len(),
    decreases words.len(),
{
    if words.len() == 0 {
    } else {
        lemma_toks_len(words.drop_first(), vars_after(vars, words[0]));
    }
}

/// The token at position `k` is the classification of the `k`-th raw
/// token against the registry built from the raw tokens before it.
pub proof fn lemma_toks_index(words: Seq<Seq<char>>, vars: Seq<Seq<char>>, k: int)
    requires
        0 <= k < words.len(),
    ensures
        toks_from(words, vars)[k] == classify(words[k], vars_from(words.take(k), vars)),
    decreases k,
{
    lemma_toks_len(words, vars);
    let va0 = vars_after(vars, words[0]);
    if k == 0 {
        assert(words.take(0) =~= Seq::<Seq<char>>::empty());
    } else {
        lemma_toks_index(words.drop_first(), va0, k - 1);
        lemma_toks_len(words.drop_first(), va0);
        assert(words.drop_first()[k - 1] == words[k]);
        assert(words.take(k)[0] == words[0]);
        assert(words.take(k).drop_first() =~= words.drop_first().take(k - 1));
        assert(vars_from(words.take(k), vars) == vars_from(
            words.take(k).drop_first(),
            vars_after(vars, words.take(k)[0]),
        ));
    }
}

/// A name present in the registry is indexed at its first occurrence.
pub proof fn lemma_var_index_contains(vars: Seq<Seq<char>>, w: Seq<char>)
    requires
        vars.contains(w),
    ensures
        0 <= var_index(vars, w) < vars.len(),
        vars[var_index(vars, w)] == w,
    decreases vars.len(),
{
    if vars.len() == 0 {
    } else if vars[0] == w {
    } else {
        let j = choose|j: int| 0 <= j < vars.len() && vars[j] == w;
        assert(vars.drop_first()[j - 1] == vars[j]);
        assert(vars.drop_first().contains(w));
        lemma_var_index_contains(vars.drop_first(), w);
        assert(vars[1 + var_index(vars.drop_first(), w)] == vars.drop_first()[var_index(
            vars.drop_first(),
            w,
        )]);
    }
}

/// Consuming raw tokens in two stages gives the same registry.
pub proof fn lemma_vars_from_split(words: Seq<Seq<char>>, vars: Seq<Seq<char>>, k: int)
    requires
        0 <= k <= words.len(),
    ensures
        vars_from(words, vars) == vars_from(words.skip(k), vars_from(words.take(k), vars)),
    decreases k,
{
    if k == 0 {
        assert(words.take(0) =~= Seq::<Seq<char>>::empty());
        assert(words.skip(0) =~= words);
    } else {
        let va0 = vars_after(vars, words[0]);
        lemma_vars_from_split(words.drop_first(), va0, k - 1);
        assert(words.skip(k) =~= words.drop_first().skip(k - 1));
        assert(words.take(k)[0] == words[0]);
        assert(words.take(k).drop_first() =~= words.drop_first().take(k - 1));
        assert(vars_from(words.take(k), vars) == vars_from(
            words.take(k).drop_first(),
            vars_after(vars, words.take(k)[0]),
        ));
    }
}

/// Distinct names stay distinct as the registry grows.
pub proof fn lemma_vars_from_no_dup(words: Seq<Seq<char>>, vars: Seq<Seq<char>>)
    requires
        vars.no_duplicates(),
    ensures
        vars_from(words, vars).no_duplicates(),
    decreases words.len(),
{
    if words.len() == 0 {
    } else {
        let va0 = vars_after(vars, words[0]);
        assert(va0.no_duplicates());
        lemma_vars_from_no_dup(words.drop_first(), va0);
    }
}

/// Variable indices follow first-appearance order: the index carried by
/// the variable token for the `k`-th raw token is the position of that
/// raw token's text in the final registry, which lists each distinct
/// variable name once, in order of first appearance.
pub proof fn lemma_var_token_name(words: Seq<Seq<char>>, vars: Seq<Seq<char>>, k: int)
    requires
        vars.no_duplicates(),
        0 <= k < words.len(),
    ensures
        toks_from(words, vars)[k] matches GhostToken::GVar(i) ==> 0 <= i < vars_from(
            words,
            vars,
        ).len() && vars_from(words, vars)[i] == words[k],
{
    lemma_toks_index(words, vars, k);
    let w = words[k];
    let vars_k = vars_from(words.take(k), vars);
    let fin = vars_from(words, vars);
    lemma_vars_from_split(words, vars, k);
    match toks_from(words, vars)[k] {
        GhostToken::GVar(i) => {
            assert(i == var_index(vars_k, w));
            assert(!is_reserved(w));
            if vars_k.contains(w) {
                lemma_var_index_contains(vars_k, w);
                lemma_vars_from_len(words.skip(k), vars_k);
                assert(fin[i] == vars_k[i]);
            } else {
                lemma_var_index_absent_of_contains(vars_k, w);
                assert(words.skip(k).len() > 0);
                assert(words.skip(k)[0] == w);
                let pushed = vars_after(vars_k, w);
                assert(pushed == vars_k.push(w));
                assert(vars_from(words.skip(k), vars_k) == vars_from(
                    words.skip(k).drop_first(),
                    pushed,
                ));
                lemma_vars_from_len(words.skip(k).drop_first(), pushed);
                assert(pushed.is_prefix_of(fin));
                assert(fin[i] == pushed[i]);
            }
        },
        _ => {},
    }
}

/// A name nowhere in the registry is indexed at the registry's length.
pub proof fn lemma_var_index_absent_of_contains(vars: Seq<Seq<char>>, w: Seq<char>)
    requires
        !vars.contains(w),
    ensures
        var_index(vars, w) == vars.len(),
    decreases vars.len(),
{
    if vars.len() == 0 {
    } else {
        assert(vars[0] != w);
        assert forall|j: int| 0 <= j < vars.drop_first().len() implies vars.drop_first()[j]
            != w by {
            assert(vars.drop_first()[j] == vars[j + 1]);
        }
        lemma_var_index_absent(vars.drop_first(), w);
    }
}

/// Every variable token's index lies inside the final registry.
pub proof fn lemma_toks_vars_in_registry(words: Seq<Seq<char>>, vars: Seq<Seq<char>>)
    requires
        vars.no_duplicates(),
    ensures
        forall|k: int|
            0 <= k < toks_from(words, vars).len() ==> ((#[trigger] toks_from(words, vars)[k])
                matches GhostToken::GVar(i) ==> 0 <= i < vars_from(words, vars).len()),
{
    lemma_toks_len(words, vars);
    assert forall|k: int| 0 <= k < toks_from(words, vars).len() implies ((#[trigger] toks_from(
        words,
        vars,
    )[k]) matches GhostToken::GVar(i) ==> 0 <= i < vars_from(words, vars).len()) by {
        lemma_var_token_name(words, vars, k);
    }
}

/// Classification never produces the end marker or the error token.
pub proof fn lemma_toks_no_end(words: Seq<Seq<char>>, vars: Seq<Seq<char>>)
    ensures
        forall|k: int|
            0 <= k < toks_from(words, vars).len() ==> #[trigger] toks_from(words, vars)[k]
                != GhostToken::GEnd && toks_from(words, vars)[k] != GhostToken::GErr,
    decreases words.len(),
{
    if words.len() == 0 {
    } else {
        let va0 = vars_after(vars, words[0]);
        lemma_toks_no_end(words.drop_first(), va0);
        assert forall|k: int| 0 <= k < toks_from(words, vars).len() implies #[trigger] toks_from(
            words,
            vars,
        )[k] != GhostToken::GEnd && toks_from(words, vars)[k] != GhostToken::GErr by {
            if k > 0 {
                assert(toks_from(words, vars)[k] == toks_from(words.drop_first(), va0)[k - 1]);
            }
        }
    }
}

/// The tokenizer's state: the raw tokens, a cursor, and the registry of
/// variable names in first-appearance order.
#[derive(Debug, Clone)]
pub struct Lexer {
    pub strs: Vec<String>,
    pub position: usize,
    pub vars: Vec<String>,
    pub vnum: i32,
}

impl Lexer {
    /// The cursor is in range, the variable count matches the registry,
    /// and the registry is exactly what consuming the raw tokens before
    /// the cursor produces.
    pub open spec fn wf(self) -> bool {
        &&& self.position <= self.strs@.len()
        &&& self.vnum as int == self.vars@.len()
        &&& self.vars@.len() <= self.position
        &&& self.strs@.len() <= i32::MAX as int
        &&& self.vars.deep_view() == vars_from(
            self.strs.deep_view().take(self.position as int),
            Seq::empty(),
        )
    }

    /// Build a tokenizer over the raw tokens of a formula.
    pub fn new(s: String) -> (l: Lexer)
        requires
            strip_ws(s@).len() > 0,
            s@.len() <= i32::MAX as int,
        ensures
            l.wf(),
            l.position == 0,
            l.vars@.len() == 0,
            l.strs.deep_view() == spec_split(strip_ws(s@)),
    {
        proof {
            lemma_split_groups_nonempty(strip_ws(s@));
            s@.lemma_filter_len(|c: char| !is_ws_char(c));
        }
        let l = Lexer { strs: format_string(s), position: 0, vars: Vec::new(), vnum: 0 };
        proof {
            assert(l.strs.deep_view().take(0) =~= Seq::<Seq<char>>::empty());
            assert(l.vars.deep_view() =~= Seq::<Seq<char>>::empty());
            assert(l.strs@.len() == l.strs.deep_view().len());
        }
        l
    }

    /// Classify and return the raw token under the cursor, advancing it;
    /// once the raw tokens are exhausted, return `End` forever. A raw
    /// token that is no reserved word or symbol is a variable: an already
    /// seen name reuses its index, a new name is appended to the registry
    /// with the next index.
    pub fn get_token(&mut self) -> (t: Token)
        requires
            old(self).wf(),
        ensures
            final(self).wf(),
            final(self).strs == old(self).strs,
            old(self).position == old(self).strs@.len() ==> *final(self) == *old(self)
                && tok_view(t) == GhostToken::GEnd,
            old(self).position < old(self).strs@.len() ==> {
                let w = old(self).strs.deep_view()[old(self).position as int];
                let oldvars = old(self).vars.deep_view();
                &&& final(self).position == old(self).position + 1
                &&& tok_view(t) == classify(w, oldvars)
                &&& final(self).vars.deep_view() == vars_after(oldvars, w)
                &&& (t matches Token::Var(name, _) ==> name@ == w)
            },
    {
        if self.position == self.strs.len() {
            return Token::End;
        }
        let ghost oldvars = self.vars.deep_view();
        let ghost w = self.strs.deep_view()[self.position as int];
        let cur: String = self.strs[self.position].clone();
        let token: Token;
        if eq_lit(&cur, "(") {
            token = Token::Lpar;
        } else if eq_lit(&cur, ")") {
            token = Token::Rpar;
        } else if eq_lit(&cur, "TRUE") || eq_lit(&cur, "1") {
            token = Token::True;
        } else if eq_lit(&cur, "FALSE") || eq_lit(&cur, "0") {
            token = Token::False;
        } else if eq_lit(&cur, "and") || eq_lit(&cur, "*") {
            token = Token::Op(Operator::And);
        } else if eq_lit(&cur, "nand") {
            token = Token::Op(Operator::Nand);
        } else if eq_lit(&cur, "or") || eq_lit(&cur, "+") {
            token = Token::Op(Operator::Or);
        } else if eq_lit(&cur, "nor") {
            token = Token::Op(Operator::Nor);
        } else if eq_lit(&cur, "xor") {
            token = Token::Op(Operator::Xor);
        } else if eq_lit(&cur, "is") || eq_lit(&cur, "->") {
            token = Token::Op(Operator::Is);
        } else if eq_lit(&cur, "~") || eq_lit(&cur, "!") {
            token = Token::Op(Operator::Not);
        } else {
            let mut i: usize = 0;
            let mut found: bool = false;
            while i < self.vars.len() && !found
                invariant
                    0 <= i <= self.vars@.len(),
                    found ==> i < self.vars@.len() && self.vars.deep_view()[i as int] == cur@,
                    !found ==> forall|j: int|
                        0 <= j < i ==> self.vars.deep_view()[j] != cur@,
                    found ==> forall|j: int| 0 <= j < i ==> self.vars.deep_view()[j] != cur@,
                decreases self.vars@.len() - i + (if found { 0int } else { 1int }),
            {
                if self.vars[i] == cur {
                    found = true;
                } else {
                    i = i + 1;
                }
            }
            if found {
                proof {
                    lemma_var_index_found(oldvars, cur@, i as int);
                    assert(oldvars.contains(cur@));
                }
                token = Token::Var(self.vars[i].clone(), i as i32);
            } else {
                proof {
                    lemma_var_index_absent(oldvars, cur@);
                }
                token = Token::Var(cur.clone(), self.vnum);
                self.vars.push(cur);
                self.vnum = self.vnum + 1;
                proof {
                    assert(self.vars.deep_view() =~= oldvars.push(w));
                }
            }
        }
        self.position = self.position + 1;
        proof {
            let words = self.strs.deep_view().take(self.position as int);
            lemma_vars_from_snoc(words, Seq::<Seq<char>>::empty());
            assert(words.drop_last() =~= self.strs.deep_view().take(self.position - 1));
            assert(words.last() == w);
            if oldvars.contains(w) {
                let witness = choose|j: int| 0 <= j < oldvars.len() && oldvars[j] == w;
                assert(oldvars[witness] == w);
            }
        }
        token
    }
}

/// Whether a raw token equals a reserved word, by character content.
fn eq_lit(w: &String, lit: &str) -> (b: bool)
    ensures
        b == (w@ == lit@),
{
    let l = String::from_str(lit);
    *w == l
}

} // verus!
