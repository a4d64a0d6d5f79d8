//! A recursive-descent parser for arithmetic over decimal numbers with
//! `+ - * /`, producing a syntax tree or the offset where parsing stopped.
//!
//! ```text
//! expression := term (("+"|"-") term)*
//! term       := number (("*"|"/") number)*
//! number     := "-"? digits and at most one "."
//! ```
use vstd::prelude::*;
use vstd::std_specs::iter::IteratorSpec;
use crate::decimal::{
    Decimal, decimal_text, has_sign, is_digit, is_numeral, lemma_decimal_text_value, numeral_digits,
    numeral_value, reduce, unsigned_part,
};

verus! {

/// The mathematical shape of a syntax tree: numbers as exact fractions
/// `mantissa / 10^scale` in reduced form.
pub enum Tree {
    Num(int, nat),
    Op(char, Box<Tree>, Box<Tree>),
}

/// A syntax tree. Each operator node owns its two operands.
#[derive(Debug, PartialEq)]
pub enum Ast {
    Num(Decimal),
    Op(char, Box<Ast>, Box<Ast>),
}

/// Parsing stopped at this character offset (0 where the input ran out).
#[derive(Debug, PartialEq, Eq)]
pub struct ParseAstError(pub usize);

impl View for Ast {
    type V = Tree;

    open spec fn view(&self) -> Tree
        decreases self,
    {
        match self {
            Ast::Num(d) => Tree::Num(d@.0, d@.1),
            Ast::Op(op, l, r) => Tree::Op(*op, Box::new((**l)@), Box::new((**r)@)),
        }
    }
}

impl Ast {
    /// Every number in the tree is in canonical form, so that two trees are
    /// equal exactly when their views are.
    pub open spec fn wf(&self) -> bool
        decreases self,
    {
        match self {
            Ast::Num(d) => d.wf(),
            Ast::Op(_, l, r) => (**l).wf() && (**r).wf(),
        }
    }
}

/// A multiplicative operator.
pub open spec fn is_high_op(c: char) -> bool {
    c == '*' || c == '/'
}

/// An additive operator.
pub open spec fn is_low_op(c: char) -> bool {
    c == '+' || c == '-'
}

/// Whether the character at `j` extends the literal that began at `start`:
/// a digit, a point, or a minus sign as its first character.
pub open spec fn extends_literal(s: Seq<char>, start: nat, j: nat) -> bool {
    is_digit(s[j as int]) || s[j as int] == '.' || (s[j as int] == '-' && j == start)
}

/// Where the literal that began at `start` ends, scanning on from `j`.
pub open spec fn literal_end(s: Seq<char>, start: nat, j: nat) -> nat
    decreases s.len() - j,
{
    if j < s.len() && extends_literal(s, start, j) {
        literal_end(s, start, j + 1)
    } else {
        j
    }
}

/// The offset reported for a malformed literal that began at `i`.
pub open spec fn literal_offset(s: Seq<char>, i: nat) -> nat {
    if i < s.len() {
        i
    } else {
        0
    }
}

/// Scans the number literal at `i`: its reduced value and the offset after it,
/// or the offset of the failure. The literal stops at an operator or at the
/// end; any other character that cannot extend it is an error at its own
/// offset, and text that is no numeral is an error at `i`.
pub open spec fn scan_literal(s: Seq<char>, i: nat) -> Result<((int, nat), nat), nat> {
    let j = literal_end(s, i, i);
    if j < s.len() && !is_high_op(s[j as int]) && !is_low_op(s[j as int]) {
        Err(j)
    } else if is_numeral(s.subrange(i as int, j as int)) {
        let v = numeral_value(s.subrange(i as int, j as int));
        Ok((reduce(v.0, v.1), j))
    } else {
        Err(literal_offset(s, i))
    }
}

/// Folds `* /` operands onto `acc` from offset `j`, left to right.
pub open spec fn term_from(s: Seq<char>, acc: Tree, j: nat) -> Result<(Tree, nat), nat>
    decreases s.len() - j,
    via term_from_decreases
{
    if j < s.len() && is_high_op(s[j as int]) {
        match scan_literal(s, j + 1) {
            Err(e) => Err(e),
            Ok((v, k)) => term_from(
                s,
                Tree::Op(s[j as int], Box::new(acc), Box::new(Tree::Num(v.0, v.1))),
                k,
            ),
        }
    } else {
        Ok((acc, j))
    }
}

#[via_fn]
proof fn term_from_decreases(s: Seq<char>, acc: Tree, j: nat) {
    if j < s.len() && is_high_op(s[j as int]) {
        lemma_literal_end_bounds(s, j + 1, j + 1);
    }
}

/// Parses the term at `i`: the tree and the offset after it, or the offset of
/// the first failure.
pub open spec fn term(s: Seq<char>, i: nat) -> Result<(Tree, nat), nat> {
    match scan_literal(s, i) {
        Err(e) => Err(e),
        Ok((v, j)) => term_from(s, Tree::Num(v.0, v.1), j),
    }
}

/// Folds `+ -` operands onto `acc` from offset `j`, left to right.
pub open spec fn expression_from(s: Seq<char>, acc: Tree, j: nat) -> Result<(Tree, nat), nat>
    decreases s.len() - j,
    via expression_from_decreases
{
    if j < s.len() && is_low_op(s[j as int]) {
        match term(s, j + 1) {
            Err(e) => Err(e),
            Ok((t, k)) => expression_from(s, Tree::Op(s[j as int], Box::new(acc), Box::new(t)), k),
        }
    } else {
        Ok((acc, j))
    }
}

#[via_fn]
proof fn expression_from_decreases(s: Seq<char>, acc: Tree, j: nat) {
    if j < s.len() && is_low_op(s[j as int]) {
        lemma_term_bounds(s, j + 1);
    }
}

/// Parses the expression at `i`: the tree and the offset after it, or the
/// offset of the first failure.
pub open spec fn expression(s: Seq<char>, i: nat) -> Result<(Tree, nat), nat> {
    match term(s, i) {
        Err(e) => Err(e),
        Ok((t, j)) => expression_from(s, t, j),
    }
}

/// What parsing the whole of `s` gives: the expression at its start. Input
/// after the expression is left unread.
pub open spec fn parse_result(s: Seq<char>) -> Result<Tree, nat> {
    match expression(s, 0) {
        Err(e) => Err(e),
        Ok((t, _)) => Ok(t),
    }
}

proof fn lemma_literal_end_bounds(s: Seq<char>, start: nat, j: nat)
    requires
        j <= s.len(),
    ensures
        j <= literal_end(s, start, j) <= s.len(),
    decreases s.len() - j,
{
    if j < s.len() && extends_literal(s, start, j) {
        lemma_literal_end_bounds(s, start, j + 1);
    }
}

proof fn lemma_term_from_bounds(s: Seq<char>, acc: Tree, j: nat)
    requires
        j <= s.len(),
    ensures
        term_from(s, acc, j) matches Ok((_, k)) ==> j <= k <= s.len(),
    decreases s.len() - j,
{
    if j < s.len() && is_high_op(s[j as int]) {
        lemma_literal_end_bounds(s, j + 1, j + 1);
        if let Ok((v, k)) = scan_literal(s, j + 1) {
            lemma_term_from_bounds(
                s,
                Tree::Op(s[j as int], Box::new(acc), Box::new(Tree::Num(v.0, v.1))),
                k,
            );
        }
    }
}

proof fn lemma_term_bounds(s: Seq<char>, i: nat)
    requires
        i <= s.len(),
    ensures
        term(s, i) matches Ok((_, k)) ==> i <= k <= s.len(),
{
    lemma_literal_end_bounds(s, i, i);
    if let Ok((v, j)) = scan_literal(s, i) {
        lemma_term_from_bounds(s, Tree::Num(v.0, v.1), j);
    }
}

/// A tree built only from number literals joined by `*` and `/`, grouped to
/// the left.
pub open spec fn is_term_tree(t: Tree) -> bool
    decreases t,
{
    match t {
        Tree::Num(_, _) => true,
        Tree::Op(c, l, r) => is_high_op(c) && is_term_tree(*l) && (*r is Num),
    }
}

/// A tree built from term trees joined by `+` and `-`, grouped to the left:
/// multiplicative nodes only ever stand below additive ones.
pub open spec fn is_expression_tree(t: Tree) -> bool
    decreases t,
{
    match t {
        Tree::Num(_, _) => true,
        Tree::Op(c, l, r) => if is_low_op(c) {
            is_expression_tree(*l) && is_term_tree(*r)
        } else {
            is_term_tree(t)
        },
    }
}

proof fn lemma_literal_runs_to_end(s: Seq<char>, start: nat, j: nat)
    requires
        j <= s.len(),
        forall|k: nat| j <= k < s.len() ==> #[trigger] extends_literal(s, start, k),
    ensures
        literal_end(s, start, j) == s.len(),
    decreases s.len() - j,
{
    if j < s.len() {
        assert(extends_literal(s, start, j));
        lemma_literal_runs_to_end(s, start, j + 1);
    }
}

/// A lone numeral parses to a single number node that holds its value.
pub proof fn lemma_numeral_parses_to_its_value(n: Seq<char>)
    requires
        is_numeral(n),
    ensures
        parse_result(n) == Ok::<Tree, nat>(
            Tree::Num(reduce(numeral_value(n).0, numeral_value(n).1).0, reduce(numeral_value(n).0, numeral_value(n).1).1),
        ),
{
    let u = unsigned_part(n);
    assert forall|k: nat| 0 <= k < n.len() implies #[trigger] extends_literal(n, 0, k) by {
        if has_sign(n) {
            if k > 0 {
                assert(n[k as int] == u[k - 1]);
            }
        } else {
            assert(n[k as int] == u[k as int]);
        }
    }
    lemma_literal_runs_to_end(n, 0, 0);
    assert(n.subrange(0, n.len() as int) =~= n);
}

/// Round trip: the text of a number in canonical form (what
/// `Decimal::to_text` writes) parses back to a single node holding that number.
pub proof fn lemma_number_text_parses_back(d: Decimal)
    requires
        d.wf(),
    ensures
        parse_result(decimal_text(d.negative, d.digits@, d.scale as nat)) == Ok::<Tree, nat>(
            Tree::Num(d@.0, d@.1),
        ),
{
    lemma_decimal_text_value(d);
    lemma_numeral_parses_to_its_value(decimal_text(d.negative, d.digits@, d.scale as nat));
}

/// The empty input, and input whose first character can start no number (not
/// a digit, a point or a minus sign), fail at offset 0.
pub proof fn lemma_bad_start_fails_at_zero(s: Seq<char>)
    requires
        s.len() == 0 || !(is_digit(s[0]) || s[0] == '.' || s[0] == '-'),
    ensures
        parse_result(s) == Err::<Tree, nat>(0),
{
    assert(literal_end(s, 0, 0) == 0);
    assert(s.subrange(0, 0) =~= Seq::<char>::empty());
    assert(numeral_digits(Seq::<char>::empty()).len() == 0);
}

proof fn lemma_term_from_shape(s: Seq<char>, acc: Tree, j: nat)
    requires
        is_term_tree(acc),
    ensures
        term_from(s, acc, j) matches Ok((t, _)) ==> is_term_tree(t),
    decreases s.len() - j,
{
    if j < s.len() && is_high_op(s[j as int]) {
        if let Ok((v, k)) = scan_literal(s, j + 1) {
            lemma_literal_end_bounds(s, j + 1, j + 1);
            let next = Tree::Op(s[j as int], Box::new(acc), Box::new(Tree::Num(v.0, v.1)));
            assert(is_term_tree(next));
            lemma_term_from_shape(s, next, k);
        }
    }
}

proof fn lemma_term_shape(s: Seq<char>, i: nat)
    ensures
        term(s, i) matches Ok((t, _)) ==> is_term_tree(t),
{
    if let Ok((v, j)) = scan_literal(s, i) {
        lemma_term_from_shape(s, Tree::Num(v.0, v.1), j);
    }
}

proof fn lemma_term_tree_is_expression_tree(t: Tree)
    requires
        is_term_tree(t),
    ensures
        is_expression_tree(t),
{
    if let Tree::Op(c, l, r) = t {
        assert(!is_low_op(c));
    }
}

proof fn lemma_expression_from_shape(s: Seq<char>, acc: Tree, j: nat)
    requires
        is_expression_tree(acc),
    ensures
        expression_from(s, acc, j) matches Ok((t, _)) ==> is_expression_tree(t),
    decreases s.len() - j,
{
    if j < s.len() && is_low_op(s[j as int]) {
        lemma_term_shape(s, j + 1);
        if let Ok((t, k)) = term(s, j + 1) {
            lemma_term_bounds(s, j + 1);
            let next = Tree::Op(s[j as int], Box::new(acc), Box::new(t));
            assert(is_expression_tree(next));
            lemma_expression_from_shape(s, next, k);
        }
    }
}

/// Precedence: in every tree that parsing gives, multiplicative nodes stand
/// only below additive ones, never above, and every node's operator is one of
/// `+ - * /`.
pub proof fn lemma_parse_respects_precedence(s: Seq<char>)
    ensures
        parse_result(s) matches Ok(t) ==> is_expression_tree(t),
{
    lemma_term_shape(s, 0);
    if let Ok((t, j)) = term(s, 0) {
        lemma_term_tree_is_expression_tree(t);
        lemma_expression_from_shape(s, t, j);
    }
}

/// A position in the characters of the input, with lookahead.
struct Cursor {
    chars: Vec<char>,
    pos: usize,
}

impl Cursor {
    closed spec fn text(&self) -> Seq<char> {
        self.chars@
    }

    closed spec fn offset(&self) -> nat {
        self.pos as nat
    }

    closed spec fn wf(&self) -> bool {
        self.pos <= self.chars@.len()
    }

    /// The offset of the next character, or 0 at the end of the input.
    fn index(&self) -> (r: usize)
        requires
            self.wf(),
        ensures
            r == literal_offset(self.text(), self.offset()),
    {
        if self.pos < self.chars.len() {
            self.pos
        } else {
            0
        }
    }
}

/// Whether `c` extends a number literal; `first` tells that nothing of the
/// literal has been read yet.
fn extends(c: char, first: bool) -> (r: bool)
    ensures
        r == (is_digit(c) || c == '.' || (c == '-' && first)),
{
    ('0' <= c && c <= '9') || c == '.' || (c == '-' && first)
}

impl Ast {
    /// Scans a number literal at the cursor.
    fn parse_num(chars: &mut Cursor) -> (r: Result<Ast, ParseAstError>)
        requires
            old(chars).wf(),
        ensures
            final(chars).wf(),
            final(chars).text() == old(chars).text(),
            old(chars).offset() <= final(chars).offset(),
            match scan_literal(old(chars).text(), old(chars).offset()) {
                Ok((v, k)) => r matches Ok(a) && a.wf() && a@ == Tree::Num(v.0, v.1)
                    && final(chars).offset() == k,
                Err(e) => r matches Err(x) && x.0 == e,
            },
    {
        let ghost s = chars.chars@;
        let ghost start = chars.pos as nat;
        let index = chars.index();
        let mut num: Vec<char> = Vec::new();
        while chars.pos < chars.chars.len() && extends(chars.chars[chars.pos], num.len() == 0)
            invariant
                chars.wf(),
                chars.chars@ == s,
                start <= chars.pos,
                num@ == s.subrange(start as int, chars.pos as int),
                literal_end(s, start, chars.pos as nat) == literal_end(s, start, start),
            decreases s.len() - chars.pos,
        {
            num.push(chars.chars[chars.pos]);
            chars.pos = chars.pos + 1;
        }
        if chars.pos < chars.chars.len() {
            let c = chars.chars[chars.pos];
            if c != '+' && c != '-' && c != '*' && c != '/' {
                return Err(ParseAstError(chars.pos));
            }
        }
        match Decimal::from_numeral(num.as_slice()) {
            Some(d) => Ok(Ast::Num(d)),
            None => Err(ParseAstError(index)),
        }
    }

    /// Takes a multiplicative operator at the cursor, if one stands there.
    fn parse_high_priority_op(chars: &mut Cursor) -> (r: Option<char>)
        requires
            old(chars).wf(),
        ensures
            final(chars).wf(),
            final(chars).text() == old(chars).text(),
            if old(chars).offset() < old(chars).text().len() && is_high_op(
                old(chars).text()[old(chars).offset() as int],
            ) {
                r == Some(old(chars).text()[old(chars).offset() as int]) && final(chars).offset()
                    == old(chars).offset() + 1
            } else {
                r is None && final(chars).offset() == old(chars).offset()
            },
    {
        if chars.pos < chars.chars.len() {
            let c = chars.chars[chars.pos];
            if c == '*' || c == '/' {
                chars.pos = chars.pos + 1;
                return Some(c);
            }
        }
        None
    }

    /// Parses a chain of number literals joined by `*` and `/`.
    fn parse_term(chars: &mut Cursor) -> (r: Result<Ast, ParseAstError>)
        requires
            old(chars).wf(),
        ensures
            final(chars).wf(),
            final(chars).text() == old(chars).text(),
            old(chars).offset() <= final(chars).offset(),
            match term(old(chars).text(), old(chars).offset()) {
                Ok((t, k)) => r matches Ok(a) && a.wf() && a@ == t && final(chars).offset() == k,
                Err(e) => r matches Err(x) && x.0 == e,
            },
    {
        let ghost s = chars.text();
        let ghost start = chars.offset();
        let mut left = match Self::parse_num(chars) {
            Ok(a) => a,
            Err(e) => return Err(e),
        };
        loop
            invariant
                chars.wf(),
                chars.text() == s,
                s == old(chars).text(),
                start == old(chars).offset(),
                start <= chars.offset(),
                term_from(s, left@, chars.offset()) == term(s, start),
                left.wf(),
            ensures
                left.wf(),
                chars.wf(),
                chars.text() == s,
                start <= chars.offset(),
                term(s, start) == Ok::<(Tree, nat), nat>((left@, chars.offset())),
            decreases s.len() - chars.offset(),
        {
            match Self::parse_high_priority_op(chars) {
                Some(op) => {
                    let right = match Self::parse_num(chars) {
                        Ok(a) => a,
                        Err(e) => return Err(e),
                    };
                    left = Ast::Op(op, Box::new(left), Box::new(right));
                },
                None => break,
            }
        }
        Ok(left)
    }

    /// Takes an additive operator at the cursor, if one stands there.
    fn parse_low_priority_op(chars: &mut Cursor) -> (r: Option<char>)
        requires
            old(chars).wf(),
        ensures
            final(chars).wf(),
            final(chars).text() == old(chars).text(),
            if old(chars).offset() < old(chars).text().len() && is_low_op(
                old(chars).text()[old(chars).offset() as int],
            ) {
                r == Some(old(chars).text()[old(chars).offset() as int]) && final(chars).offset()
                    == old(chars).offset() + 1
            } else {
                r is None && final(chars).offset() == old(chars).offset()
            },
    {
        if chars.pos < chars.chars.len() {
            let c = chars.chars[chars.pos];
            if c == '+' || c == '-' {
                chars.pos = chars.pos + 1;
                return Some(c);
            }
        }
        None
    }

    /// Parses a chain of terms joined by `+` and `-`.
    fn parse_expression(chars: &mut Cursor) -> (r: Result<Ast, ParseAstError>)
        requires
            old(chars).wf(),
        ensures
            final(chars).wf(),
            final(chars).text() == old(chars).text(),
            old(chars).offset() <= final(chars).offset(),
            match expression(old(chars).text(), old(chars).offset()) {
                Ok((t, k)) => r matches Ok(a) && a.wf() && a@ == t && final(chars).offset() == k,
                Err(e) => r matches Err(x) && x.0 == e,
            },
    {
        let ghost s = chars.text();
        let ghost start = chars.offset();
        let mut left = match Self::parse_term(chars) {
            Ok(a) => a,
            Err(e) => return Err(e),
        };
        loop
            invariant
                chars.wf(),
                chars.text() == s,
                s == old(chars).text(),
                start == old(chars).offset(),
                start <= chars.offset(),
                expression_from(s, left@, chars.offset()) == expression(s, start),
                left.wf(),
            ensures
                left.wf(),
                chars.wf(),
                chars.text() == s,
                start <= chars.offset(),
                expression(s, start) == Ok::<(Tree, nat), nat>((left@, chars.offset())),
            decreases s.len() - chars.offset(),
        {
            match Self::parse_low_priority_op(chars) {
                Some(op) => {
                    let right = match Self::parse_term(chars) {
                        Ok(a) => a,
                        Err(e) => return Err(e),
                    };
                    left = Ast::Op(op, Box::new(left), Box::new(right));
                },
                None => break,
            }
        }
        Ok(left)
    }

    /// Parses `source` as an expression. Characters after the expression are
    /// left unread: a parse stops at the first character that is no operator
    /// where an operator could stand.
    pub fn from_str(source: &str) -> (r: Result<Ast, ParseAstError>)
        ensures
            match parse_result(source@) {
                Ok(t) => r matches Ok(a) && a.wf() && a@ == t,
                Err(e) => r matches Err(x) && x.0 == e,
            },
    {
        let mut it = source.chars();
        let mut chars: Vec<char> = Vec::new();
        loop
            invariant
                chars@ + IteratorSpec::remaining(&it) == source@,
                IteratorSpec::decrease(&it) is Some,
            ensures
                chars@ == source@,
            decreases IteratorSpec::decrease(&it)->0,
        {
            match it.next() {
                Some(c) => {
                    chars.push(c);
                },
                None => {
                    assert(chars@ + IteratorSpec::remaining(&it) =~= chars@);
                    break ;
                },
            }
            assert(chars@ + IteratorSpec::remaining(&it) =~= source@);
        }
        let mut cursor = Cursor { chars, pos: 0 };
        Self::parse_expression(&mut cursor)
    }
}

impl std::str::FromStr for Ast {
    type Err = ParseAstError;

    fn from_str(source: &str) -> Result<Ast, ParseAstError> {
        Ast::from_str(source)
    }
}

} // verus!
