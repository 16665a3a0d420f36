//! Beat expressions: a small arithmetic language over beat literals and
//! fractions, written without spaces, e.g. `1/2*2/3+1.25`.
//!
//! `*` binds tighter than `+` and `-` and both of its operands must be
//! explicit fractions. Evaluation keeps separate sums of added and
//! subtracted terms and forms their difference at the end, so a valid
//! expression never dips below zero mid-way.

use vstd::prelude::*;

use crate::beat_fraction::{
    parse_beat_fraction, spec_fraction_den, spec_fraction_num, spec_fraction_text, spec_has_slash,
    spec_is_fraction_lexeme, BeatFraction,
};
use crate::beat_time::{
    parse_beat_time, spec_beat_lexeme_nanos, spec_beat_mul, spec_beat_text, spec_dot_pos,
    spec_is_beat_lexeme, spec_sat_add, spec_sat_sub, BeatTime,
};
use crate::beat_fraction::lemma_slash_pos;
use crate::errors::MtxtError;
use crate::text::{spec_all_digits, spec_digits_val};

verus! {

/// One operand of a beat expression: a decimal beat literal or a fraction.
#[derive(Debug, Clone, Copy, PartialEq, Eq, Structural)]
pub enum BeatValue {
    Time(BeatTime),
    Fraction(BeatFraction),
}

/// An operator of a beat expression.
#[derive(Debug, Clone, Copy, PartialEq, Eq, Structural)]
pub enum BeatOperator {
    Plus,
    Minus,
    Multiply,
}

/// One element of a parsed beat expression.
#[derive(Debug, Clone, Copy, PartialEq, Eq, Structural)]
pub enum BeatExpressionItem {
    Value(BeatValue),
    Operator(BeatOperator),
}

/// A parsed beat expression: the items in source order.
#[derive(Debug, Clone)]
pub struct BeatExpression {
    pub items: Vec<BeatExpressionItem>,
}

/// The nanobeat value of an operand.
pub open spec fn spec_value_nanos(v: BeatValue) -> u64 {
    match v {
        BeatValue::Time(t) => t.nanos,
        BeatValue::Fraction(f) => ((f.numerator * 1_000_000_000) / (f.denominator as int)) as u64,
    }
}

/// Whether every fraction in the items has a nonzero denominator.
pub open spec fn spec_items_valid(items: Seq<BeatExpressionItem>) -> bool {
    forall|i: int|
        0 <= i < items.len() ==> match #[trigger] items[i] {
            BeatExpressionItem::Value(BeatValue::Fraction(f)) => f.denominator != 0,
            _ => true,
        }
}

/// The evaluator state: committed positive sum, committed negative sum, the
/// product term being built, and whether the pending operator is `-`.
pub struct EvalState {
    pub pos: u64,
    pub neg: u64,
    pub term: Option<u64>,
    pub minus: bool,
}

/// Commits the pending term to the positive or negative sum.
pub open spec fn spec_commit(st: EvalState) -> (u64, u64) {
    match st.term {
        Some(ct) => if st.minus {
            (st.pos, spec_sat_add(st.neg, ct))
        } else {
            (spec_sat_add(st.pos, ct), st.neg)
        },
        None => (st.pos, st.neg),
    }
}

/// One evaluator step.
pub open spec fn spec_eval_step(st: EvalState, item: BeatExpressionItem) -> EvalState {
    match item {
        BeatExpressionItem::Value(v) => {
            let vt = spec_value_nanos(v);
            match st.term {
                Some(ct) => EvalState { term: Some(spec_beat_mul(ct, vt)), ..st },
                None => EvalState { term: Some(vt), ..st },
            }
        },
        BeatExpressionItem::Operator(op) => match op {
            BeatOperator::Multiply => st,
            BeatOperator::Plus => {
                let c = spec_commit(st);
                EvalState { pos: c.0, neg: c.1, term: None, minus: false }
            },
            BeatOperator::Minus => {
                let c = spec_commit(st);
                EvalState { pos: c.0, neg: c.1, term: None, minus: true }
            },
        },
    }
}

/// Runs the evaluator over the items from the given state.
pub open spec fn spec_eval_items(items: Seq<BeatExpressionItem>, st: EvalState) -> EvalState
    decreases items.len(),
{
    if items.len() == 0 {
        st
    } else {
        spec_eval_step(spec_eval_items(items.drop_last(), st), items.last())
    }
}

/// The starting evaluator state.
pub open spec fn spec_eval_start() -> EvalState {
    EvalState { pos: 0, neg: 0, term: None, minus: false }
}

/// The pair (sum of added terms, sum of subtracted terms) of an expression,
/// in nanobeats; each term is the product of its factors, truncated to
/// nanobeat resolution, and the sums saturate.
pub open spec fn spec_sums(items: Seq<BeatExpressionItem>) -> (u64, u64) {
    spec_commit(spec_eval_items(items, spec_eval_start()))
}

impl BeatValue {
    /// The operand as a beat position.
    pub fn as_beat_time(&self) -> (r: BeatTime)
        requires
            self matches BeatValue::Fraction(f) ==> f.denominator != 0,
        ensures
            r.nanos == spec_value_nanos(*self),
    {
        match self {
            BeatValue::Time(t) => *t,
            BeatValue::Fraction(f) => f.as_beat_time(),
        }
    }
}

impl BeatExpression {
    /// The sums of added and of subtracted terms, as beat positions.
    pub fn evaluate_sums(&self) -> (r: (BeatTime, BeatTime))
        requires
            spec_items_valid(self.items@),
        ensures
            (r.0.nanos, r.1.nanos) == spec_sums(self.items@),
    {
        let mut pos: u64 = 0;
        let mut neg: u64 = 0;
        let mut term: Option<u64> = None;
        let mut minus: bool = false;
        let mut i: usize = 0;
        while i < self.items.len()
            invariant
                0 <= i <= self.items@.len(),
                spec_items_valid(self.items@),
                (EvalState { pos, neg, term, minus }) == spec_eval_items(
                    self.items@.take(i as int),
                    spec_eval_start(),
                ),
            decreases self.items@.len() - i,
        {
            let ghost pre = EvalState { pos, neg, term, minus };
            let item = self.items[i];
            match item {
                BeatExpressionItem::Value(v) => {
                    let vt = v.as_beat_time();
                    match term {
                        Some(ct) => {
                            let ctt = BeatTime::from_nanos(ct);
                            term = Some(ctt.mul_beats(&vt).nanos);
                        },
                        None => {
                            term = Some(vt.nanos);
                        },
                    }
                },
                BeatExpressionItem::Operator(op) => {
                    match op {
                        BeatOperator::Multiply => {},
                        BeatOperator::Plus => {
                            match term {
                                Some(ct) => {
                                    if minus {
                                        neg = saturating_add_u64(neg, ct);
                                    } else {
                                        pos = saturating_add_u64(pos, ct);
                                    }
                                },
                                None => {},
                            }
                            term = None;
                            minus = false;
                        },
                        BeatOperator::Minus => {
                            match term {
                                Some(ct) => {
                                    if minus {
                                        neg = saturating_add_u64(neg, ct);
                                    } else {
                                        pos = saturating_add_u64(pos, ct);
                                    }
                                },
                                None => {},
                            }
                            term = None;
                            minus = true;
                        },
                    }
                },
            }
            proof {
                let t = self.items@.take(i + 1);
                assert(t.drop_last() =~= self.items@.take(i as int));
                assert(t.last() == self.items@[i as int]);
                assert(EvalState { pos, neg, term, minus } == spec_eval_step(
                    pre,
                    self.items@[i as int],
                ));
            }
            i = i + 1;
        }
        proof {
            assert(self.items@.take(self.items@.len() as int) =~= self.items@);
        }
        let st_pos = BeatTime::from_nanos(pos);
        let st_neg = BeatTime::from_nanos(neg);
        let r = match term {
            Some(ct) => {
                if minus {
                    (st_pos, BeatTime::from_nanos(saturating_add_u64(neg, ct)))
                } else {
                    (BeatTime::from_nanos(saturating_add_u64(pos, ct)), st_neg)
                }
            },
            None => (st_pos, st_neg),
        };
        r
    }

    /// The value of the expression: added terms minus subtracted terms,
    /// saturating at zero.
    pub fn as_beat_time(&self) -> (r: BeatTime)
        requires
            spec_items_valid(self.items@),
        ensures
            r.nanos == spec_sat_sub(spec_sums(self.items@).0, spec_sums(self.items@).1),
    {
        let (pos, neg) = self.evaluate_sums();
        pos.sub_sat(&neg)
    }

    /// The value of the expression in nanobeats.
    pub fn value_nanos(&self) -> (r: u64)
        requires
            spec_items_valid(self.items@),
        ensures
            r == spec_sat_sub(spec_sums(self.items@).0, spec_sums(self.items@).1),
    {
        self.as_beat_time().nanos
    }
}

/// Saturating addition on `u64` values.
pub fn saturating_add_u64(a: u64, b: u64) -> (r: u64)
    ensures
        r == spec_sat_add(a, b),
{
    match a.checked_add(b) {
        Some(n) => n,
        None => u64::MAX,
    }
}

/// Whether `c` is an operator character.
pub open spec fn spec_is_op_char(c: char) -> bool {
    c == '+' || c == '-' || c == '*'
}

/// Whether `c` is trimmed whitespace.
pub open spec fn spec_is_space(c: char) -> bool {
    c == ' ' || c == '\t' || c == '\n' || c == '\r'
}

/// The first operator position in `s` at or after `i`, or `s.len()`.
pub open spec fn spec_op_end(s: Seq<char>, i: int) -> int
    decreases s.len() - i,
{
    if i < 0 || i >= s.len() {
        s.len() as int
    } else if spec_is_op_char(s[i]) {
        i
    } else {
        spec_op_end(s, i + 1)
    }
}

/// `spec_op_end` yields the first operator position at or after `i`.
pub proof fn lemma_op_end(s: Seq<char>, i: int)
    requires
        0 <= i <= s.len(),
    ensures
        i <= spec_op_end(s, i) <= s.len(),
        spec_op_end(s, i) < s.len() ==> spec_is_op_char(s[spec_op_end(s, i)]),
        forall|j: int| i <= j < spec_op_end(s, i) ==> !spec_is_op_char(#[trigger] s[j]),
    decreases s.len() - i,
{
    if i < s.len() && !spec_is_op_char(s[i]) {
        lemma_op_end(s, i + 1);
    }
}

/// The tokens of `s` starting at `start`: each operator character is a
/// one-character token, and each maximal operator-free run is one token.
pub open spec fn spec_tokens_from(s: Seq<char>, start: int) -> Seq<Seq<char>>
    decreases s.len() - start
        via spec_tokens_from_dec
{
    if start < 0 || start >= s.len() {
        Seq::empty()
    } else if spec_is_op_char(s[start]) {
        seq![seq![s[start]]] + spec_tokens_from(s, start + 1)
    } else {
        seq![s.subrange(start, spec_op_end(s, start + 1))] + spec_tokens_from(
            s,
            spec_op_end(s, start + 1),
        )
    }
}

#[via_fn]
proof fn spec_tokens_from_dec(s: Seq<char>, start: int) {
    if 0 <= start < s.len() && !spec_is_op_char(s[start]) {
        lemma_op_end(s, start + 1);
    }
}

/// The tokens of a whole expression string.
pub open spec fn spec_expr_tokens(s: Seq<char>) -> Seq<Seq<char>> {
    spec_tokens_from(s, 0)
}

/// The operand denoted by a value token: a fraction if it contains a slash,
/// otherwise a decimal beat literal.
pub open spec fn spec_value_of(t: Seq<char>) -> Result<BeatValue, MtxtError> {
    if spec_has_slash(t) {
        if spec_is_fraction_lexeme(t) {
            Ok(
                BeatValue::Fraction(
                    BeatFraction {
                        numerator: spec_fraction_num(t) as u32,
                        denominator: spec_fraction_den(t) as u32,
                    },
                ),
            )
        } else {
            Err(MtxtError::BadFraction)
        }
    } else {
        if spec_is_beat_lexeme(t) && spec_digits_val(t.take(spec_dot_pos(t))) <= u32::MAX {
            Ok(BeatValue::Time(BeatTime { nanos: spec_beat_lexeme_nanos(t) as u64 }))
        } else {
            Err(MtxtError::BadNumber)
        }
    }
}

/// The item denoted by one token.
pub open spec fn spec_token_item(t: Seq<char>) -> Result<BeatExpressionItem, MtxtError> {
    if t == seq!['+'] {
        Ok(BeatExpressionItem::Operator(BeatOperator::Plus))
    } else if t == seq!['-'] {
        Ok(BeatExpressionItem::Operator(BeatOperator::Minus))
    } else if t == seq!['*'] {
        Ok(BeatExpressionItem::Operator(BeatOperator::Multiply))
    } else {
        match spec_value_of(t) {
            Ok(v) => Ok(BeatExpressionItem::Value(v)),
            Err(e) => Err(e),
        }
    }
}

/// The items denoted by a token list; the first ill-formed token decides
/// the error.
pub open spec fn spec_items_of_tokens(ts: Seq<Seq<char>>) -> Result<
    Seq<BeatExpressionItem>,
    MtxtError,
>
    decreases ts.len(),
{
    if ts.len() == 0 {
        Ok(Seq::empty())
    } else {
        match spec_token_item(ts[0]) {
            Err(e) => Err(e),
            Ok(it) => match spec_items_of_tokens(ts.drop_first()) {
                Err(e) => Err(e),
                Ok(rest) => Ok(seq![it] + rest),
            },
        }
    }
}

/// Prepends already-parsed items to a parse result.
pub open spec fn spec_items_append(
    acc: Seq<BeatExpressionItem>,
    r: Result<Seq<BeatExpressionItem>, MtxtError>,
) -> Result<Seq<BeatExpressionItem>, MtxtError> {
    match r {
        Ok(items) => Ok(acc + items),
        Err(e) => Err(e),
    }
}

/// The multiply rule at one position: a `*` may stand neither first nor
/// last, and both neighbours must be fractions.
pub open spec fn spec_mul_check_at(items: Seq<BeatExpressionItem>, i: int) -> Result<
    (),
    MtxtError,
> {
    if items[i] == BeatExpressionItem::Operator(BeatOperator::Multiply) {
        if i == 0 || i == items.len() - 1 {
            Err(MtxtError::BadMultiplyPosition)
        } else if items[i - 1] matches BeatExpressionItem::Value(BeatValue::Time(_)) {
            Err(MtxtError::BadMultiplyOperand)
        } else if items[i + 1] matches BeatExpressionItem::Value(BeatValue::Time(_)) {
            Err(MtxtError::BadMultiplyOperand)
        } else {
            Ok(())
        }
    } else {
        Ok(())
    }
}

/// The multiply rule from position `i` on; the first violation decides.
pub open spec fn spec_mul_check_from(items: Seq<BeatExpressionItem>, i: int) -> Result<
    (),
    MtxtError,
>
    decreases items.len() - i,
{
    if i < 0 || i >= items.len() {
        Ok(())
    } else {
        match spec_mul_check_at(items, i) {
            Err(e) => Err(e),
            Ok(u) => spec_mul_check_from(items, i + 1),
        }
    }
}

/// Whether the items strictly alternate value/operator/…/value: odd count,
/// values at even positions, operators at odd positions.
pub open spec fn spec_items_alternate(items: Seq<BeatExpressionItem>) -> bool {
    &&& items.len() % 2 == 1
    &&& forall|i: int|
        0 <= i < items.len() ==> (if i % 2 == 0 {
            (#[trigger] items[i]) is Value
        } else {
            items[i] is Operator
        })
}

/// The length of `s` with trailing whitespace removed.
pub open spec fn spec_trim_end(s: Seq<char>) -> int
    decreases s.len(),
{
    if s.len() == 0 {
        0
    } else if !spec_is_space(s.last()) {
        s.len() as int
    } else {
        spec_trim_end(s.drop_last())
    }
}

/// The first non-whitespace position of `s`.
pub open spec fn spec_trim_start(s: Seq<char>) -> int
    decreases s.len(),
{
    if s.len() == 0 {
        0
    } else if !spec_is_space(s[0]) {
        0
    } else {
        1 + spec_trim_start(s.drop_first())
    }
}

/// `s` with leading and trailing whitespace removed.
pub open spec fn spec_trimmed(s: Seq<char>) -> Seq<char> {
    let b = spec_trim_end(s);
    let a = spec_trim_start(s.take(b));
    s.subrange(a, b)
}

/// Characterizes `spec_trim_end`.
pub proof fn lemma_trim_end(s: Seq<char>)
    ensures
        0 <= spec_trim_end(s) <= s.len(),
        forall|i: int| spec_trim_end(s) <= i < s.len() ==> spec_is_space(#[trigger] s[i]),
        spec_trim_end(s) > 0 ==> !spec_is_space(s[spec_trim_end(s) - 1]),
    decreases s.len(),
{
    if s.len() > 0 && spec_is_space(s.last()) {
        lemma_trim_end(s.drop_last());
        let t = s.drop_last();
        assert forall|i: int| spec_trim_end(s) <= i < s.len() implies spec_is_space(
            #[trigger] s[i],
        ) by {
            if i < s.len() - 1 {
                assert(s[i] == t[i]);
            }
        }
        if spec_trim_end(s) > 0 {
            assert(s[spec_trim_end(s) - 1] == t[spec_trim_end(t) - 1]);
        }
    }
}

/// Characterizes `spec_trim_start`.
pub proof fn lemma_trim_start(s: Seq<char>)
    ensures
        0 <= spec_trim_start(s) <= s.len(),
        forall|i: int| 0 <= i < spec_trim_start(s) ==> spec_is_space(#[trigger] s[i]),
        spec_trim_start(s) < s.len() ==> !spec_is_space(s[spec_trim_start(s)]),
    decreases s.len(),
{
    if s.len() > 0 && spec_is_space(s[0]) {
        lemma_trim_start(s.drop_first());
        let t = s.drop_first();
        assert forall|i: int| 0 <= i < spec_trim_start(s) implies spec_is_space(
            #[trigger] s[i],
        ) by {
            if i >= 1 {
                assert(s[i] == t[i - 1]);
            }
        }
    }
}

/// Whether `s` contains a space character.
pub open spec fn spec_has_space(s: Seq<char>) -> bool {
    exists|i: int| 0 <= i < s.len() && #[trigger] s[i] == ' '
}

/// What parsing an expression string yields: the trimmed string must be
/// nonempty and space-free; its tokens must all parse; every `*` must obey
/// the multiply rule; the items must strictly alternate value and operator,
/// beginning and ending with a value; and the evaluated result must be
/// nonnegative.
pub open spec fn spec_parse_expression(s: Seq<char>) -> Result<
    Seq<BeatExpressionItem>,
    MtxtError,
> {
    let t = spec_trimmed(s);
    if t.len() == 0 {
        Err(MtxtError::EmptyExpression)
    } else if spec_has_space(t) {
        Err(MtxtError::SpaceDisallowed)
    } else {
        match spec_items_of_tokens(spec_expr_tokens(t)) {
            Err(e) => Err(e),
            Ok(items) => match spec_mul_check_from(items, 0) {
                Err(e) => Err(e),
                Ok(u) => if !spec_items_alternate(items) {
                    Err(MtxtError::InputParse)
                } else if spec_sums(items).0 < spec_sums(items).1 {
                    Err(MtxtError::NegativeResult)
                } else {
                    Ok(items)
                },
            },
        }
    }
}

/// Whether `c` is trimmed whitespace.
fn is_space_char(c: char) -> (r: bool)
    ensures
        r == spec_is_space(c),
{
    c == ' ' || c == '\t' || c == '\n' || c == '\r'
}

/// Whether `c` is an operator character.
fn is_op_char(c: char) -> (r: bool)
    ensures
        r == spec_is_op_char(c),
{
    c == '+' || c == '-' || c == '*'
}

/// Parses a single operand lexeme.
pub fn parse_beat_value(s: &str) -> (r: Result<BeatValue, MtxtError>)
    ensures
        r == spec_value_of(s@),
{
    let n = s.unicode_len();
    proof {
        lemma_slash_pos(s@);
    }
    let ghost p = crate::beat_fraction::spec_slash_pos(s@);
    let mut i: usize = 0;
    while i < n && s.get_char(i) != '/'
        invariant
            0 <= i <= n,
            n == s@.len(),
            forall|j: int| 0 <= j < i ==> #[trigger] s@[j] != '/',
        decreases n - i,
    {
        i = i + 1;
    }
    proof {
        assert(i == p) by {
            if i < p {
                assert(s@[i as int] == '/');
            }
            if i > p {
                assert(p < s@.len());
                assert(s@[p] == '/');
            }
        }
    }
    if i < n {
        match parse_beat_fraction(s) {
            Ok(f) => Ok(BeatValue::Fraction(f)),
            Err(e) => Err(e),
        }
    } else {
        match parse_beat_time(s) {
            Ok(t) => Ok(BeatValue::Time(t)),
            Err(e) => Err(e),
        }
    }
}

impl BeatExpression {
    /// Parses a beat expression. The result is exactly what
    /// `spec_parse_expression` describes: token-for-token items on success,
    /// and the first violated rule's error otherwise.
    pub fn parse(s: &str) -> (r: Result<BeatExpression, MtxtError>)
        ensures
            match r {
                Ok(e) => spec_parse_expression(s@) == Ok::<Seq<BeatExpressionItem>, MtxtError>(
                    e.items@,
                ) && spec_items_valid(e.items@),
                Err(er) => spec_parse_expression(s@) == Err::<Seq<BeatExpressionItem>, MtxtError>(
                    er,
                ),
            },
    {
        let n = s.unicode_len();
        proof {
            lemma_trim_end(s@);
        }
        let ghost te = spec_trim_end(s@);
        let mut b: usize = n;
        while b > 0 && is_space_char(s.get_char(b - 1))
            invariant
                0 <= b <= n,
            n == s@.len(),
                te == spec_trim_end(s@),
                te <= b,
                forall|i: int| b <= i < n ==> spec_is_space(#[trigger] s@[i]),
            decreases b,
        {
            proof {
                lemma_trim_end(s@);
                if te == b {
                    assert(!spec_is_space(s@[b - 1]));
                }
            }
            b = b - 1;
        }
        proof {
            assert(b == te) by {
                if te < b {
                    assert(spec_is_space(s@[b - 1]));
                }
            }
        }
        let ghost ts = spec_trim_start(s@.take(te));
        proof {
            lemma_trim_start(s@.take(te));
        }
        let mut a: usize = 0;
        while a < b && is_space_char(s.get_char(a))
            invariant
                0 <= a <= b <= n,
                n == s@.len(),
                b == te,
                te == spec_trim_end(s@),
                ts == spec_trim_start(s@.take(te)),
                a <= ts,
            decreases b - a,
        {
            proof {
                lemma_trim_start(s@.take(te));
                if ts == a {
                    assert(s@.take(te)[a as int] == s@[a as int]);
                    assert(!spec_is_space(s@[a as int]));
                }
            }
            a = a + 1;
        }
        proof {
            assert(a == ts) by {
                if a < ts {
                    assert(spec_is_space(s@.take(te)[a as int]));
                    assert(s@.take(te)[a as int] == s@[a as int]);
                } else {
                    if a < b {
                        assert(s@.take(te)[ts] == s@[ts]);
                    }
                }
            }
        }
        let t = s.substring_char(a, b);
        proof {
            assert(t@ == spec_trimmed(s@));
        }
        let m = t.unicode_len();
        if m == 0 {
            return Err(MtxtError::EmptyExpression);
        }
        // reject spaces
        let mut j: usize = 0;
        while j < m
            invariant
                0 <= j <= m,
                m == t@.len(),
                m > 0,
                t@ == spec_trimmed(s@),
                forall|k: int| 0 <= k < j ==> #[trigger] t@[k] != ' ',
            decreases m - j,
        {
            if t.get_char(j) == ' ' {
                return Err(MtxtError::SpaceDisallowed);
            }
            j = j + 1;
        }
        proof {
            assert(!spec_has_space(t@));
        }
        // tokenize and parse items
        let mut items: Vec<BeatExpressionItem> = Vec::new();
        let mut start: usize = 0;
        proof {
            lemma_items_append_empty(spec_items_of_tokens(spec_tokens_from(t@, 0)));
        }
        while start < m
            invariant
                0 <= start <= m,
                m == t@.len(),
                m > 0,
                t@ == spec_trimmed(s@),
                !spec_has_space(t@),
                spec_items_valid(items@),
                spec_items_of_tokens(spec_tokens_from(t@, 0)) == spec_items_append(
                    items@,
                    spec_items_of_tokens(spec_tokens_from(t@, start as int)),
                ),
            decreases m - start,
        {
            let c = t.get_char(start);
            if is_op_char(c) {
                let op = if c == '+' {
                    BeatOperator::Plus
                } else if c == '-' {
                    BeatOperator::Minus
                } else {
                    BeatOperator::Multiply
                };
                let item = BeatExpressionItem::Operator(op);
                proof {
                    let u_toks = spec_tokens_from(t@, start as int);
                    let rest = spec_tokens_from(t@, start + 1);
                    assert(u_toks == seq![seq![t@[start as int]]] + rest);
                    lemma_items_of_cons(seq![t@[start as int]], rest);
                    assert(seq![t@[start as int]] =~= seq![c]);
                    if c == '+' {
                        assert(seq![c] == seq!['+']);
                    } else if c == '-' {
                        assert(seq![c] =~= seq!['-']);
                        assert(seq![c] != seq!['+']) by {
                            assert(seq!['-'][0] == '-');
                            assert(seq!['+'][0] == '+');
                        }
                    } else {
                        assert(seq![c] =~= seq!['*']);
                        assert(seq![c] != seq!['+']) by {
                            assert(seq!['*'][0] == '*');
                            assert(seq!['+'][0] == '+');
                        }
                        assert(seq![c] != seq!['-']) by {
                            assert(seq!['*'][0] == '*');
                            assert(seq!['-'][0] == '-');
                        }
                    }
                    assert(spec_token_item(seq![c]) == Ok::<BeatExpressionItem, MtxtError>(item));
                    lemma_items_append_push(items@, item, spec_items_of_tokens(rest));
                }
                items.push(item);
                start = start + 1;
            } else {
                // scan to the next operator
                let mut p: usize = start;
                while p < m && !is_op_char(t.get_char(p))
                    invariant
                        start <= p <= m,
                        m == t@.len(),
                        forall|k: int| start <= k < p ==> !spec_is_op_char(#[trigger] t@[k]),
                    decreases m - p,
                {
                    p = p + 1;
                }
                proof {
                    lemma_op_end(t@, start as int);
                    assert(p == spec_op_end(t@, start as int)) by {
                        let q = spec_op_end(t@, start as int);
                        if p < q {
                            assert(p < m);
                            assert(spec_is_op_char(t@[p as int]));
                        }
                        if q < p {
                            assert(q < m);
                            assert(spec_is_op_char(t@[q]));
                        }
                    }
                    assert(spec_op_end(t@, start as int) == spec_op_end(t@, start + 1));
                }
                let lex = t.substring_char(start, p);
                let ghost tok = t@.subrange(start as int, p as int);
                proof {
                    let u_toks = spec_tokens_from(t@, start as int);
                    let rest = spec_tokens_from(t@, p as int);
                    assert(u_toks == seq![tok] + rest);
                    lemma_items_of_cons(tok, rest);
                    // a value token is not an operator token
                    assert(tok.len() >= 1);
                    assert(tok[0] == t@[start as int]);
                    assert(!spec_is_op_char(tok[0]));
                    assert(tok != seq!['+']) by {
                        if tok == seq!['+'] {
                            assert(tok[0] == '+');
                        }
                    }
                    assert(tok != seq!['-']) by {
                        if tok == seq!['-'] {
                            assert(tok[0] == '-');
                        }
                    }
                    assert(tok != seq!['*']) by {
                        if tok == seq!['*'] {
                            assert(tok[0] == '*');
                        }
                    }
                }
                match parse_beat_value(lex) {
                    Ok(v) => {
                        let item = BeatExpressionItem::Value(v);
                        proof {
                            let rest = spec_tokens_from(t@, p as int);
                            assert(spec_token_item(tok) == Ok::<BeatExpressionItem, MtxtError>(
                                item,
                            ));
                            lemma_items_append_push(items@, item, spec_items_of_tokens(rest));
                            match v {
                                BeatValue::Fraction(f) => {
                                    assert(f.denominator != 0);
                                },
                                BeatValue::Time(bt) => {},
                            }
                        }
                        items.push(item);
                        start = p;
                    },
                    Err(e) => {
                        proof {
                            assert(spec_token_item(tok) == Err::<BeatExpressionItem, MtxtError>(
                                e,
                            ));
                        }
                        return Err(e);
                    },
                }
            }
        }
        proof {
            assert(spec_tokens_from(t@, start as int) =~= Seq::<Seq<char>>::empty());
            assert(spec_items_of_tokens(Seq::<Seq<char>>::empty())
                == Ok::<Seq<BeatExpressionItem>, MtxtError>(Seq::empty()));
            assert(items@ + Seq::<BeatExpressionItem>::empty() =~= items@);
            assert(spec_items_of_tokens(spec_tokens_from(t@, 0))
                == Ok::<Seq<BeatExpressionItem>, MtxtError>(items@));
        }
        // multiply rule
        let mut i: usize = 0;
        while i < items.len()
            invariant
                0 <= i <= items@.len(),
                t@ == spec_trimmed(s@),
                t@.len() > 0,
                !spec_has_space(t@),
                spec_items_of_tokens(spec_expr_tokens(t@)) == Ok::<
                    Seq<BeatExpressionItem>,
                    MtxtError,
                >(items@),
                spec_mul_check_from(items@, 0) == spec_mul_check_from(items@, i as int),
            decreases items@.len() - i,
        {
            if let BeatExpressionItem::Operator(BeatOperator::Multiply) = items[i] {
                if i == 0 || i == items.len() - 1 {
                    return Err(MtxtError::BadMultiplyPosition);
                }
                if let BeatExpressionItem::Value(BeatValue::Time(_)) = items[i - 1] {
                    return Err(MtxtError::BadMultiplyOperand);
                }
                if let BeatExpressionItem::Value(BeatValue::Time(_)) = items[i + 1] {
                    return Err(MtxtError::BadMultiplyOperand);
                }
            }
            proof {
                assert(spec_mul_check_at(items@, i as int) == Ok::<(), MtxtError>(()));
            }
            i = i + 1;
        }
        // strict alternation: value, operator, …, value
        if items.len() % 2 == 0 {
            proof {
                assert(!spec_items_alternate(items@));
            }
            return Err(MtxtError::InputParse);
        }
        let mut k: usize = 0;
        while k < items.len()
            invariant
                0 <= k <= items@.len(),
                items@.len() % 2 == 1,
                t@ == spec_trimmed(s@),
                t@.len() > 0,
                !spec_has_space(t@),
                spec_items_of_tokens(spec_expr_tokens(t@)) == Ok::<
                    Seq<BeatExpressionItem>,
                    MtxtError,
                >(items@),
                spec_mul_check_from(items@, 0) == Ok::<(), MtxtError>(()),
                spec_items_valid(items@),
                forall|j: int|
                    0 <= j < k ==> (if j % 2 == 0 {
                        (#[trigger] items@[j]) is Value
                    } else {
                        items@[j] is Operator
                    }),
            decreases items@.len() - k,
        {
            let fits = match items[k] {
                BeatExpressionItem::Value(_) => k % 2 == 0,
                BeatExpressionItem::Operator(_) => k % 2 == 1,
            };
            if !fits {
                proof {
                    assert(if k as int % 2 == 0 {
                        !(items@[k as int] is Value)
                    } else {
                        !(items@[k as int] is Operator)
                    });
                    assert(!spec_items_alternate(items@));
                }
                return Err(MtxtError::InputParse);
            }
            k = k + 1;
        }
        proof {
            assert(spec_items_alternate(items@));
        }
        let expr = BeatExpression { items };
        let (pos, neg) = expr.evaluate_sums();
        if pos.lt(&neg) {
            return Err(MtxtError::NegativeResult);
        }
        Ok(expr)
    }
}

/// The canonical text of an operand.
pub open spec fn spec_value_text(v: BeatValue) -> Seq<char> {
    match v {
        BeatValue::Time(t) => spec_beat_text(t.nanos),
        BeatValue::Fraction(f) => spec_fraction_text(f.numerator, f.denominator),
    }
}

/// The character of an operator.
pub open spec fn spec_operator_char(op: BeatOperator) -> char {
    match op {
        BeatOperator::Plus => '+',
        BeatOperator::Minus => '-',
        BeatOperator::Multiply => '*',
    }
}

/// The text of one expression item.
pub open spec fn spec_item_text(item: BeatExpressionItem) -> Seq<char> {
    match item {
        BeatExpressionItem::Value(v) => spec_value_text(v),
        BeatExpressionItem::Operator(op) => seq![spec_operator_char(op)],
    }
}

/// The text of an item list: the item texts in order, with no separators.
pub open spec fn spec_items_text(items: Seq<BeatExpressionItem>) -> Seq<char>
    decreases items.len(),
{
    if items.len() == 0 {
        Seq::empty()
    } else {
        spec_items_text(items.drop_last()) + spec_item_text(items.last())
    }
}

impl BeatOperator {
    /// The operator's character.
    pub fn to_char(&self) -> (c: char)
        ensures
            c == spec_operator_char(*self),
    {
        match self {
            BeatOperator::Plus => '+',
            BeatOperator::Minus => '-',
            BeatOperator::Multiply => '*',
        }
    }
}

impl BeatValue {
    /// The operand's canonical text.
    pub fn to_text(&self) -> (s: String)
        ensures
            s@ == spec_value_text(*self),
    {
        match self {
            BeatValue::Time(t) => t.to_text(),
            BeatValue::Fraction(f) => f.to_text(),
        }
    }
}

impl BeatExpression {
    /// The expression's text: the item texts in order.
    pub fn to_text(&self) -> (s: String)
        ensures
            s@ == spec_items_text(self.items@),
    {
        let mut s = String::new();
        let mut i: usize = 0;
        proof {
            assert(s@ =~= spec_items_text(self.items@.take(0)));
        }
        while i < self.items.len()
            invariant
                0 <= i <= self.items@.len(),
                s@ == spec_items_text(self.items@.take(i as int)),
            decreases self.items@.len() - i,
        {
            let item = self.items[i];
            match item {
                BeatExpressionItem::Value(v) => {
                    let vt = v.to_text();
                    s.append(vt.as_str());
                },
                BeatExpressionItem::Operator(op) => {
                    crate::text::push_char(&mut s, op.to_char());
                },
            }
            proof {
                let t = self.items@.take(i + 1);
                assert(t.drop_last() =~= self.items@.take(i as int));
                assert(t.last() == self.items@[i as int]);
                assert(s@ =~= spec_items_text(self.items@.take(i + 1)));
            }
            i = i + 1;
        }
        proof {
            assert(self.items@.take(self.items@.len() as int) =~= self.items@);
        }
        s
    }
}

/// Whether a digit run has no leading zero (a lone zero is allowed).
pub open spec fn spec_no_leading_zero(d: Seq<char>) -> bool {
    d.len() == 1 || d[0] != '0'
}

/// Whether `t` is a fraction lexeme in canonical form: no leading zeros on
/// either side.
pub open spec fn spec_canonical_fraction_lexeme(t: Seq<char>) -> bool {
    &&& spec_is_fraction_lexeme(t)
    &&& spec_no_leading_zero(t.take(crate::beat_fraction::spec_slash_pos(t)))
    &&& spec_no_leading_zero(t.skip(crate::beat_fraction::spec_slash_pos(t) + 1))
}

/// Whether `t` is a beat literal in canonical form: a decimal point is
/// present, the whole part has no leading zero and fits in 32 bits, and the
/// fraction has at most nine digits and no trailing zero unless it is the
/// only digit.
pub open spec fn spec_canonical_beat_lexeme(t: Seq<char>) -> bool {
    let d = spec_dot_pos(t);
    &&& spec_is_beat_lexeme(t)
    &&& d < t.len()
    &&& spec_digits_val(t.take(d)) <= u32::MAX
    &&& spec_no_leading_zero(t.take(d))
    &&& t.len() - d - 1 <= 9
    &&& (t.len() - d - 1 == 1 || t.last() != '0')
}

/// Whether `t` is a one-character operator token.
pub open spec fn spec_is_op_token(t: Seq<char>) -> bool {
    t == seq!['+'] || t == seq!['-'] || t == seq!['*']
}

/// Whether a token is in canonical form.
pub open spec fn spec_canonical_token(t: Seq<char>) -> bool {
    ||| spec_is_op_token(t)
    ||| spec_canonical_fraction_lexeme(t)
    ||| spec_canonical_beat_lexeme(t)
}

/// A canonical value lexeme prints back to itself.
proof fn lemma_value_text_canon(t: Seq<char>)
    requires
        spec_value_of(t) is Ok,
        spec_canonical_fraction_lexeme(t) || spec_canonical_beat_lexeme(t),
    ensures
        spec_value_text(spec_value_of(t)->Ok_0) == t,
{
    if spec_has_slash(t) {
        let p = crate::beat_fraction::spec_slash_pos(t);
        lemma_slash_pos(t);
        assert(spec_is_fraction_lexeme(t)) by {
            if !spec_is_fraction_lexeme(t) {
                assert(spec_value_of(t) is Err);
            }
        }
        assert(spec_canonical_fraction_lexeme(t)) by {
            if spec_canonical_beat_lexeme(t) && !spec_canonical_fraction_lexeme(t) {
                // a beat lexeme has no slash
                let d = spec_dot_pos(t);
                crate::beat_time::lemma_dot_pos(t);
                assert(spec_is_beat_lexeme(t));
                if p < d {
                    assert(spec_all_digits(t.take(d)));
                    assert(t.take(d)[p] == t[p]);
                    assert(t[p] == '/');
                    assert(!crate::text::spec_is_digit('/'));
                } else {
                    assert(d < t.len());
                    assert(t[d] == '.');
                    if d < p {
                        assert(spec_all_digits(t.take(p)));
                        assert(t.take(p)[d] == t[d]);
                        assert(!crate::text::spec_is_digit('.'));
                    } else {
                        assert(p == d);
                        assert(t[p] == '/');
                    }
                }
            }
        }
        let num = spec_fraction_num(t);
        let den = spec_fraction_den(t);
        crate::text::lemma_digits_canon(t.take(p));
        crate::text::lemma_digits_canon(t.skip(p + 1));
        assert(spec_fraction_text(num as u32, den as u32) == crate::text::spec_nat_digits(num)
            + seq!['/'] + crate::text::spec_nat_digits(den));
        assert(t.take(p) + seq!['/'] + t.skip(p + 1) =~= t);
    } else {
        assert(spec_is_beat_lexeme(t) && spec_digits_val(t.take(spec_dot_pos(t))) <= u32::MAX)
            by {
            if !(spec_is_beat_lexeme(t) && spec_digits_val(t.take(spec_dot_pos(t)))
                <= u32::MAX) {
                assert(spec_value_of(t) is Err);
            }
        }
        assert(spec_canonical_beat_lexeme(t)) by {
            if spec_canonical_fraction_lexeme(t) && !spec_canonical_beat_lexeme(t) {
                crate::beat_fraction::lemma_slash_pos(t);
                let p = crate::beat_fraction::spec_slash_pos(t);
                assert(p + 2 <= t.len());
                assert(t[p] == '/');
                assert(spec_has_slash(t));
            }
        }
        let d = spec_dot_pos(t);
        crate::beat_time::lemma_dot_pos(t);
        let whole = spec_digits_val(t.take(d));
        let f = t.skip(d + 1);
        assert(1 <= f.len() <= 9);
        assert(f.take(f.len() as int) =~= f);
        let fv = spec_digits_val(f);
        let frac = fv * crate::text::spec_pow10((9 - f.len()) as nat);
        assert(spec_beat_lexeme_nanos(t) == whole * 1_000_000_000 + frac);
        crate::text::lemma_digits_val_bound(f);
        crate::text::lemma_pow10_add(f.len() as nat, (9 - f.len()) as nat);
        assert(crate::text::spec_pow10(9) == 1_000_000_000) by {
            reveal_with_fuel(crate::text::spec_pow10, 10);
        }
        assert(frac < 1_000_000_000) by (nonlinear_arith)
            requires
                fv < crate::text::spec_pow10(f.len() as nat),
                frac == fv * crate::text::spec_pow10((9 - f.len()) as nat),
                crate::text::spec_pow10(f.len() as nat) * crate::text::spec_pow10(
                    (9 - f.len()) as nat,
                ) == 1_000_000_000,
        ;
        let nanos = spec_beat_lexeme_nanos(t);
        assert(nanos / 1_000_000_000 == whole && nanos % 1_000_000_000 == frac)
            by (nonlinear_arith)
            requires
                nanos == whole * 1_000_000_000 + frac,
                frac < 1_000_000_000,
        ;
        crate::text::lemma_digits_canon(t.take(d));
        assert(f.len() == 1 ==> f.last() == f[0]);
        assert(f.last() == t.last()) by {
            assert(f[f.len() - 1] == t[t.len() - 1]);
        }
        crate::beat_time::lemma_frac_text_of_digits(f);
        assert(spec_beat_text(nanos as u64) == crate::text::spec_nat_digits(whole) + seq!['.']
            + crate::beat_time::spec_frac_text(frac, 9));
        assert(t.take(d) + seq!['.'] + t.skip(d + 1) =~= t);
    }
}

/// The head decomposition of an item list's text.
proof fn lemma_items_text_cons(it: BeatExpressionItem, rest: Seq<BeatExpressionItem>)
    ensures
        spec_items_text(seq![it] + rest) == spec_item_text(it) + spec_items_text(rest),
    decreases rest.len(),
{
    let whole = seq![it] + rest;
    if rest.len() == 0 {
        assert(whole =~= seq![it]);
        assert(seq![it].drop_last() =~= Seq::<BeatExpressionItem>::empty());
        assert(spec_items_text(Seq::<BeatExpressionItem>::empty()) == Seq::<char>::empty());
        assert(Seq::<char>::empty() + spec_item_text(it) =~= spec_item_text(it) + Seq::<
            char,
        >::empty());
        assert(spec_item_text(it) + Seq::<char>::empty() =~= spec_item_text(it));
        assert(spec_item_text(it) + spec_items_text(rest) =~= spec_item_text(it));
    } else {
        lemma_items_text_cons(it, rest.drop_last());
        assert(whole.drop_last() =~= seq![it] + rest.drop_last());
        assert(whole.last() == rest.last());
        assert(spec_items_text(whole) == spec_items_text(seq![it] + rest.drop_last())
            + spec_item_text(rest.last()));
        assert((spec_item_text(it) + spec_items_text(rest.drop_last())) + spec_item_text(
            rest.last(),
        ) =~= spec_item_text(it) + (spec_items_text(rest.drop_last()) + spec_item_text(
            rest.last(),
        )));
    }
}

/// Printing the items parsed from position `start` on reproduces the text
/// from `start` on, when every token is canonical.
proof fn lemma_roundtrip_from(t: Seq<char>, start: int)
    requires
        0 <= start <= t.len(),
        spec_items_of_tokens(spec_tokens_from(t, start)) is Ok,
        forall|i: int|
            0 <= i < spec_tokens_from(t, start).len() ==> spec_canonical_token(
                #[trigger] spec_tokens_from(t, start)[i],
            ),
    ensures
        spec_items_text(spec_items_of_tokens(spec_tokens_from(t, start))->Ok_0) == t.skip(start),
    decreases t.len() - start,
{
    if start >= t.len() {
        assert(spec_tokens_from(t, start) =~= Seq::<Seq<char>>::empty());
        assert(spec_items_of_tokens(Seq::<Seq<char>>::empty()) == Ok::<
            Seq<BeatExpressionItem>,
            MtxtError,
        >(Seq::empty()));
        assert(t.skip(start) =~= Seq::<char>::empty());
    } else if spec_is_op_char(t[start]) {
        let tok = seq![t[start]];
        let rest = spec_tokens_from(t, start + 1);
        let toks = spec_tokens_from(t, start);
        assert(toks == seq![tok] + rest);
        lemma_items_of_cons(tok, rest);
        assert(toks[0] == tok);
        assert(spec_canonical_token(tok));
        assert(spec_token_item(tok) is Ok) by {
            if spec_token_item(tok) is Err {
                assert(spec_items_of_tokens(toks) is Err);
            }
        }
        let it = spec_token_item(tok)->Ok_0;
        assert(spec_items_of_tokens(rest) is Ok) by {
            if spec_items_of_tokens(rest) is Err {
                assert(spec_items_of_tokens(toks) is Err);
            }
        }
        assert forall|i: int| 0 <= i < rest.len() implies spec_canonical_token(
            #[trigger] rest[i],
        ) by {
            assert(rest[i] == toks[i + 1]);
        }
        lemma_roundtrip_from(t, start + 1);
        let rest_items = spec_items_of_tokens(rest)->Ok_0;
        assert(spec_items_of_tokens(toks)->Ok_0 == seq![it] + rest_items);
        lemma_items_text_cons(it, rest_items);
        assert(spec_item_text(it) == tok) by {
            if t[start] == '+' {
                assert(tok =~= seq!['+']);
                assert(spec_item_text(it) =~= seq!['+']);
            } else if t[start] == '-' {
                assert(tok =~= seq!['-']);
                assert(seq!['-'][0] == '-');
                assert(seq!['+'][0] == '+');
                assert(tok != seq!['+']);
                assert(spec_item_text(it) =~= seq!['-']);
            } else {
                assert(tok =~= seq!['*']);
                assert(seq!['*'][0] == '*');
                assert(seq!['+'][0] == '+');
                assert(seq!['-'][0] == '-');
                assert(tok != seq!['+'] && tok != seq!['-']);
                assert(spec_item_text(it) =~= seq!['*']);
            }
        }
        assert(tok + t.skip(start + 1) =~= t.skip(start));
    } else {
        lemma_op_end(t, start + 1);
        let p = spec_op_end(t, start + 1);
        let tok = t.subrange(start, p);
        let rest = spec_tokens_from(t, p);
        let toks = spec_tokens_from(t, start);
        assert(toks == seq![tok] + rest);
        lemma_items_of_cons(tok, rest);
        assert(toks[0] == tok);
        assert(spec_canonical_token(tok));
        assert(spec_token_item(tok) is Ok) by {
            if spec_token_item(tok) is Err {
                assert(spec_items_of_tokens(toks) is Err);
            }
        }
        assert(tok[0] == t[start]);
        assert(!spec_is_op_token(tok)) by {
            if tok == seq!['+'] {
                assert(tok[0] == '+');
            }
            if tok == seq!['-'] {
                assert(tok[0] == '-');
            }
            if tok == seq!['*'] {
                assert(tok[0] == '*');
            }
        }
        assert(spec_value_of(tok) is Ok);
        let v = spec_value_of(tok)->Ok_0;
        let it = spec_token_item(tok)->Ok_0;
        assert(it == BeatExpressionItem::Value(v));
        lemma_value_text_canon(tok);
        assert(spec_item_text(it) == tok);
        assert(spec_items_of_tokens(rest) is Ok) by {
            if spec_items_of_tokens(rest) is Err {
                assert(spec_items_of_tokens(toks) is Err);
            }
        }
        assert forall|i: int| 0 <= i < rest.len() implies spec_canonical_token(
            #[trigger] rest[i],
        ) by {
            assert(rest[i] == toks[i + 1]);
        }
        lemma_roundtrip_from(t, p);
        let rest_items = spec_items_of_tokens(rest)->Ok_0;
        assert(spec_items_of_tokens(toks)->Ok_0 == seq![it] + rest_items);
        lemma_items_text_cons(it, rest_items);
        assert(tok + t.skip(p) =~= t.skip(start));
    }
}

/// Printing a parsed expression reproduces the trimmed input whenever every
/// lexeme is written in canonical form: fractions without leading zeros, and
/// beat literals with a decimal point, no leading zeros, and at most nine
/// fractional digits without a trailing zero.
pub proof fn lemma_parse_print_roundtrip(s: Seq<char>)
    requires
        spec_parse_expression(s) is Ok,
        forall|i: int|
            0 <= i < spec_expr_tokens(spec_trimmed(s)).len() ==> spec_canonical_token(
                #[trigger] spec_expr_tokens(spec_trimmed(s))[i],
            ),
    ensures
        spec_items_text(spec_parse_expression(s)->Ok_0) == spec_trimmed(s),
{
    let t = spec_trimmed(s);
    assert(spec_items_of_tokens(spec_expr_tokens(t)) is Ok) by {
        if spec_items_of_tokens(spec_expr_tokens(t)) is Err {
            assert(spec_parse_expression(s) is Err);
        }
    }
    lemma_roundtrip_from(t, 0);
    assert(t.skip(0) =~= t);
    assert(spec_parse_expression(s)->Ok_0 == spec_items_of_tokens(spec_expr_tokens(t))->Ok_0);
}

/// Evaluation splits over concatenation of item lists.
proof fn lemma_eval_append(a: Seq<BeatExpressionItem>, b: Seq<BeatExpressionItem>, st: EvalState)
    ensures
        spec_eval_items(a + b, st) == spec_eval_items(b, spec_eval_items(a, st)),
    decreases b.len(),
{
    if b.len() == 0 {
        assert(a + b =~= a);
    } else {
        lemma_eval_append(a, b.drop_last(), st);
        assert((a + b).drop_last() =~= a + b.drop_last());
        assert((a + b).last() == b.last());
    }
}

/// Evaluation from a state with committed sums `(p, n)` equals evaluation
/// from the same state with zero sums, with `p` and `n` added at the end.
proof fn lemma_eval_offset(b: Seq<BeatExpressionItem>, p: u64, n: u64, term: Option<u64>, minus: bool)
    ensures
        ({
            let base = spec_eval_items(b, EvalState { pos: 0, neg: 0, term, minus });
            spec_eval_items(b, EvalState { pos: p, neg: n, term, minus }) == EvalState {
                pos: spec_sat_add(p, base.pos),
                neg: spec_sat_add(n, base.neg),
                term: base.term,
                minus: base.minus,
            }
        }),
    decreases b.len(),
{
    let st0 = EvalState { pos: 0, neg: 0, term, minus };
    let stp = EvalState { pos: p, neg: n, term, minus };
    if b.len() == 0 {
        assert(spec_sat_add(p, 0) == p);
        assert(spec_sat_add(n, 0) == n);
        assert(spec_eval_items(b, stp) =~= stp);
    } else {
        lemma_eval_offset(b.drop_last(), p, n, term, minus);
        let base = spec_eval_items(b.drop_last(), st0);
        let off = spec_eval_items(b.drop_last(), stp);
        assert(off == EvalState {
            pos: spec_sat_add(p, base.pos),
            neg: spec_sat_add(n, base.neg),
            term: base.term,
            minus: base.minus,
        });
        match b.last() {
            BeatExpressionItem::Value(v) => {},
            BeatExpressionItem::Operator(op) => match op {
                BeatOperator::Multiply => {},
                BeatOperator::Plus => {
                    match base.term {
                        Some(ct) => {
                            assert(spec_sat_add(spec_sat_add(p, base.pos), ct) == spec_sat_add(
                                p,
                                spec_sat_add(base.pos, ct),
                            ));
                        },
                        None => {},
                    }
                },
                BeatOperator::Minus => {
                    match base.term {
                        Some(ct) => {
                            assert(spec_sat_add(spec_sat_add(n, base.neg), ct) == spec_sat_add(
                                n,
                                spec_sat_add(base.neg, ct),
                            ));
                        },
                        None => {},
                    }
                },
            },
        }
    }
}

/// Evaluation is independent of additive grouping: splitting an expression
/// at a top-level `+` evaluates each side on its own and adds the positive
/// and the negative sums pointwise. `lemma_additive_permutation` lifts this
/// to arbitrary reorderings of the added terms.
pub proof fn lemma_additive_grouping(a: Seq<BeatExpressionItem>, b: Seq<BeatExpressionItem>)
    ensures
        spec_sums(a + seq![BeatExpressionItem::Operator(BeatOperator::Plus)] + b) == (
            spec_sat_add(spec_sums(a).0, spec_sums(b).0),
            spec_sat_add(spec_sums(a).1, spec_sums(b).1),
        ),
{
    let plus = seq![BeatExpressionItem::Operator(BeatOperator::Plus)];
    let st0 = spec_eval_start();
    lemma_eval_append(a + plus, b, st0);
    lemma_eval_append(a, plus, st0);
    assert((a + plus) + b =~= a + plus + b);
    let sta = spec_eval_items(a, st0);
    let ca = spec_commit(sta);
    assert(spec_eval_items(plus, st0) == spec_eval_step(st0, plus[0])) by {
        assert(plus.drop_last() =~= Seq::<BeatExpressionItem>::empty());
        assert(spec_eval_items(Seq::<BeatExpressionItem>::empty(), st0) == st0);
        assert(plus.last() == plus[0]);
    }
    assert(spec_eval_items(plus, sta) == spec_eval_step(sta, plus[0])) by {
        assert(plus.drop_last() =~= Seq::<BeatExpressionItem>::empty());
        assert(spec_eval_items(Seq::<BeatExpressionItem>::empty(), sta) == sta);
        assert(plus.last() == plus[0]);
    }
    let st1 = spec_eval_step(sta, plus[0]);
    assert(st1 == EvalState { pos: ca.0, neg: ca.1, term: None, minus: false });
    lemma_eval_offset(b, ca.0, ca.1, None, false);
    let base = spec_eval_items(b, EvalState { pos: 0, neg: 0, term: None, minus: false });
    assert(spec_eval_items(b, st1) == EvalState {
        pos: spec_sat_add(ca.0, base.pos),
        neg: spec_sat_add(ca.1, base.neg),
        term: base.term,
        minus: base.minus,
    });
    let cb = spec_commit(base);
    match base.term {
        Some(ct) => {
            if base.minus {
                assert(spec_sat_add(spec_sat_add(ca.1, base.neg), ct) == spec_sat_add(
                    ca.1,
                    spec_sat_add(base.neg, ct),
                ));
            } else {
                assert(spec_sat_add(spec_sat_add(ca.0, base.pos), ct) == spec_sat_add(
                    ca.0,
                    spec_sat_add(base.pos, ct),
                ));
            }
        },
        None => {},
    }
    assert(spec_eval_items(b, EvalState { pos: 0, neg: 0, term: None, minus: false })
        == spec_eval_items(b, st0));
}

/// The items of `+`-joined term blocks: the blocks in order, one `+`
/// between each neighbouring pair.
pub open spec fn spec_joined_terms(blocks: Seq<Seq<BeatExpressionItem>>) -> Seq<
    BeatExpressionItem,
>
    decreases blocks.len(),
{
    if blocks.len() == 0 {
        Seq::empty()
    } else if blocks.len() == 1 {
        blocks[0]
    } else {
        spec_joined_terms(blocks.drop_last()) + seq![
            BeatExpressionItem::Operator(BeatOperator::Plus),
        ] + blocks.last()
    }
}

/// Adds one block's sums onto an accumulated pair of sums.
pub open spec fn spec_sums_join_step(blk: Seq<BeatExpressionItem>, acc: (u64, u64)) -> (u64, u64) {
    (spec_sat_add(acc.0, spec_sums(blk).0), spec_sat_add(acc.1, spec_sums(blk).1))
}

/// The sums of `+`-joined blocks are the saturating sums of the blocks' own
/// sums, folded in any one order.
proof fn lemma_joined_sums(
    blocks: Seq<Seq<BeatExpressionItem>>,
    f: spec_fn(Seq<BeatExpressionItem>, (u64, u64)) -> (u64, u64),
)
    requires
        forall|blk: Seq<BeatExpressionItem>, acc: (u64, u64)| #[trigger] f(blk, acc)
            == spec_sums_join_step(blk, acc),
    ensures
        spec_sums(spec_joined_terms(blocks)) == blocks.fold_right(f, (0u64, 0u64)),
    decreases blocks.len(),
{
    let v0 = (0u64, 0u64);
    if blocks.len() == 0 {
        assert(spec_eval_items(Seq::<BeatExpressionItem>::empty(), spec_eval_start())
            == spec_eval_start());
        assert(spec_sums(spec_joined_terms(blocks)) == v0);
    } else if blocks.len() == 1 {
        assert(blocks.drop_last() =~= Seq::<Seq<BeatExpressionItem>>::empty());
        assert(blocks.last() == blocks[0]);
        assert(Seq::<Seq<BeatExpressionItem>>::empty().fold_right(f, f(blocks[0], v0)) == f(
            blocks[0],
            v0,
        ));
        assert(blocks.fold_right(f, v0) == f(blocks[0], v0));
        assert(spec_sat_add(0, spec_sums(blocks[0]).0) == spec_sums(blocks[0]).0);
        assert(spec_sat_add(0, spec_sums(blocks[0]).1) == spec_sums(blocks[0]).1);
    } else {
        let rest = blocks.drop_last();
        let last = blocks.last();
        lemma_joined_sums(rest, f);
        lemma_additive_grouping(spec_joined_terms(rest), last);
        assert(vstd::seq_lib::commutative_foldr(f)) by {
            assert forall|x: Seq<BeatExpressionItem>, y: Seq<BeatExpressionItem>, v: (u64, u64)|
                #[trigger] f(x, f(y, v)) == f(y, f(x, v)) by {
                assert(f(x, f(y, v)) == spec_sums_join_step(x, spec_sums_join_step(y, v)));
                assert(f(y, f(x, v)) == spec_sums_join_step(y, spec_sums_join_step(x, v)));
            }
        }
        rest.lemma_fold_right_commute_one(last, f, v0);
        assert(blocks.fold_right(f, v0) == rest.fold_right(f, f(last, v0)));
        assert(rest.fold_right(f, f(last, v0)) == f(last, rest.fold_right(f, v0)));
    }
}

/// Evaluation is independent of the order of `+`-joined terms: two
/// expressions whose term blocks are the same multiset have the same sums,
/// and so the same value.
pub proof fn lemma_additive_permutation(
    b1: Seq<Seq<BeatExpressionItem>>,
    b2: Seq<Seq<BeatExpressionItem>>,
)
    requires
        b1.to_multiset() == b2.to_multiset(),
    ensures
        spec_sums(spec_joined_terms(b1)) == spec_sums(spec_joined_terms(b2)),
{
    let f = |blk: Seq<BeatExpressionItem>, acc: (u64, u64)| spec_sums_join_step(blk, acc);
    assert forall|blk: Seq<BeatExpressionItem>, acc: (u64, u64)| #[trigger] f(blk, acc)
        == spec_sums_join_step(blk, acc) by {}
    lemma_joined_sums(b1, f);
    lemma_joined_sums(b2, f);
    assert(vstd::seq_lib::commutative_foldr(f)) by {
        assert forall|x: Seq<BeatExpressionItem>, y: Seq<BeatExpressionItem>, v: (u64, u64)|
            #[trigger] f(x, f(y, v)) == f(y, f(x, v)) by {
            assert(f(x, f(y, v)) == spec_sums_join_step(x, spec_sums_join_step(y, v)));
            assert(f(y, f(x, v)) == spec_sums_join_step(y, spec_sums_join_step(x, v)));
        }
    }
    vstd::seq_lib::lemma_fold_right_permutation(b1, b2, f, (0u64, 0u64));
}

/// Prepending nothing changes nothing.
proof fn lemma_items_append_empty(r: Result<Seq<BeatExpressionItem>, MtxtError>)
    ensures
        spec_items_append(Seq::empty(), r) == r,
{
    match r {
        Ok(items) => {
            assert(Seq::<BeatExpressionItem>::empty() + items =~= items);
        },
        Err(e) => {},
    }
}

/// Unfolds `spec_items_of_tokens` over a leading token.
proof fn lemma_items_of_cons(tok: Seq<char>, rest: Seq<Seq<char>>)
    ensures
        spec_items_of_tokens(seq![tok] + rest) == (match spec_token_item(tok) {
            Err(e) => Err(e),
            Ok(it) => spec_items_append(seq![it], spec_items_of_tokens(rest)),
        }),
{
    let ts = seq![tok] + rest;
    assert(ts.len() >= 1);
    assert(ts[0] == tok);
    assert(ts.drop_first() =~= rest);
    match spec_token_item(tok) {
        Err(e) => {},
        Ok(it) => {
            match spec_items_of_tokens(rest) {
                Err(e) => {},
                Ok(r) => {
                    assert(spec_items_of_tokens(ts) == Ok::<Seq<BeatExpressionItem>, MtxtError>(
                        seq![it] + r,
                    ));
                },
            }
        },
    }
}

/// Moving one parsed item from the suffix result to the accumulator.
proof fn lemma_items_append_push(
    acc: Seq<BeatExpressionItem>,
    it: BeatExpressionItem,
    r: Result<Seq<BeatExpressionItem>, MtxtError>,
)
    ensures
        spec_items_append(acc, spec_items_append(seq![it], r)) == spec_items_append(
            acc.push(it),
            r,
        ),
{
    match r {
        Ok(items) => {
            assert(acc + (seq![it] + items) =~= acc.push(it) + items);
        },
        Err(e) => {},
    }
}

} // verus!
