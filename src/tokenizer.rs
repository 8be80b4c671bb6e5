//! The formula lexer and the infix-to-postfix converter.
use crate::number::Num;
use crate::operand::{
    Operand, OperandModel, Operator, Scalar, ScalarModel, precedence, spec_precedence,
};
use crate::text::{chars_of, piece};
use vstd::prelude::*;

verus! {

// ---------------------------------------------------------------------------
// Character classes
pub open spec fn is_letter(c: char) -> bool {
    (97 <= c as u32 <= 122) || (65 <= c as u32 <= 90)
}

pub open spec fn is_digit(c: char) -> bool {
    48 <= c as u32 <= 57
}

pub open spec fn is_op_char(c: char) -> bool {
    c == '+' || c == '-' || c == '/' || c == '*' || c == '<' || c == '=' || c == '>' || c == '!'
}

/// The characters skipped between tokens.
pub open spec fn is_blank(c: char) -> bool {
    c == ' ' || c == '\t' || c == '\n'
}

pub fn check_if_operand(c: &char) -> (r: bool)
    ensures
        r == is_letter(*c),
{
    let u: u32 = *c as u32;
    (97 <= u && u <= 122) || (65 <= u && u <= 90)
}

pub fn check_if_operator(c: &char) -> (r: bool)
    ensures
        r == is_op_char(*c),
{
    let c = *c;
    c == '+' || c == '-' || c == '/' || c == '*' || c == '<' || c == '=' || c == '>' || c == '!'
}

pub fn check_if_digit(c: &char) -> (r: bool)
    ensures
        r == is_digit(*c),
{
    let u: u32 = *c as u32;
    48 <= u && u <= 57
}

fn check_if_blank(c: char) -> (r: bool)
    ensures
        r == is_blank(c),
{
    c == ' ' || c == '\t' || c == '\n'
}

// ---------------------------------------------------------------------------
// Errors
/// Why a formula could not be read.
#[derive(Debug, Clone, PartialEq)]
pub enum LexError {
    UnknownSymbol { position: usize, symbol: char },
    UnterminatedString { position: usize },
    UnsupportedOperator { text: String, position: usize },
}

pub enum LexErrorModel {
    UnknownSymbol { position: int, symbol: char },
    UnterminatedString { position: int },
    UnsupportedOperator { text: Seq<char>, position: int },
}

impl View for LexError {
    type V = LexErrorModel;

    open spec fn view(&self) -> LexErrorModel {
        match self {
            LexError::UnknownSymbol { position, symbol } => LexErrorModel::UnknownSymbol {
                position: *position as int,
                symbol: *symbol,
            },
            LexError::UnterminatedString { position } => LexErrorModel::UnterminatedString {
                position: *position as int,
            },
            LexError::UnsupportedOperator { text, position } => LexErrorModel::UnsupportedOperator {
                text: text@,
                position: *position as int,
            },
        }
    }
}

// ---------------------------------------------------------------------------
// The lexical grammar
/// End of the run of letters that starts at `i`.
pub open spec fn letters_end(s: Seq<char>, i: int) -> int
    decreases s.len() - i,
{
    if 0 <= i < s.len() && is_letter(s[i]) {
        letters_end(s, i + 1)
    } else {
        i
    }
}

/// End of the run of operator characters that starts at `i`.
pub open spec fn ops_end(s: Seq<char>, i: int) -> int
    decreases s.len() - i,
{
    if 0 <= i < s.len() && is_op_char(s[i]) {
        ops_end(s, i + 1)
    } else {
        i
    }
}

/// End of the run of digits, with at most one `.`, that starts at `i`.
pub open spec fn number_end(s: Seq<char>, i: int, seen_dot: bool) -> int
    decreases s.len() - i,
{
    if 0 <= i < s.len() && (is_digit(s[i]) || (s[i] == '.' && !seen_dot)) {
        number_end(s, i + 1, seen_dot || s[i] == '.')
    } else {
        i
    }
}

/// Index of the first `"` at or after `i`.
pub open spec fn quote_at_or_after(s: Seq<char>, i: int) -> Option<int>
    decreases s.len() - i,
{
    if i < 0 || i >= s.len() {
        None
    } else if s[i] == '"' {
        Some(i)
    } else {
        quote_at_or_after(s, i + 1)
    }
}

/// The integer spelled by the digits of `t`, ignoring any `.`.
pub open spec fn digits_value(t: Seq<char>) -> int
    decreases t.len(),
{
    if t.len() == 0 {
        0
    } else if t.last() == '.' {
        digits_value(t.drop_last())
    } else {
        digits_value(t.drop_last()) * 10 + (t.last() as u32 - 48)
    }
}

pub open spec fn has_dot(t: Seq<char>) -> bool
    decreases t.len(),
{
    t.len() > 0 && (t.last() == '.' || has_dot(t.drop_last()))
}

/// How many digits follow the `.` of `t` (0 without one).
pub open spec fn frac_len(t: Seq<char>) -> int
    decreases t.len(),
{
    if t.len() == 0 || t.last() == '.' {
        0
    } else if has_dot(t.drop_last()) {
        frac_len(t.drop_last()) + 1
    } else {
        0
    }
}

pub open spec fn pow10(k: int) -> int
    decreases k,
{
    if k <= 0 {
        1
    } else {
        10 * pow10(k - 1)
    }
}

/// Largest magnitude that the digits of a number token are read into.
pub const WIDE: i128 = 170141183460469231731687303715884105727;

/// `t` without the zeros that end its fraction.
pub open spec fn strip_zeros(t: Seq<char>) -> Seq<char>
    decreases t.len(),
{
    if t.len() > 0 && t.last() == '0' && has_dot(t) {
        strip_zeros(t.drop_last())
    } else {
        t
    }
}

/// The value of the number token `t`, in lowest terms. Zeros that end the
/// fraction are ignored; a value that the number type cannot hold, or whose
/// remaining digits or scale go beyond `WIDE`, is null.
pub open spec fn number_token(t: Seq<char>) -> OperandModel {
    let u = strip_zeros(t);
    let d = digits_value(u);
    let p = pow10(frac_len(u));
    if d <= WIDE && p <= WIDE {
        match Num::from_parts(d, p) {
            Some(n) => OperandModel::Primitive(ScalarModel::Number(n)),
            None => OperandModel::Primitive(ScalarModel::Null),
        }
    } else {
        OperandModel::Primitive(ScalarModel::Null)
    }
}

/// The operator that the text `w` names, if any.
pub open spec fn operator_of(w: Seq<char>) -> Option<Operator> {
    if w.len() == 1 {
        let c = w[0];
        if c == '+' {
            Some(Operator::Plus)
        } else if c == '-' {
            Some(Operator::Substract)
        } else if c == '*' {
            Some(Operator::Multiply)
        } else if c == '/' {
            Some(Operator::Division)
        } else if c == '=' {
            Some(Operator::E)
        } else if c == '<' {
            Some(Operator::L)
        } else if c == '>' {
            Some(Operator::G)
        } else {
            None
        }
    } else if w.len() == 2 && w[1] == '=' {
        let c = w[0];
        if c == '!' {
            Some(Operator::NE)
        } else if c == '<' {
            Some(Operator::LE)
        } else if c == '>' {
            Some(Operator::GE)
        } else {
            None
        }
    } else {
        None
    }
}

pub open spec fn is_true_word(w: Seq<char>) -> bool {
    w.len() == 4 && w[0] == 't' && w[1] == 'r' && w[2] == 'u' && w[3] == 'e'
}

pub open spec fn is_false_word(w: Seq<char>) -> bool {
    w.len() == 5 && w[0] == 'f' && w[1] == 'a' && w[2] == 'l' && w[3] == 's' && w[4] == 'e'
}

/// A word: `true` and `false` are booleans, anything else names a variable.
pub open spec fn word_token(w: Seq<char>) -> OperandModel {
    if is_true_word(w) {
        OperandModel::Primitive(ScalarModel::Bool(true))
    } else if is_false_word(w) {
        OperandModel::Primitive(ScalarModel::Bool(false))
    } else {
        OperandModel::Variable(w)
    }
}

/// The token that starts at `i`, and where it ends.
pub open spec fn token_at(s: Seq<char>, i: int) -> Result<(OperandModel, int), LexErrorModel> {
    let c = s[i];
    if c == '(' {
        Ok((OperandModel::OpenParen, i + 1))
    } else if c == ')' {
        Ok((OperandModel::CloseParen, i + 1))
    } else if c == '"' {
        match quote_at_or_after(s, i + 1) {
            Some(j) => Ok((OperandModel::Primitive(ScalarModel::Str(s.subrange(i + 1, j))), j + 1)),
            None => Err(LexErrorModel::UnterminatedString { position: i }),
        }
    } else if is_letter(c) {
        let e = letters_end(s, i);
        Ok((word_token(s.subrange(i, e)), e))
    } else if is_op_char(c) {
        let e = ops_end(s, i);
        match operator_of(s.subrange(i, e)) {
            Some(o) => Ok((OperandModel::OperatorToken(o), e)),
            None => Err(LexErrorModel::UnsupportedOperator { text: s.subrange(i, e), position: i }),
        }
    } else if is_digit(c) {
        let e = number_end(s, i, false);
        Ok((number_token(s.subrange(i, e)), e))
    } else {
        Err(LexErrorModel::UnknownSymbol { position: i, symbol: c })
    }
}

pub open spec fn prepend(p: Seq<OperandModel>, r: Result<Seq<OperandModel>, LexErrorModel>) -> Result<
    Seq<OperandModel>,
    LexErrorModel,
> {
    match r {
        Ok(ts) => Ok(p + ts),
        Err(e) => Err(e),
    }
}

/// The tokens of `s` from index `i` on.
pub open spec fn lex_from(s: Seq<char>, i: int) -> Result<Seq<OperandModel>, LexErrorModel>
    decreases s.len() - i,
{
    if i < 0 || i >= s.len() {
        Ok(Seq::empty())
    } else if is_blank(s[i]) {
        lex_from(s, i + 1)
    } else {
        match token_at(s, i) {
            Ok((t, e)) => if i < e <= s.len() {
                prepend(seq![t], lex_from(s, e))
            } else {
                Ok(seq![t])
            },
            Err(x) => Err(x),
        }
    }
}

/// The tokens of a whole formula.
pub open spec fn lex(s: Seq<char>) -> Result<Seq<OperandModel>, LexErrorModel> {
    lex_from(s, 0)
}

pub open spec fn models(v: Seq<Operand>) -> Seq<OperandModel> {
    v.map_values(|o: Operand| o@)
}

pub proof fn lemma_models_push(v: Seq<Operand>, o: Operand)
    ensures
        models(v.push(o)) == models(v).push(o@),
{
    assert(models(v.push(o)) =~= models(v).push(o@));
}

pub proof fn lemma_models_drop_last(v: Seq<Operand>)
    requires
        v.len() > 0,
    ensures
        models(v.drop_last()) == models(v).drop_last(),
        models(v).last() == v.last()@,
{
    assert(models(v.drop_last()) =~= models(v).drop_last());
}


// ---------------------------------------------------------------------------
// Infix to postfix
/// Why a token sequence has no postfix form.
#[derive(Debug, Clone, Copy, PartialEq, Eq, Structural)]
pub enum ParenError {
    UnmatchedOpenParen,
    UnmatchedCloseParen,
}

/// Moves operators from the top of `stack` to `out` while they bind at least
/// as tightly as `p`.
pub open spec fn pop_while(out: Seq<OperandModel>, stack: Seq<OperandModel>, p: int) -> (
    Seq<OperandModel>,
    Seq<OperandModel>,
)
    decreases stack.len(),
{
    if stack.len() > 0 && stack.last() is OperatorToken && spec_precedence(
        stack.last()->OperatorToken_0,
    ) >= p {
        pop_while(out.push(stack.last()), stack.drop_last(), p)
    } else {
        (out, stack)
    }
}

/// Moves entries from `stack` to `out` down to the nearest `(`, which is
/// dropped; `None` if there is none.
pub open spec fn pop_to_open(out: Seq<OperandModel>, stack: Seq<OperandModel>) -> Option<
    (Seq<OperandModel>, Seq<OperandModel>),
>
    decreases stack.len(),
{
    if stack.len() == 0 {
        None
    } else if stack.last() is OpenParen {
        Some((out, stack.drop_last()))
    } else {
        pop_to_open(out.push(stack.last()), stack.drop_last())
    }
}

/// One token of the conversion, on the output and the operator stack.
pub open spec fn sy_step(st: (Seq<OperandModel>, Seq<OperandModel>), t: OperandModel) -> Result<
    (Seq<OperandModel>, Seq<OperandModel>),
    ParenError,
> {
    match t {
        OperandModel::OpenParen => Ok((st.0, st.1.push(t))),
        OperandModel::CloseParen => match pop_to_open(st.0, st.1) {
            Some(x) => Ok(x),
            None => Err(ParenError::UnmatchedCloseParen),
        },
        OperandModel::OperatorToken(o) => {
            let x = pop_while(st.0, st.1, spec_precedence(o));
            Ok((x.0, x.1.push(t)))
        },
        _ => Ok((st.0.push(t), st.1)),
    }
}

/// The output and the operator stack after all of `ts`.
pub open spec fn sy_scan(ts: Seq<OperandModel>) -> Result<
    (Seq<OperandModel>, Seq<OperandModel>),
    ParenError,
>
    decreases ts.len(),
{
    if ts.len() == 0 {
        Ok((Seq::empty(), Seq::empty()))
    } else {
        match sy_scan(ts.drop_last()) {
            Ok(st) => sy_step(st, ts.last()),
            Err(e) => Err(e),
        }
    }
}

/// Moves what is left on the stack to `out`; a `(` left there is unmatched.
pub open spec fn drain(out: Seq<OperandModel>, stack: Seq<OperandModel>) -> Result<
    Seq<OperandModel>,
    ParenError,
>
    decreases stack.len(),
{
    if stack.len() == 0 {
        Ok(out)
    } else if stack.last() is OpenParen {
        Err(ParenError::UnmatchedOpenParen)
    } else {
        drain(out.push(stack.last()), stack.drop_last())
    }
}

/// The postfix form of an infix token sequence.
pub open spec fn postfix_of(ts: Seq<OperandModel>) -> Result<Seq<OperandModel>, ParenError> {
    match sy_scan(ts) {
        Ok(st) => drain(st.0, st.1),
        Err(e) => Err(e),
    }
}

// ---------------------------------------------------------------------------
// Span bookkeeping
/// A span of characters: where a token starts, once known, and where it ends.
pub struct TokenRange {
    pub tracking: bool,
    pub started_at: usize,
    pub ended_at: usize,
}

impl TokenRange {
    pub fn new() -> (r: TokenRange)
        ensures
            !r.tracking,
            r.started_at == 0,
            r.ended_at == 0,
    {
        TokenRange { tracking: false, started_at: 0, ended_at: 0 }
    }

    /// Records `i` as the start, unless a start is already known.
    pub fn set_start(&mut self, i: usize)
        ensures
            final(self).tracking,
            final(self).started_at == if old(self).tracking {
                old(self).started_at
            } else {
                i
            },
            final(self).ended_at == old(self).ended_at,
    {
        if !self.tracking {
            self.tracking = true;
            self.started_at = i;
        }
    }

    pub fn set_end(&mut self, i: usize)
        ensures
            final(self).ended_at == i,
            final(self).tracking == old(self).tracking,
            final(self).started_at == old(self).started_at,
    {
        self.ended_at = i;
    }
}

// ---------------------------------------------------------------------------
// The tokenizer
/// Reads a formula into tokens and converts them to postfix order.
pub struct Tokenizer {
    expression: String,
    parsed: bool,
    operands: Vec<Operand>,
}

pub open spec fn token_result(
    r: Result<(Operand, usize), LexError>,
    s: Result<(OperandModel, int), LexErrorModel>,
) -> bool {
    match s {
        Ok((t, e)) => r is Ok && (r->Ok_0).0@ == t && (r->Ok_0).1 as int == e,
        Err(x) => r is Err && r->Err_0@ == x,
    }
}

impl Tokenizer {
    /// The formula text.
    pub closed spec fn text(self) -> Seq<char> {
        self.expression@
    }

    /// The tokens read so far, with any inserted in front.
    pub closed spec fn tokens(self) -> Seq<OperandModel> {
        models(self.operands@)
    }

    /// Whether the text has been read.
    pub closed spec fn parsed(self) -> bool {
        self.parsed
    }

    pub fn new(expression: &str) -> (r: Tokenizer)
        ensures
            r.text() == expression@,
            r.tokens() == Seq::<OperandModel>::empty(),
            !r.parsed(),
    {
        let t = Tokenizer {
            expression: expression.to_owned(),
            parsed: false,
            operands: Vec::new(),
        };
        assert(models(t.operands@) =~= Seq::<OperandModel>::empty());
        t
    }

    /// The tokens read so far.
    pub fn operands(&self) -> (r: &Vec<Operand>)
        ensures
            models(r@) == self.tokens(),
    {
        &self.operands
    }

    fn consume_string(text: &str, cs: &Vec<char>, i: usize) -> (r: Result<(Operand, usize), LexError>)
        requires
            cs@ == text@,
            i < cs@.len(),
            cs@[i as int] == '"',
        ensures
            token_result(r, token_at(cs@, i as int)),
    {
        let n = cs.len();
        let mut j: usize = i + 1;
        while j < n && cs[j] != '"'
            invariant
                i < j <= n == cs@.len(),
                quote_at_or_after(cs@, j as int) == quote_at_or_after(
                    cs@,
                    i + 1,
                ),
            decreases n - j,
        {
            j = j + 1;
        }
        if j < n {
            let s = piece(text, i + 1, j);
            Ok((Operand::Primitive(Scalar::String(s)), j + 1))
        } else {
            Err(LexError::UnterminatedString { position: i })
        }
    }

    fn consume_variable(text: &str, cs: &Vec<char>, i: usize) -> (r: Result<(Operand, usize), LexError>)
        requires
            cs@ == text@,
            i < cs@.len(),
            is_letter(cs@[i as int]),
        ensures
            token_result(r, token_at(cs@, i as int)),
    {
        let n = cs.len();
        let mut j: usize = i;
        while j < n && check_if_operand(&cs[j])
            invariant
                i <= j <= n == cs@.len(),
                letters_end(cs@, j as int) == letters_end(cs@, i as int),
            decreases n - j,
        {
            j = j + 1;
        }
        let len: usize = j - i;
        let c0 = cs[i];
        if len == 4 && c0 == 't' && cs[i + 1] == 'r' && cs[i + 2] == 'u'
            && cs[i + 3] == 'e' {
            return Ok((Operand::Primitive(Scalar::Bool(true)), j));
        }
        if len == 5 && c0 == 'f' && cs[i + 1] == 'a' && cs[i + 2] == 'l'
            && cs[i + 3] == 's' && cs[i + 4] == 'e' {
            return Ok((Operand::Primitive(Scalar::Bool(false)), j));
        }
        let s = piece(text, i, j);
        Ok((Operand::Variable(s), j))
    }

    fn consume_operator(text: &str, cs: &Vec<char>, i: usize) -> (r: Result<(Operand, usize), LexError>)
        requires
            cs@ == text@,
            i < cs@.len(),
            is_op_char(cs@[i as int]),
        ensures
            token_result(r, token_at(cs@, i as int)),
    {
        let n = cs.len();
        let mut j: usize = i;
        while j < n && check_if_operator(&cs[j])
            invariant
                i <= j <= n == cs@.len(),
                ops_end(cs@, j as int) == ops_end(cs@, i as int),
            decreases n - j,
        {
            j = j + 1;
        }
        let ghost w = cs@.subrange(i as int, j as int);
        let len: usize = j - i;
        let c0 = cs[i];
        let mut found: Option<Operator> = None;
        if len == 1 {
            if c0 == '+' {
                found = Some(Operator::Plus);
            } else if c0 == '-' {
                found = Some(Operator::Substract);
            } else if c0 == '*' {
                found = Some(Operator::Multiply);
            } else if c0 == '/' {
                found = Some(Operator::Division);
            } else if c0 == '=' {
                found = Some(Operator::E);
            } else if c0 == '<' {
                found = Some(Operator::L);
            } else if c0 == '>' {
                found = Some(Operator::G);
            }
        } else if len == 2 {
            let c1 = cs[i + 1];
            if c1 == '=' {
                if c0 == '!' {
                    found = Some(Operator::NE);
                } else if c0 == '<' {
                    found = Some(Operator::LE);
                } else if c0 == '>' {
                    found = Some(Operator::GE);
                }
            }
        }
        assert(found == operator_of(w));
        match found {
            Some(o) => Ok((Operand::OperatorToken(o), j)),
            None => {
                let s = piece(text, i, j);
                Err(LexError::UnsupportedOperator { text: s, position: i })
            },
        }
    }

    fn consume_number(text: &str, cs: &Vec<char>, i: usize) -> (r: Result<(Operand, usize), LexError>)
        requires
            cs@ == text@,
            i < cs@.len(),
            is_digit(cs@[i as int]),
        ensures
            token_result(r, token_at(cs@, i as int)),
    {
        let n = cs.len();
        let mut range = TokenRange::new();
        let mut j: usize = i;
        let mut seen_dot = false;
        assert(cs@.subrange(i as int, i as int) =~= Seq::<char>::empty());
        while j < n && (check_if_digit(&cs[j]) || (cs[j] == '.' && !seen_dot))
            invariant
                i <= j <= n == cs@.len(),
                number_end(cs@, j as int, seen_dot) == number_end(
                    cs@,
                    i as int,
                    false,
                ),
                range.tracking ==> range.started_at == i,
                j > i ==> range.tracking && range.ended_at == j,
                seen_dot == has_dot(cs@.subrange(i as int, j as int)),
            decreases n - j,
        {
            assert(cs@.subrange(i as int, j + 1).drop_last() =~= cs@.subrange(i as int, j as int));
            if cs[j] == '.' {
                seen_dot = true;
            }
            range.set_start(j);
            j = j + 1;
            range.set_end(j);
        }
        proof {
            lemma_number_end_shape(cs@, i as int, false);
        }
        let ghost t = cs@.subrange(range.started_at as int, range.ended_at as int);
        let mut e: usize = j;
        while e > i && seen_dot && cs[e - 1] == '0'
            invariant
                i <= e <= j <= n == cs@.len(),
                seen_dot == has_dot(cs@.subrange(i as int, e as int)),
                strip_zeros(cs@.subrange(i as int, e as int)) == strip_zeros(
                    cs@.subrange(i as int, j as int),
                ),
            decreases e,
        {
            assert(cs@.subrange(i as int, e as int).drop_last() =~= cs@.subrange(i as int, e - 1));
            e = e - 1;
        }
        assert(strip_zeros(cs@.subrange(i as int, e as int)) == cs@.subrange(i as int, e as int));
        let mut acc: i128 = 0;
        let mut scale: i128 = 1;
        let mut acc_over = false;
        let mut scale_over = false;
        let mut dot = false;
        let mut k: usize = i;
        while k < e
            invariant
                i <= k <= e <= j <= n == cs@.len(),
                forall|x: int| i <= x < j ==> is_digit(#[trigger] cs@[x]) || cs@[x] == '.',
                dot == has_dot(cs@.subrange(i as int, k as int)),
                acc_over == (digits_value(cs@.subrange(i as int, k as int)) > WIDE),
                !acc_over ==> acc == digits_value(cs@.subrange(i as int, k as int)),
                0 <= acc <= WIDE,
                scale_over == (pow10(frac_len(cs@.subrange(i as int, k as int))) > WIDE),
                !scale_over ==> scale == pow10(frac_len(cs@.subrange(i as int, k as int))),
                1 <= scale <= WIDE,
            decreases e - k,
        {
            let c = cs[k];
            let ghost before = cs@.subrange(i as int, k as int);
            let ghost after = cs@.subrange(i as int, k + 1);
            assert(after.drop_last() =~= before);
            assert(after.last() == c);
            proof {
                lemma_frac_len_nonneg(before);
            }
            if c == '.' {
                dot = true;
                scale = 1;
                scale_over = false;
            } else {
                let d: i128 = (c as u32 - 48) as i128;
                if !acc_over {
                    if acc > (WIDE - d) / 10 {
                        acc_over = true;
                        assert(acc * 10 + d > WIDE) by (nonlinear_arith)
                            requires
                                acc > (WIDE - d) / 10,
                                0 <= d <= 9,
                        ;
                    } else {
                        assert(acc * 10 + d <= WIDE) by (nonlinear_arith)
                            requires
                                acc <= (WIDE - d) / 10,
                                0 <= d <= 9,
                                acc >= 0,
                        ;
                        acc = acc * 10 + d;
                    }
                } else {
                    assert(digits_value(before) * 10 + d > WIDE) by (nonlinear_arith)
                        requires
                            digits_value(before) > WIDE,
                            0 <= d <= 9,
                    ;
                }
                if dot {
                    if !scale_over {
                        if scale > WIDE / 10 {
                            scale_over = true;
                        } else {
                            scale = scale * 10;
                        }
                    }
                } else {
                    scale = 1;
                }
            }
            k = k + 1;
        }
        assert(cs@.subrange(i as int, j as int) == t);
        if acc_over || scale_over {
            return Ok((Operand::Primitive(Scalar::Null), j));
        }
        match Num::make(acc, scale) {
            Some(v) => Ok((Operand::Primitive(Scalar::Number(v)), j)),
            None => Ok((Operand::Primitive(Scalar::Null), j)),
        }
    }

    /// The token that starts at `i`, and where it ends.
    fn next_operand(text: &str, cs: &Vec<char>, i: usize) -> (r: Result<(Operand, usize), LexError>)
        requires
            cs@ == text@,
            i < cs@.len(),
        ensures
            token_result(r, token_at(cs@, i as int)),
    {
        let n = cs.len();
        let c = cs[i];
        if c == '(' {
            Ok((Operand::OpenParen, i + 1))
        } else if c == ')' {
            Ok((Operand::CloseParen, i + 1))
        } else if c == '"' {
            Tokenizer::consume_string(text, cs, i)
        } else if check_if_operand(&c) {
            Tokenizer::consume_variable(text, cs, i)
        } else if check_if_operator(&c) {
            Tokenizer::consume_operator(text, cs, i)
        } else if check_if_digit(&c) {
            Tokenizer::consume_number(text, cs, i)
        } else {
            Err(LexError::UnknownSymbol { position: i, symbol: c })
        }
    }

    /// Reads the formula into tokens, after any already inserted. On an error
    /// nothing changes; once read, a second call adds nothing.
    pub fn parse(&mut self) -> (r: Result<(), LexError>)
        ensures
            final(self).text() == old(self).text(),
            old(self).parsed() ==> r is Ok && final(self).tokens() == old(self).tokens()
                && final(self).parsed(),
            !old(self).parsed() ==> match lex(old(self).text()) {
                Ok(ts) => r is Ok && final(self).tokens() == old(self).tokens() + ts
                    && final(self).parsed(),
                Err(e) => r is Err && r->Err_0@ == e && final(self).tokens() == old(
                    self,
                ).tokens() && !final(self).parsed(),
            },
    {
        if self.parsed {
            return Ok(());
        }
        let text = self.expression.as_str();
        let cs = chars_of(text);
        let n = cs.len();
        let mut out: Vec<Operand> = Vec::new();
        let mut i: usize = 0;
        while i < n
            invariant
                *self == *old(self),
                !self.parsed,
                cs@ == text@,
                text@ == self.expression@,
                n == cs@.len(),
                i <= n,
                lex(cs@) == prepend(models(out@), lex_from(cs@, i as int)),
            decreases n - i,
        {
            if check_if_blank(cs[i]) {
                i = i + 1;
            } else {
                match Tokenizer::next_operand(text, &cs, i) {
                    Ok((t, e)) => {
                        proof {
                            lemma_token_advances(cs@, i as int);
                            lemma_models_push(out@, t);
                            assert(models(out@) + (seq![t@] + lex_from(cs@, e as int)->Ok_0)
                                =~= models(out@).push(t@) + lex_from(cs@, e as int)->Ok_0);
                        }
                        out.push(t);
                        i = e;
                    },
                    Err(x) => {
                        return Err(x);
                    },
                }
            }
        }
        proof {
            assert(models(out@) + Seq::<OperandModel>::empty() =~= models(out@));
        }
        let ghost before = self.operands@;
        let ghost added = out@;
        self.operands.append(&mut out);
        self.parsed = true;
        proof {
            assert(models(before + added) =~= models(before) + models(added));
        }
        Ok(())
    }

    /// The tokens in postfix order.
    pub fn to_postfix(self) -> (r: Result<Vec<Operand>, ParenError>)
        ensures
            match postfix_of(self.tokens()) {
                Ok(p) => r is Ok && models(r->Ok_0@) == p,
                Err(e) => r == Err::<Vec<Operand>, ParenError>(e),
            },
    {
        let ops = self.operands;
        let ghost ts = models(ops@);
        let mut stack: Vec<Operand> = Vec::new();
        let mut postfix: Vec<Operand> = Vec::new();
        let mut i: usize = 0;
        assert(ts.subrange(0, 0) =~= Seq::<OperandModel>::empty());
        assert(models(stack@) =~= Seq::<OperandModel>::empty());
        assert(models(postfix@) =~= Seq::<OperandModel>::empty());
        while i < ops.len()
            invariant
                ts == models(ops@),
                ts == self.tokens(),
                i <= ops@.len(),
                sy_scan(ts.subrange(0, i as int)) == Ok::<_, ParenError>((models(postfix@), models(stack@))),
            decreases ops@.len() - i,
        {
            let o = ops[i].copy();
            let ghost prev = ts.subrange(0, i as int);
            proof {
                assert(ts.subrange(0, i + 1).drop_last() =~= prev);
                assert(ts.subrange(0, i + 1).last() == o@);
            }
            let ghost start = (models(postfix@), models(stack@));
            let ghost ov = o@;
            assert(sy_scan(ts.subrange(0, i + 1)) == sy_step(start, o@));
            match &o {
                Operand::OpenParen => {
                    proof {
                        lemma_models_push(stack@, o);
                    }
                    stack.push(o);
                },
                Operand::CloseParen => {
                    let mut found = false;
                    while !found && stack.len() > 0
                        invariant
                            ts == models(ops@),
                            ts == self.tokens(),
                            i < ops@.len(),
                            o@ == OperandModel::CloseParen,
                            sy_scan(ts.subrange(0, i + 1)) == sy_step(start, o@),
                            found ==> pop_to_open(start.0, start.1) == Some::<
                                (Seq<OperandModel>, Seq<OperandModel>),
                            >((models(postfix@), models(stack@))),
                            !found ==> pop_to_open(models(postfix@), models(stack@)) == pop_to_open(
                                start.0,
                                start.1,
                            ),
                        decreases stack@.len(),
                    {
                        proof {
                            lemma_models_drop_last(stack@);
                        }
                        let top = stack.pop().unwrap();
                        match top {
                            Operand::OpenParen => {
                                found = true;
                            },
                            _ => {
                                proof {
                                    lemma_models_push(postfix@, top);
                                }
                                postfix.push(top);
                            },
                        }
                    }
                    if !found {
                        proof {
                            lemma_sy_scan_err(ts, i + 1);
                        }
                        return Err(ParenError::UnmatchedCloseParen);
                    }
                },
                Operand::OperatorToken(t) => {
                    let p = precedence(t);
                    loop
                        invariant
                            ts == models(ops@),
                            ts == self.tokens(),
                            i < ops@.len(),
                            o@ == OperandModel::OperatorToken(*t),
                            p as int == spec_precedence(*t),
                            sy_scan(ts.subrange(0, i + 1)) == sy_step(start, o@),
                            pop_while(models(postfix@), models(stack@), p as int) == pop_while(
                                start.0,
                                start.1,
                                p as int,
                            ),
                        ensures
                            pop_while(start.0, start.1, p as int) == (models(postfix@), models(stack@)),
                        decreases stack@.len(),
                    {
                        let n = stack.len();
                        if n == 0 {
                            assert(models(stack@).len() == 0);
                            break;
                        }
                        proof {
                            lemma_models_drop_last(stack@);
                        }
                        let go = match &stack[n - 1] {
                            Operand::OperatorToken(so) => precedence(so) >= p,
                            _ => false,
                        };
                        if !go {
                            assert(pop_while(models(postfix@), models(stack@), p as int) == (
                                models(postfix@),
                                models(stack@),
                            ));
                            break;
                        }
                        proof {
                            lemma_models_drop_last(stack@);
                        }
                        let top = stack.pop().unwrap();
                        proof {
                            lemma_models_push(postfix@, top);
                        }
                        postfix.push(top);
                    }
                    proof {
                        lemma_models_push(stack@, o);
                    }
                    stack.push(o);
                },
                _ => {
                    proof {
                        lemma_models_push(postfix@, o);
                    }
                    postfix.push(o);
                },
            }
            assert(sy_step(start, ov) == Ok::<_, ParenError>((models(postfix@), models(stack@))));
            i = i + 1;
        }
        assert(ts.subrange(0, ops@.len() as int) =~= ts);
        assert(models(self.operands@) == ts);
        while stack.len() > 0
            invariant
                ts == self.tokens(),
                drain(models(postfix@), models(stack@)) == postfix_of(ts),
            decreases stack@.len(),
        {
            let ghost pre = (models(postfix@), models(stack@));
            proof {
                lemma_models_drop_last(stack@);
            }
            let top = stack.pop().unwrap();
            match top {
                Operand::OpenParen => {
                    return Err(ParenError::UnmatchedOpenParen);
                },
                _ => {
                    proof {
                        lemma_models_push(postfix@, top);
                    }
                    postfix.push(top);
                },
            }
        }
        Ok(postfix)
    }

    /// Puts `o` in front of the tokens.
    pub fn insert_start(&mut self, o: Operand)
        ensures
            final(self).tokens() == seq![o@] + old(self).tokens(),
            final(self).text() == old(self).text(),
            final(self).parsed() == old(self).parsed(),
    {
        let ghost o_view = o@;
        self.operands.insert(0, o);
        proof {
            assert(models(self.operands@) =~= seq![o_view] + models(old(self).operands@));
        }
    }

    /// Whether the first token is an operator.
    pub fn starts_with_operand(&self) -> (r: bool)
        ensures
            r == (self.tokens().len() > 0 && self.tokens()[0] is OperatorToken),
    {
        if self.operands.len() > 0 {
            match &self.operands[0] {
                Operand::OperatorToken(_) => true,
                _ => false,
            }
        } else {
            false
        }
    }
}

/// The number that `text` spells, when its only token is a number.
pub fn parse_number(text: &str) -> (r: Option<Num>)
    ensures
        match lex(text@) {
            Ok(ts) => if ts.len() == 1 && ts[0] is Primitive && ts[0]->Primitive_0 is Number {
                r == Some(ts[0]->Primitive_0->Number_0)
            } else {
                r is None
            },
            Err(_) => r is None,
        },
{
    let mut t = Tokenizer::new(text);
    match t.parse() {
        Ok(()) => {},
        Err(_) => {
            return None;
        },
    }
    let ops = t.operands();
    assert(models(ops@) =~= lex(text@)->Ok_0);
    if ops.len() == 1 {
        assert(models(ops@)[0] == ops@[0]@);
        match &ops[0] {
            Operand::Primitive(Scalar::Number(n)) => Some(*n),
            _ => None,
        }
    } else {
        None
    }
}

proof fn lemma_sy_scan_err(ts: Seq<OperandModel>, k: int)
    requires
        0 <= k <= ts.len(),
        sy_scan(ts.subrange(0, k)) is Err,
    ensures
        sy_scan(ts) == sy_scan(ts.subrange(0, k)),
    decreases ts.len() - k,
{
    if k < ts.len() {
        assert(ts.subrange(0, k + 1).drop_last() =~= ts.subrange(0, k));
        lemma_sy_scan_err(ts, k + 1);
    } else {
        assert(ts.subrange(0, k) =~= ts);
    }
}

proof fn lemma_token_advances(s: Seq<char>, i: int)
    requires
        0 <= i < s.len(),
        token_at(s, i) is Ok,
    ensures
        i < (token_at(s, i)->Ok_0).1 <= s.len(),
{
    let c = s[i];
    if c == '"' {
        lemma_quote_bound(s, i + 1);
    } else if is_letter(c) {
        lemma_letters_end_bound(s, i);
    } else if is_op_char(c) {
        lemma_ops_end_bound(s, i);
    } else if is_digit(c) {
        lemma_number_end_bound(s, i, false);
    }
}

proof fn lemma_quote_bound(s: Seq<char>, i: int)
    ensures
        quote_at_or_after(s, i) is Some ==> i <= quote_at_or_after(s, i)->0 < s.len()
            && s[quote_at_or_after(s, i)->0] == '"',
    decreases s.len() - i,
{
    if 0 <= i < s.len() && s[i] != '"' {
        lemma_quote_bound(s, i + 1);
    }
}

proof fn lemma_letters_end_bound(s: Seq<char>, i: int)
    requires
        0 <= i <= s.len(),
    ensures
        i <= letters_end(s, i) <= s.len(),
        i < s.len() && is_letter(s[i]) ==> i < letters_end(s, i),
    decreases s.len() - i,
{
    if i < s.len() && is_letter(s[i]) {
        lemma_letters_end_bound(s, i + 1);
    }
}

proof fn lemma_ops_end_bound(s: Seq<char>, i: int)
    requires
        0 <= i <= s.len(),
    ensures
        i <= ops_end(s, i) <= s.len(),
        i < s.len() && is_op_char(s[i]) ==> i < ops_end(s, i),
    decreases s.len() - i,
{
    if i < s.len() && is_op_char(s[i]) {
        lemma_ops_end_bound(s, i + 1);
    }
}

proof fn lemma_number_end_bound(s: Seq<char>, i: int, seen_dot: bool)
    requires
        0 <= i <= s.len(),
    ensures
        i <= number_end(s, i, seen_dot) <= s.len(),
        i < s.len() && is_digit(s[i]) ==> i < number_end(s, i, seen_dot),
    decreases s.len() - i,
{
    if i < s.len() && (is_digit(s[i]) || (s[i] == '.' && !seen_dot)) {
        lemma_number_end_bound(s, i + 1, seen_dot || s[i] == '.');
    }
}

proof fn lemma_frac_len_nonneg(t: Seq<char>)
    ensures
        frac_len(t) >= 0,
    decreases t.len(),
{
    if t.len() > 0 {
        lemma_frac_len_nonneg(t.drop_last());
    }
}

/// Inside a number token every character is a digit or a `.`.
proof fn lemma_number_end_shape(s: Seq<char>, i: int, seen_dot: bool)
    requires
        0 <= i <= s.len(),
    ensures
        forall|x: int| i <= x < number_end(s, i, seen_dot) ==> is_digit(#[trigger] s[x]) || s[x] == '.',
    decreases s.len() - i,
{
    if i < s.len() && (is_digit(s[i]) || (s[i] == '.' && !seen_dot)) {
        lemma_number_end_shape(s, i + 1, seen_dot || s[i] == '.');
    }
}

} // verus!
