//! Predicates over a row: a tree of `True`, `Not`, `And`, `Or` and comparisons.
use vstd::prelude::*;
use crate::custom_error::CustomError;
use crate::text::{push_text, str_eq, str_lt, text_lt};

verus! {

/// A predicate that a row meets or not.
#[derive(Debug, PartialEq)]
pub enum Expression {
    True,
    And { left: Box<Expression>, right: Box<Expression> },
    Or { left: Box<Expression>, right: Box<Expression> },
    Not { right: Box<Expression> },
    /// The operators are `=`, `>`, `<`, `>=` and `<=`.
    Comparison { left: Operand, operator: String, right: Operand },
}

/// A column of the row, or a literal.
#[derive(Debug, PartialEq, Clone)]
pub enum Operand {
    Column(String),
    String(String),
    Integer(String),
}

/// A row as column/value pairs.
pub open spec fn row_view(row: Seq<(String, String)>) -> Seq<(Seq<char>, Seq<char>)> {
    row.map_values(|p: (String, String)| (p.0@, p.1@))
}

/// The value of the first pair of the row that names column `k`.
pub open spec fn row_lookup(row: Seq<(Seq<char>, Seq<char>)>, k: Seq<char>) -> Option<Seq<char>>
    decreases row.len(),
{
    if row.len() == 0 {
        None
    } else if row[0].0 == k {
        Some(row[0].1)
    } else {
        row_lookup(row.drop_first(), k)
    }
}

/// Whether every character is an ASCII digit.
pub open spec fn all_digits(d: Seq<char>) -> bool {
    forall|i: int| 0 <= i < d.len() ==> '0' <= #[trigger] d[i] && d[i] <= '9'
}

/// The value of a string of decimal digits.
pub open spec fn digits_value(d: Seq<char>) -> int
    decreases d.len(),
{
    if d.len() == 0 {
        0
    } else {
        digits_value(d.drop_last()) * 10 + (d.last() as int - '0' as int)
    }
}

/// The `i32` a text names, as `str::parse::<i32>` reads it: an optional `+` or `-`, then
/// at least one ASCII digit, with a value in range.
pub open spec fn int_value_of(s: Seq<char>) -> Option<i32> {
    let neg = s.len() > 0 && s[0] == '-';
    let d = if s.len() > 0 && (s[0] == '-' || s[0] == '+') { s.drop_first() } else { s };
    let v = if neg { -digits_value(d) } else { digits_value(d) };
    if d.len() == 0 || !all_digits(d) || v < i32::MIN || v > i32::MAX {
        None
    } else {
        Some(v as i32)
    }
}

proof fn lemma_digits_nonneg(d: Seq<char>)
    requires
        all_digits(d),
    ensures
        digits_value(d) >= 0,
    decreases d.len(),
{
    if d.len() > 0 {
        assert(all_digits(d.drop_last())) by {
            assert forall|i: int| 0 <= i < d.drop_last().len() implies '0' <= #[trigger] d.drop_last()[i] && d.drop_last()[i] <= '9' by {
                assert(d.drop_last()[i] == d[i]);
            }
        }
        lemma_digits_nonneg(d.drop_last());
        assert(d[d.len() - 1] == d.last());
    }
}

/// Reads a text as an `i32` the way `str::parse::<i32>` does.
pub fn parse_i32(s: &str) -> (r: Option<i32>)
    ensures
        r == int_value_of(s@),
{
    let cs = crate::text::chars_vec(s);
    let mut start: usize = 0;
    let mut neg = false;
    if cs.len() > 0 && (cs[0] == '-' || cs[0] == '+') {
        neg = cs[0] == '-';
        start = 1;
    }
    let ghost d = if cs@.len() > 0 && (cs@[0] == '-' || cs@[0] == '+') { cs@.drop_first() } else { cs@ };
    assert(d =~= cs@.skip(start as int));
    if start == cs.len() {
        return None;
    }
    let mut acc: i64 = 0;
    let mut big = false;
    let mut i: usize = start;
    assert(d.take(0) =~= Seq::<char>::empty());
    while i < cs.len()
        invariant
            start <= i <= cs@.len(),
            start == 0 || start == 1,
            d == cs@.skip(start as int),
            cs@ == s@,
            d == (if cs@.len() > 0 && (cs@[0] == '-' || cs@[0] == '+') { cs@.drop_first() } else { cs@ }),
            neg == (cs@.len() > 0 && cs@[0] == '-'),
            all_digits(d.take(i - start)),
            !big ==> acc == digits_value(d.take(i - start)) && 0 <= acc <= 2147483648,
            big ==> digits_value(d.take(i - start)) > 2147483648,
        decreases cs@.len() - i,
    {
        let c = cs[i];
        assert(d[i - start] == c);
        if !('0' <= c && c <= '9') {
            proof {
                assert(0 <= i - start < d.len());
                assert(!('0' <= d[i - start] && d[i - start] <= '9'));
                assert(!all_digits(d));
            }
            return None;
        }
        proof {
            assert(d.take(i + 1 - start).drop_last() =~= d.take(i - start));
            assert(d.take(i + 1 - start).last() == c);
            assert(all_digits(d.take(i + 1 - start))) by {
                assert forall|x: int| 0 <= x < d.take(i + 1 - start).len() implies '0' <= #[trigger] d.take(i + 1 - start)[x] && d.take(i + 1 - start)[x] <= '9' by {
                    if x < i - start {
                        assert(d.take(i + 1 - start)[x] == d.take(i - start)[x]);
                    }
                }
            }
            lemma_digits_nonneg(d.take(i - start));
        }
        if !big {
            let next: i64 = acc * 10 + (c as i64 - '0' as i64);
            if next > 2147483648 {
                big = true;
            } else {
                acc = next;
            }
        }
        i = i + 1;
    }
    proof {
        assert(d.take(i - start) =~= d);
    }
    if big {
        return None;
    }
    let v: i64 = if neg { -acc } else { acc };
    if v > 2147483647 {
        return None;
    }
    Some(v as i32)
}

pub open spec fn operand_value(o: Operand, row: Seq<(Seq<char>, Seq<char>)>) -> Option<Seq<char>> {
    match o {
        Operand::Column(c) => row_lookup(row, c@),
        Operand::String(v) => Some(v@),
        Operand::Integer(v) => Some(v@),
    }
}

/// A comparison: on numbers when both sides read as `i32`, else on texts; `None` for an
/// unknown operator.
pub open spec fn compare(op: Seq<char>, l: Seq<char>, r: Seq<char>) -> Option<bool> {
    if !(op == "="@ || op == ">"@ || op == "<"@ || op == ">="@ || op == "<="@) {
        None
    } else if int_value_of(l) is Some && int_value_of(r) is Some {
        let a = int_value_of(l)->Some_0;
        let b = int_value_of(r)->Some_0;
        Some(
            if op == "="@ {
                a == b
            } else if op == ">"@ {
                a > b
            } else if op == "<"@ {
                a < b
            } else if op == ">="@ {
                a >= b
            } else {
                a <= b
            },
        )
    } else {
        Some(
            if op == "="@ {
                l == r
            } else if op == ">"@ {
                text_lt(r, l)
            } else if op == "<"@ {
                text_lt(l, r)
            } else if op == ">="@ {
                !text_lt(l, r)
            } else {
                !text_lt(r, l)
            },
        )
    }
}

/// Whether the row meets the predicate; `None` where a column is missing or an operator
/// is unknown.
pub open spec fn eval(e: Expression, row: Seq<(Seq<char>, Seq<char>)>) -> Option<bool>
    decreases e,
{
    match e {
        Expression::True => Some(true),
        Expression::And { left, right } => match (eval(*left, row), eval(*right, row)) {
            (Some(a), Some(b)) => Some(a && b),
            _ => None,
        },
        Expression::Or { left, right } => match (eval(*left, row), eval(*right, row)) {
            (Some(a), Some(b)) => Some(a || b),
            _ => None,
        },
        Expression::Not { right } => match eval(*right, row) {
            Some(a) => Some(!a),
            None => None,
        },
        Expression::Comparison { left, operator, right } => match (
            operand_value(left, row),
            operand_value(right, row),
        ) {
            (Some(l), Some(r)) => compare(operator@, l, r),
            _ => None,
        },
    }
}

/// The value the row holds for `column`.
pub fn row_get(row: &Vec<(String, String)>, column: &str) -> (r: Option<String>)
    ensures
        match r {
            Some(v) => row_lookup(row_view(row@), column@) == Some(v@),
            None => row_lookup(row_view(row@), column@) is None,
        },
{
    let mut i: usize = 0;
    assert(row_view(row@).skip(0) =~= row_view(row@));
    while i < row.len()
        invariant
            i <= row@.len(),
            row_lookup(row_view(row@), column@) == row_lookup(row_view(row@).skip(i as int), column@),
        decreases row@.len() - i,
    {
        assert(row_view(row@).skip(i as int)[0] == row_view(row@)[i as int]);
        if str_eq(row[i].0.as_str(), column) {
            return Some(row[i].1.clone());
        }
        assert(row_view(row@).skip(i as int).drop_first() =~= row_view(row@).skip(i + 1));
        i = i + 1;
    }
    None
}

fn evaluate_operand(operand: &Operand, row: &Vec<(String, String)>) -> (r: Result<String, CustomError>)
    ensures
        match r {
            Ok(v) => operand_value(*operand, row_view(row@)) == Some(v@),
            Err(_) => operand_value(*operand, row_view(row@)) is None,
        },
{
    match operand {
        Operand::Column(column_name) => match row_get(row, column_name.as_str()) {
            Some(v) => Ok(v),
            None => {
                let mut m = "Column not found: ".to_owned();
                push_text(&mut m, column_name.as_str());
                Err(CustomError::GenericError { message: m })
            },
        },
        Operand::String(value) => Ok(value.clone()),
        Operand::Integer(value) => Ok(value.clone()),
    }
}

fn compare_values(operator: &str, l: &str, r: &str) -> (res: Result<bool, CustomError>)
    ensures
        match res {
            Ok(b) => compare(operator@, l@, r@) == Some(b),
            Err(_) => compare(operator@, l@, r@) is None,
        },
{
    let eq = str_eq(operator, "=");
    let gt = str_eq(operator, ">");
    let lt = str_eq(operator, "<");
    let ge = str_eq(operator, ">=");
    let le = str_eq(operator, "<=");
    if !(eq || gt || lt || ge || le) {
        let mut m = "Invalid operator: ".to_owned();
        push_text(&mut m, operator);
        return Err(CustomError::GenericError { message: m });
    }
    match (parse_i32(l), parse_i32(r)) {
        (Some(a), Some(b)) => Ok(
            if eq {
                a == b
            } else if gt {
                a > b
            } else if lt {
                a < b
            } else if ge {
                a >= b
            } else {
                a <= b
            },
        ),
        _ => Ok(
            if eq {
                str_eq(l, r)
            } else if gt {
                str_lt(r, l)
            } else if lt {
                str_lt(l, r)
            } else if ge {
                !str_lt(l, r)
            } else {
                !str_lt(r, l)
            },
        ),
    }
}

/// Evaluates the predicate on the row.
pub fn evaluate_expression(expression: &Expression, row: &Vec<(String, String)>) -> (r: Result<bool, CustomError>)
    ensures
        match r {
            Ok(b) => eval(*expression, row_view(row@)) == Some(b),
            Err(_) => eval(*expression, row_view(row@)) is None,
        },
    decreases expression,
{
    match expression {
        Expression::True => Ok(true),
        Expression::And { left, right } => {
            let a = evaluate_expression(left, row)?;
            let b = evaluate_expression(right, row)?;
            Ok(a && b)
        },
        Expression::Or { left, right } => {
            let a = evaluate_expression(left, row)?;
            let b = evaluate_expression(right, row)?;
            Ok(a || b)
        },
        Expression::Not { right } => {
            let a = evaluate_expression(right, row)?;
            Ok(!a)
        },
        Expression::Comparison { left, operator, right } => {
            let l = evaluate_operand(left, row)?;
            let r = evaluate_operand(right, row)?;
            compare_values(operator.as_str(), l.as_str(), r.as_str())
        },
    }
}

/// The literal of a comparison `column = literal`.
pub open spec fn equality_literal_of(e: Expression) -> Option<Seq<char>> {
    match e {
        Expression::Comparison { left: Operand::Column(_), operator, right } => if operator@ == "="@ {
            match right {
                Operand::String(v) => Some(v@),
                Operand::Integer(v) => Some(v@),
                _ => None,
            }
        } else {
            None
        },
        _ => None,
    }
}

/// The literal of a predicate of the shape `column = literal`, or `column = literal AND …`.
pub open spec fn extracted_value(e: Expression) -> Option<Seq<char>> {
    match e {
        Expression::Comparison { .. } => equality_literal_of(e),
        Expression::And { left, .. } => equality_literal_of(*left),
        _ => None,
    }
}

fn equality_literal(e: &Expression) -> (r: Option<String>)
    ensures
        match r {
            Some(v) => equality_literal_of(*e) == Some(v@),
            None => equality_literal_of(*e) is None,
        },
{
    match e {
        Expression::Comparison { left: Operand::Column(_), operator, right } => {
            if str_eq(operator.as_str(), "=") {
                match right {
                    Operand::String(v) => Some(v.clone()),
                    Operand::Integer(v) => Some(v.clone()),
                    _ => None,
                }
            } else {
                None
            }
        },
        _ => None,
    }
}

/// The value of a predicate `column = value` or `column = value AND …`.
pub fn extract_value_supposing_column_equals_value(expression: &Expression) -> (r: Option<String>)
    ensures
        match r {
            Some(v) => extracted_value(*expression) == Some(v@),
            None => extracted_value(*expression) is None,
        },
{
    match expression {
        Expression::Comparison { .. } => equality_literal(expression),
        Expression::And { left, .. } => equality_literal(left),
        _ => None,
    }
}

impl Operand {
    /// A copy of the operand.
    pub fn duplicate(&self) -> (r: Operand)
        ensures
            r == *self,
    {
        match self {
            Operand::Column(c) => Operand::Column(c.clone()),
            Operand::String(v) => Operand::String(v.clone()),
            Operand::Integer(v) => Operand::Integer(v.clone()),
        }
    }
}

impl Expression {
    /// A copy of the predicate.
    pub fn duplicate(&self) -> (r: Expression)
        ensures
            r == *self,
        decreases self,
    {
        match self {
            Expression::True => Expression::True,
            Expression::And { left, right } => Expression::And {
                left: Box::new(left.duplicate()),
                right: Box::new(right.duplicate()),
            },
            Expression::Or { left, right } => Expression::Or {
                left: Box::new(left.duplicate()),
                right: Box::new(right.duplicate()),
            },
            Expression::Not { right } => Expression::Not { right: Box::new(right.duplicate()) },
            Expression::Comparison { left, operator, right } => Expression::Comparison {
                left: left.duplicate(),
                operator: operator.clone(),
                right: right.duplicate(),
            },
        }
    }
}

} // verus!
