//! The fixed set of one-byte operators and the classifier that maps a
//! punctuation byte to its symbolic kind.

use vstd::prelude::*;
use crate::error::ScanError;

verus! {

/// The symbolic kind of a one-byte operator.  Every operator is exactly one
/// byte wide; comparison and logic bytes are each their own token.
#[derive(Debug, Clone, Copy, PartialEq, Eq, Structural)]
pub enum Operator {
    /// `+`
    Add,
    /// `-`
    Sub,
    /// `*`
    Mul,
    /// `/`
    Div,
    /// `<`
    Lesser,
    /// `=`
    Eq,
    /// `>`
    Greater,
    /// `!`
    Not,
    /// `&`
    And,
    /// `|`
    Or,
    /// `^`
    Xor,
    /// `(`
    LeftBracket,
    /// `)`
    RightBracket,
    /// `[`
    LeftIndex,
    /// `]`
    RightIndex,
}

/// Whether `b` belongs to the fixed operator symbol set.
pub open spec fn is_operator_byte(b: u8) -> bool {
    b == 43 || b == 45 || b == 42 || b == 47 || b == 60 || b == 61 || b == 62 || b == 33 || b == 38
        || b == 124 || b == 94 || b == 40 || b == 41 || b == 91 || b == 93
}

/// The operator kind that a byte of the fixed set denotes.
pub open spec fn operator_for(b: u8) -> Operator
    recommends
        is_operator_byte(b),
{
    if b == 43 {
        Operator::Add
    } else if b == 45 {
        Operator::Sub
    } else if b == 42 {
        Operator::Mul
    } else if b == 47 {
        Operator::Div
    } else if b == 60 {
        Operator::Lesser
    } else if b == 61 {
        Operator::Eq
    } else if b == 62 {
        Operator::Greater
    } else if b == 33 {
        Operator::Not
    } else if b == 38 {
        Operator::And
    } else if b == 124 {
        Operator::Or
    } else if b == 94 {
        Operator::Xor
    } else if b == 40 {
        Operator::LeftBracket
    } else if b == 41 {
        Operator::RightBracket
    } else if b == 91 {
        Operator::LeftIndex
    } else {
        Operator::RightIndex
    }
}

/// The byte that denotes an operator kind; the inverse of `operator_for`.
pub open spec fn byte_for(k: Operator) -> u8 {
    match k {
        Operator::Add => 43,
        Operator::Sub => 45,
        Operator::Mul => 42,
        Operator::Div => 47,
        Operator::Lesser => 60,
        Operator::Eq => 61,
        Operator::Greater => 62,
        Operator::Not => 33,
        Operator::And => 38,
        Operator::Or => 124,
        Operator::Xor => 94,
        Operator::LeftBracket => 40,
        Operator::RightBracket => 41,
        Operator::LeftIndex => 91,
        Operator::RightIndex => 93,
    }
}

impl Operator {
    /// Classifies a byte of the fixed operator set, or reports
    /// `InvalidOperatorByte` for any byte outside it.
    pub fn from_ascii(c: u8) -> (r: Result<Operator, ScanError>)
        ensures
            is_operator_byte(c) ==> r == Ok::<Operator, ScanError>(operator_for(c)),
            !is_operator_byte(c) ==> r == Err::<Operator, ScanError>(
                ScanError::InvalidOperatorByte { byte: c },
            ),
    {
        match c {
            43 => Ok(Operator::Add),
            45 => Ok(Operator::Sub),
            42 => Ok(Operator::Mul),
            47 => Ok(Operator::Div),
            60 => Ok(Operator::Lesser),
            61 => Ok(Operator::Eq),
            62 => Ok(Operator::Greater),
            33 => Ok(Operator::Not),
            38 => Ok(Operator::And),
            124 => Ok(Operator::Or),
            94 => Ok(Operator::Xor),
            40 => Ok(Operator::LeftBracket),
            41 => Ok(Operator::RightBracket),
            91 => Ok(Operator::LeftIndex),
            93 => Ok(Operator::RightIndex),
            _ => Err(ScanError::InvalidOperatorByte { byte: c }),
        }
    }

    /// The byte that this operator kind stands for.
    pub fn to_ascii(self) -> (r: u8)
        ensures
            r == byte_for(self),
            is_operator_byte(r),
            operator_for(r) == self,
    {
        match self {
            Operator::Add => 43,
            Operator::Sub => 45,
            Operator::Mul => 42,
            Operator::Div => 47,
            Operator::Lesser => 60,
            Operator::Eq => 61,
            Operator::Greater => 62,
            Operator::Not => 33,
            Operator::And => 38,
            Operator::Or => 124,
            Operator::Xor => 94,
            Operator::LeftBracket => 40,
            Operator::RightBracket => 41,
            Operator::LeftIndex => 91,
            Operator::RightIndex => 93,
        }
    }

    /// One sample byte for each operator kind, in declaration order.
    pub fn get_ascii_samples() -> (r: &'static str)
        ensures
            r@ == "+-*/<=>!&|^()[]"@,
    {
        "+-*/<=>!&|^()[]"
    }
}

} // verus!
