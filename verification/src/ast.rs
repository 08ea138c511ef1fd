//! Statements and expressions of the straight-line subset of the language.
use vstd::prelude::*;

verus! {

/// A statement, with its line and column.
#[derive(Debug)]
pub enum Statement<'source> {
    Print(Expr<'source>, (usize, usize)),
    ImmutVar(&'source str, Expr<'source>, (usize, usize)),
    MutVar(&'source str, Expr<'source>, (usize, usize)),
}

#[derive(Debug)]
pub enum Expr<'source> {
    Bool(bool),
    /// A number, by its bits.
    Number(u64),
    String(&'source str),
    Var(&'source str),
}

impl<'source> From<u64> for Expr<'source> {
    fn from(bits: u64) -> (res: Self) {
        Expr::Number(bits)
    }
}

impl<'source> vstd::std_specs::convert::FromSpecImpl<u64> for Expr<'source> {
    open spec fn obeys_from_spec() -> bool {
        true
    }

    open spec fn from_spec(bits: u64) -> Self {
        Expr::Number(bits)
    }
}

/// The bits of a number stand for that number in an expression.
pub proof fn law_bits_are_numbers<'source>(bits: u64)
    ensures
        <Expr<'source> as vstd::std_specs::convert::FromSpec<u64>>::from_spec(bits)
            == Expr::<'source>::Number(bits),
{
}

} // verus!
