use vstd::prelude::*;

verus! {

/// One bytecode instruction of the matching machine.
///
/// `Jump` and `Split` carry absolute indices into the instruction sequence;
/// the code generator resolves every such address before it returns, so the
/// evaluator only ever fetches.
#[derive(Clone, Copy, Debug, PartialEq, Eq, Structural)]
pub enum Instruction {
    /// Match one literal character; the literal `'.'` matches any character.
    Char(char),
    /// Start anchor; consumes nothing and is behaviourally a no-op.
    Hat,
    /// End anchor; succeeds only when the cursor stands at the end of input.
    Dollar,
    /// The whole evaluation succeeds.
    Match,
    /// Continue at the given address.
    Jump(usize),
    /// Try the first address; if that whole branch fails, try the second.
    Split(usize, usize),
}

} // verus!
