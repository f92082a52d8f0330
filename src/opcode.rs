//! Operation codes and execution resources.
use vstd::prelude::*;

verus! {

/// The operation computed by a value node, or the wildcard `Any`, which only
/// appears inside patterns.
#[derive(Clone, Copy, Debug)]
pub enum Opcode {
    Ref,
    Add,
    Mul,
    Reg,
    Any,
}

/// Pattern-aware opcode equality: `Any` equals every opcode, otherwise two
/// opcodes are equal only when they are the same variant.
pub open spec fn opcode_eq(a: Opcode, b: Opcode) -> bool {
    a is Any || b is Any || a == b
}

impl Opcode {
    /// True for the opcodes that compute a value from two operands.
    pub open spec fn spec_is_operation(&self) -> bool {
        self is Add || self is Mul || self is Reg
    }

    pub fn is_ref(&self) -> (r: bool)
        ensures
            r == self is Ref,
    {
        match self {
            Opcode::Ref => true,
            _ => false,
        }
    }

    /// The opcode's name in listings.
    pub fn mnemonic(&self) -> (r: &'static str)
        ensures
            r@ == match self {
                Opcode::Ref => "ref"@,
                Opcode::Add => "add"@,
                Opcode::Mul => "mul"@,
                Opcode::Reg => "reg"@,
                Opcode::Any => "any"@,
            },
    {
        match self {
            Opcode::Ref => "ref",
            Opcode::Add => "add",
            Opcode::Mul => "mul",
            Opcode::Reg => "reg",
            Opcode::Any => "any",
        }
    }

    #[verifier::when_used_as_spec(spec_is_operation)]
    pub fn is_operation(&self) -> (r: bool)
        ensures
            r == self.spec_is_operation(),
    {
        match self {
            Opcode::Add | Opcode::Mul | Opcode::Reg => true,
            _ => false,
        }
    }
}

impl PartialEq for Opcode {
    fn eq(&self, other: &Opcode) -> (r: bool) {
        match (self, other) {
            (Opcode::Any, _) => true,
            (_, Opcode::Any) => true,
            (Opcode::Ref, Opcode::Ref) => true,
            (Opcode::Add, Opcode::Add) => true,
            (Opcode::Mul, Opcode::Mul) => true,
            (Opcode::Reg, Opcode::Reg) => true,
            (_, _) => false,
        }
    }
}

impl vstd::std_specs::cmp::PartialEqSpecImpl for Opcode {
    open spec fn obeys_eq_spec() -> bool {
        true
    }

    open spec fn eq_spec(&self, other: &Opcode) -> bool {
        opcode_eq(*self, *other)
    }
}

/// The hardware resource a tile runs on.
#[derive(Clone, Copy, Debug, PartialEq, Eq, Structural)]
pub enum Loc {
    Gen,
    Dsp,
    Lut,
}

impl Loc {
    /// Intrinsic unit cost of the resource; lower is preferred.
    pub open spec fn spec_unit_cost(&self) -> nat {
        match self {
            Loc::Gen => 3,
            Loc::Lut => 2,
            Loc::Dsp => 1,
        }
    }

    /// The resource's name in listings.
    pub fn mnemonic(&self) -> (r: &'static str)
        ensures
            r@ == match self {
                Loc::Gen => "gen"@,
                Loc::Dsp => "dsp"@,
                Loc::Lut => "lut"@,
            },
    {
        match self {
            Loc::Gen => "gen",
            Loc::Dsp => "dsp",
            Loc::Lut => "lut",
        }
    }

    pub fn unit_cost(&self) -> (r: u128)
        ensures
            r == self.spec_unit_cost(),
    {
        match self {
            Loc::Gen => 3,
            Loc::Lut => 2,
            Loc::Dsp => 1,
        }
    }
}

} // verus!
