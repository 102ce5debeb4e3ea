//! Value types shared by QC-IR and QCO-IR: qubit and classical-bit
//! references, angles, gate parameters and gate kinds.
//!
//! Angles are carried as the IEEE-754 binary64 bit pattern of their radian
//! value. The IR never computes with an angle; it only stores, copies,
//! compares and validates one, and each of those is a statement about the
//! bit pattern that can be written down exactly.
use vstd::prelude::*;

verus! {

/// A reference to a qubit of a circuit: a dense index into its register.
#[derive(Debug, Clone, Copy, PartialEq, Eq, Structural, Hash, PartialOrd, Ord)]
pub struct QubitId(pub u32);

impl QubitId {
    /// The raw index, in specifications.
    pub open spec fn id(self) -> u32 {
        self.0
    }

    /// The raw index this reference wraps.
    pub fn index(self) -> (r: u32)
        ensures
            r == self.0,
    {
        self.0
    }
}

/// A reference to a classical bit of a circuit: a dense index into its
/// classical register.
#[derive(Debug, Clone, Copy, PartialEq, Eq, Structural, Hash, PartialOrd, Ord)]
pub struct ClbitId(pub u32);

impl ClbitId {
    /// The raw index this reference wraps.
    pub fn index(self) -> (r: u32)
        ensures
            r == self.0,
    {
        self.0
    }
}

/// Mask of the exponent field of a binary64 pattern, shifted down.
pub const EXPONENT_MASK: u64 = 0x7ff;

/// Mask of the mantissa field of a binary64 pattern.
pub const MANTISSA_MASK: u64 = 0x000f_ffff_ffff_ffff;

/// The sign bit of a binary64 pattern.
pub const SIGN_BIT: u64 = 0x8000_0000_0000_0000;

/// Everything but the sign bit.
pub const MAGNITUDE_MASK: u64 = 0x7fff_ffff_ffff_ffff;

/// A binary64 pattern is finite exactly when its exponent field is not all
/// ones (all ones encodes the infinities and the NaNs).
pub open spec fn bits_finite(bits: u64) -> bool {
    (bits >> 52u64) & EXPONENT_MASK != EXPONENT_MASK
}

/// A binary64 pattern is a NaN when its exponent is all ones and its
/// mantissa is not zero.
pub open spec fn bits_nan(bits: u64) -> bool {
    !bits_finite(bits) && bits & MANTISSA_MASK != 0
}

/// Floating-point equality on patterns: NaN equals nothing, the two zeros
/// are equal, and otherwise equal values have equal patterns.
pub open spec fn bits_equal(a: u64, b: u64) -> bool {
    &&& !bits_nan(a)
    &&& !bits_nan(b)
    &&& (a == b || (a & MAGNITUDE_MASK == 0 && b & MAGNITUDE_MASK == 0))
}

/// The pattern of `-x`: the same magnitude with the sign flipped.
pub open spec fn bits_negated(bits: u64) -> u64 {
    bits ^ SIGN_BIT
}

/// A rotation angle in radians, held as its binary64 bit pattern.
///
/// Angles are not normalised modulo `2π`: the IR keeps exactly what a
/// frontend or builder supplied. Finiteness is checked by circuit validation,
/// not here.
#[derive(Debug, Clone, Copy, PartialEq, Eq, Structural, Hash)]
pub struct Angle {
    bits: u64,
}

impl Angle {
    /// The pattern this angle holds.
    pub closed spec fn spec_bits(self) -> u64 {
        self.bits
    }

    /// Wraps a binary64 bit pattern as an angle.
    pub fn from_bits(bits: u64) -> (a: Angle)
        ensures
            a.spec_bits() == bits,
    {
        Angle { bits }
    }

    /// The binary64 bit pattern of this angle's radian value.
    pub fn to_bits(self) -> (r: u64)
        ensures
            r == self.spec_bits(),
    {
        self.bits
    }

    /// Whether the angle is finite (neither NaN nor infinite).
    pub fn is_finite(self) -> (r: bool)
        ensures
            r == bits_finite(self.spec_bits()),
    {
        (self.bits >> 52u64) & EXPONENT_MASK != EXPONENT_MASK
    }

    /// Whether the two angles compare equal as floating-point numbers.
    pub fn value_eq(self, other: Angle) -> (r: bool)
        ensures
            r == bits_equal(self.spec_bits(), other.spec_bits()),
    {
        let a = self.bits;
        let b = other.bits;
        let a_nan = (a >> 52u64) & EXPONENT_MASK == EXPONENT_MASK && a & MANTISSA_MASK != 0;
        let b_nan = (b >> 52u64) & EXPONENT_MASK == EXPONENT_MASK && b & MANTISSA_MASK != 0;
        !a_nan && !b_nan && (a == b || (a & MAGNITUDE_MASK == 0 && b & MAGNITUDE_MASK == 0))
    }

    /// Whether `self == -other` as floating-point numbers: the two angles
    /// exactly cancel.
    pub fn negates(self, other: Angle) -> (r: bool)
        ensures
            r == bits_equal(self.spec_bits(), bits_negated(other.spec_bits())),
    {
        self.value_eq(Angle { bits: other.bits ^ SIGN_BIT })
    }
}

/// The abstract value of a gate parameter.
pub enum ParamModel {
    /// A known angle, by its binary64 pattern.
    Concrete(u64),
    /// A named symbol.
    Symbol(Seq<char>),
}

/// A gate parameter: a concrete angle, or a named symbol awaiting binding.
#[derive(Debug, PartialEq)]
pub enum Param {
    /// A known numeric angle, in radians.
    Concrete(Angle),
    /// A named symbolic parameter, resolved by an explicit binding step.
    Symbol(String),
}

impl View for Param {
    type V = ParamModel;

    open spec fn view(&self) -> ParamModel {
        match self {
            Param::Concrete(a) => ParamModel::Concrete(a.spec_bits()),
            Param::Symbol(s) => ParamModel::Symbol(s@),
        }
    }
}

/// Well-formedness of a parameter: a concrete angle must be finite and a
/// symbol must have a name.
pub open spec fn param_valid(p: ParamModel) -> bool {
    match p {
        ParamModel::Concrete(bits) => bits_finite(bits),
        ParamModel::Symbol(name) => name.len() > 0,
    }
}

impl Clone for Param {
    fn clone(&self) -> (r: Self)
        ensures
            r == *self,
    {
        match self {
            Param::Concrete(a) => Param::Concrete(*a),
            Param::Symbol(s) => Param::Symbol(s.clone()),
        }
    }
}

impl Param {
    /// A concrete parameter holding the given angle.
    pub fn concrete(angle: Angle) -> (p: Param)
        ensures
            p@ == ParamModel::Concrete(angle.spec_bits()),
    {
        Param::Concrete(angle)
    }

    /// A symbolic parameter with the given name.
    pub fn symbol(name: &str) -> (p: Param)
        ensures
            p@ == ParamModel::Symbol(name@),
    {
        Param::Symbol(name.to_string())
    }

    /// Whether this parameter already holds a numeric value.
    pub fn is_concrete(&self) -> (r: bool)
        ensures
            r == (self@ is Concrete),
    {
        match self {
            Param::Concrete(_) => true,
            Param::Symbol(_) => false,
        }
    }

    /// Whether this parameter is an unbound symbol.
    pub fn is_symbolic(&self) -> (r: bool)
        ensures
            r == (self@ is Symbol),
    {
        match self {
            Param::Concrete(_) => false,
            Param::Symbol(_) => true,
        }
    }

    /// The concrete angle, or `None` for a symbol.
    pub fn as_concrete(&self) -> (r: Option<Angle>)
        ensures
            match self@ {
                ParamModel::Concrete(bits) => r is Some && r->0.spec_bits() == bits,
                ParamModel::Symbol(_) => r is None,
            },
    {
        match self {
            Param::Concrete(a) => Some(*a),
            Param::Symbol(_) => None,
        }
    }

    /// The symbol's name, or `None` for a concrete angle.
    pub fn as_symbol(&self) -> (r: Option<&str>)
        ensures
            match self@ {
                ParamModel::Concrete(_) => r is None,
                ParamModel::Symbol(name) => r is Some && r->0@ == name,
            },
    {
        match self {
            Param::Symbol(name) => Some(name.as_str()),
            Param::Concrete(_) => None,
        }
    }

    /// Whether this parameter is well formed: a concrete angle is finite, a
    /// symbol has a non-empty name.
    pub fn is_valid(&self) -> (r: bool)
        ensures
            r == param_valid(self@),
    {
        match self {
            Param::Concrete(a) => a.is_finite(),
            Param::Symbol(name) => name.as_str().unicode_len() > 0,
        }
    }

    /// Whether two parameters are the same parameter: identical angle
    /// patterns, or identical symbol names.
    pub fn same_as(&self, other: &Param) -> (r: bool)
        ensures
            r == (self@ == other@),
    {
        match (self, other) {
            (Param::Concrete(a), Param::Concrete(b)) => a.bits == b.bits,
            (Param::Symbol(a), Param::Symbol(b)) => a.eq(b),
            _ => false,
        }
    }
}

/// Copies a parameter list, element by element.
pub fn clone_params(params: &Vec<Param>) -> (r: Vec<Param>)
    ensures
        r@ == params@,
{
    let mut out: Vec<Param> = Vec::new();
    let mut i: usize = 0;
    while i < params.len()
        invariant
            i <= params.len(),
            out@ == params@.take(i as int),
        decreases params.len() - i,
    {
        out.push(params[i].clone());
        proof {
            assert(params@.take(i as int + 1) =~= params@.take(i as int).push(params@[i as int]));
        }
        i += 1;
    }
    proof {
        assert(params@.take(params@.len() as int) =~= params@);
    }
    out
}

/// Whether two parameter lists are element-wise the same.
pub fn same_params(a: &Vec<Param>, b: &Vec<Param>) -> (r: bool)
    ensures
        r == (a@.map_values(|p: Param| p@) == b@.map_values(|p: Param| p@)),
{
    if a.len() != b.len() {
        proof {
            assert(a@.map_values(|p: Param| p@).len() != b@.map_values(|p: Param| p@).len());
        }
        return false;
    }
    let mut i: usize = 0;
    while i < a.len()
        invariant
            i <= a.len(),
            a.len() == b.len(),
            forall|j: int| 0 <= j < i ==> #[trigger] a@[j]@ == b@[j]@,
        decreases a.len() - i,
    {
        if !a[i].same_as(&b[i]) {
            proof {
                let ma = a@.map_values(|p: Param| p@);
                let mb = b@.map_values(|p: Param| p@);
                assert(ma[i as int] != mb[i as int]);
            }
            return false;
        }
        i += 1;
    }
    proof {
        assert(a@.map_values(|p: Param| p@) =~= b@.map_values(|p: Param| p@));
    }
    true
}

/// The abstract value of a gate kind.
pub enum GateModel {
    /// Identity.
    I,
    /// Pauli-X.
    X,
    /// Pauli-Y.
    Y,
    /// Pauli-Z.
    Z,
    /// Hadamard.
    H,
    /// Phase gate `S`.
    S,
    /// `S†`.
    Sdg,
    /// `T`.
    T,
    /// `T†`.
    Tdg,
    /// Rotation about X.
    Rx(ParamModel),
    /// Rotation about Y.
    Ry(ParamModel),
    /// Rotation about Z.
    Rz(ParamModel),
    /// Phase gate `P(λ)`.
    P(ParamModel),
    /// General one-qubit unitary.
    U { theta: ParamModel, phi: ParamModel, lambda: ParamModel },
    /// Controlled-X.
    Cx,
    /// Controlled-Y.
    Cy,
    /// Controlled-Z.
    Cz,
    /// Swap.
    Swap,
    /// Toffoli.
    Ccx,
    /// An unregistered gate.
    Opaque { name: Seq<char>, params: Seq<ParamModel> },
}

/// The identity of a quantum gate together with its parameters, but not its
/// qubit operands.
///
/// A closed set of registered gates plus one [`GateKind::Opaque`] escape
/// hatch for gates the compiler does not know.
#[derive(Debug, PartialEq)]
pub enum GateKind {
    /// Identity.
    I,
    /// Pauli-X (NOT).
    X,
    /// Pauli-Y.
    Y,
    /// Pauli-Z.
    Z,
    /// Hadamard.
    H,
    /// Phase gate `S = diag(1, i)`.
    S,
    /// Adjoint of `S`.
    Sdg,
    /// `T = diag(1, e^{iπ/4})`.
    T,
    /// Adjoint of `T`.
    Tdg,
    /// Rotation about X by the given angle.
    Rx(Param),
    /// Rotation about Y by the given angle.
    Ry(Param),
    /// Rotation about Z by the given angle.
    Rz(Param),
    /// Phase gate `P(λ) = diag(1, e^{iλ})`.
    P(Param),
    /// General single-qubit unitary `U(θ, φ, λ)`.
    U {
        /// Polar angle θ.
        theta: Param,
        /// First azimuthal angle φ.
        phi: Param,
        /// Second azimuthal angle λ.
        lambda: Param,
    },
    /// Controlled-X: operands `[control, target]`.
    Cx,
    /// Controlled-Y: operands `[control, target]`.
    Cy,
    /// Controlled-Z: operands `[control, target]`.
    Cz,
    /// Swap: operands `[a, b]`.
    Swap,
    /// Toffoli: operands `[control0, control1, target]`.
    Ccx,
    /// A gate outside the registered set, carried by name.
    Opaque {
        /// Lowercase gate mnemonic.
        name: String,
        /// Angle parameters.
        params: Vec<Param>,
    },
}

impl View for GateKind {
    type V = GateModel;

    open spec fn view(&self) -> GateModel {
        match self {
            GateKind::I => GateModel::I,
            GateKind::X => GateModel::X,
            GateKind::Y => GateModel::Y,
            GateKind::Z => GateModel::Z,
            GateKind::H => GateModel::H,
            GateKind::S => GateModel::S,
            GateKind::Sdg => GateModel::Sdg,
            GateKind::T => GateModel::T,
            GateKind::Tdg => GateModel::Tdg,
            GateKind::Rx(p) => GateModel::Rx(p@),
            GateKind::Ry(p) => GateModel::Ry(p@),
            GateKind::Rz(p) => GateModel::Rz(p@),
            GateKind::P(p) => GateModel::P(p@),
            GateKind::U { theta, phi, lambda } => GateModel::U {
                theta: theta@,
                phi: phi@,
                lambda: lambda@,
            },
            GateKind::Cx => GateModel::Cx,
            GateKind::Cy => GateModel::Cy,
            GateKind::Cz => GateModel::Cz,
            GateKind::Swap => GateModel::Swap,
            GateKind::Ccx => GateModel::Ccx,
            GateKind::Opaque { name, params } => GateModel::Opaque {
                name: name@,
                params: params@.map_values(|p: Param| p@),
            },
        }
    }
}

/// The number of qubit operands a gate takes; `None` for an opaque gate,
/// whose arity is not fixed.
pub open spec fn gate_arity(g: GateModel) -> Option<nat> {
    match g {
        GateModel::Cx | GateModel::Cy | GateModel::Cz | GateModel::Swap => Some(2),
        GateModel::Ccx => Some(3),
        GateModel::Opaque { .. } => None,
        _ => Some(1),
    }
}

/// The lowercase mnemonic of a gate.
pub open spec fn gate_mnemonic(g: GateModel) -> Seq<char> {
    match g {
        GateModel::I => seq!['i', 'd'],
        GateModel::X => seq!['x'],
        GateModel::Y => seq!['y'],
        GateModel::Z => seq!['z'],
        GateModel::H => seq!['h'],
        GateModel::S => seq!['s'],
        GateModel::Sdg => seq!['s', 'd', 'g'],
        GateModel::T => seq!['t'],
        GateModel::Tdg => seq!['t', 'd', 'g'],
        GateModel::Rx(_) => seq!['r', 'x'],
        GateModel::Ry(_) => seq!['r', 'y'],
        GateModel::Rz(_) => seq!['r', 'z'],
        GateModel::P(_) => seq!['p'],
        GateModel::U { .. } => seq!['u'],
        GateModel::Cx => seq!['c', 'x'],
        GateModel::Cy => seq!['c', 'y'],
        GateModel::Cz => seq!['c', 'z'],
        GateModel::Swap => seq!['s', 'w', 'a', 'p'],
        GateModel::Ccx => seq!['c', 'c', 'x'],
        GateModel::Opaque { name, .. } => name,
    }
}

/// A gate's parameters in canonical order.
pub open spec fn gate_params(g: GateModel) -> Seq<ParamModel> {
    match g {
        GateModel::Rx(p) | GateModel::Ry(p) | GateModel::Rz(p) | GateModel::P(p) => seq![p],
        GateModel::U { theta, phi, lambda } => seq![theta, phi, lambda],
        GateModel::Opaque { params, .. } => params,
        _ => Seq::empty(),
    }
}

impl Clone for GateKind {
    fn clone(&self) -> (r: Self)
        ensures
            r@ == self@,
    {
        match self {
            GateKind::I => GateKind::I,
            GateKind::X => GateKind::X,
            GateKind::Y => GateKind::Y,
            GateKind::Z => GateKind::Z,
            GateKind::H => GateKind::H,
            GateKind::S => GateKind::S,
            GateKind::Sdg => GateKind::Sdg,
            GateKind::T => GateKind::T,
            GateKind::Tdg => GateKind::Tdg,
            GateKind::Rx(p) => GateKind::Rx(p.clone()),
            GateKind::Ry(p) => GateKind::Ry(p.clone()),
            GateKind::Rz(p) => GateKind::Rz(p.clone()),
            GateKind::P(p) => GateKind::P(p.clone()),
            GateKind::U { theta, phi, lambda } => GateKind::U {
                theta: theta.clone(),
                phi: phi.clone(),
                lambda: lambda.clone(),
            },
            GateKind::Cx => GateKind::Cx,
            GateKind::Cy => GateKind::Cy,
            GateKind::Cz => GateKind::Cz,
            GateKind::Swap => GateKind::Swap,
            GateKind::Ccx => GateKind::Ccx,
            GateKind::Opaque { name, params } => GateKind::Opaque {
                name: name.clone(),
                params: clone_params(params),
            },
        }
    }
}

impl GateKind {
    /// The number of qubit operands this gate requires, or `None` for an
    /// opaque gate.
    pub fn arity(&self) -> (r: Option<usize>)
        ensures
            match gate_arity(self@) {
                Some(n) => r == Some(n as usize),
                None => r is None,
            },
    {
        match self {
            GateKind::Cx | GateKind::Cy | GateKind::Cz | GateKind::Swap => Some(2),
            GateKind::Ccx => Some(3),
            GateKind::Opaque { .. } => None,
            _ => Some(1),
        }
    }

    /// The lowercase mnemonic used in dumps and as the base of the QIR
    /// intrinsic name (`"h"`, `"cx"`, `"rz"`, …).
    pub fn mnemonic(&self) -> (r: String)
        ensures
            r@ == gate_mnemonic(self@),
    {
        let r = match self {
            GateKind::I => "id".to_string(),
            GateKind::X => "x".to_string(),
            GateKind::Y => "y".to_string(),
            GateKind::Z => "z".to_string(),
            GateKind::H => "h".to_string(),
            GateKind::S => "s".to_string(),
            GateKind::Sdg => "sdg".to_string(),
            GateKind::T => "t".to_string(),
            GateKind::Tdg => "tdg".to_string(),
            GateKind::Rx(_) => "rx".to_string(),
            GateKind::Ry(_) => "ry".to_string(),
            GateKind::Rz(_) => "rz".to_string(),
            GateKind::P(_) => "p".to_string(),
            GateKind::U { .. } => "u".to_string(),
            GateKind::Cx => "cx".to_string(),
            GateKind::Cy => "cy".to_string(),
            GateKind::Cz => "cz".to_string(),
            GateKind::Swap => "swap".to_string(),
            GateKind::Ccx => "ccx".to_string(),
            GateKind::Opaque { name, .. } => name.clone(),
        };
        proof {
            reveal_strlit("id");
            reveal_strlit("x");
            reveal_strlit("y");
            reveal_strlit("z");
            reveal_strlit("h");
            reveal_strlit("s");
            reveal_strlit("sdg");
            reveal_strlit("t");
            reveal_strlit("tdg");
            reveal_strlit("rx");
            reveal_strlit("ry");
            reveal_strlit("rz");
            reveal_strlit("p");
            reveal_strlit("u");
            reveal_strlit("cx");
            reveal_strlit("cy");
            reveal_strlit("cz");
            reveal_strlit("swap");
            reveal_strlit("ccx");
        }
        r
    }

    /// This gate's parameters in canonical order.
    pub fn params(&self) -> (r: Vec<Param>)
        ensures
            r@.map_values(|p: Param| p@) == gate_params(self@),
    {
        let r = match self {
            GateKind::Rx(a) | GateKind::Ry(a) | GateKind::Rz(a) | GateKind::P(a) => vec![a.clone()],
            GateKind::U { theta, phi, lambda } => vec![theta.clone(), phi.clone(), lambda.clone()],
            GateKind::Opaque { params, .. } => clone_params(params),
            _ => Vec::new(),
        };
        proof {
            assert(r@.map_values(|p: Param| p@) =~= gate_params(self@));
        }
        r
    }

    /// Every gate is a unitary operation; measurement and reset are separate
    /// instructions, not gates.
    pub fn is_unitary(&self) -> (r: bool)
        ensures
            r,
    {
        true
    }

    /// Whether two gate kinds are the same gate with the same parameters.
    pub fn same_as(&self, other: &GateKind) -> (r: bool)
        ensures
            r == (self@ == other@),
    {
        match (self, other) {
            (GateKind::I, GateKind::I) => true,
            (GateKind::X, GateKind::X) => true,
            (GateKind::Y, GateKind::Y) => true,
            (GateKind::Z, GateKind::Z) => true,
            (GateKind::H, GateKind::H) => true,
            (GateKind::S, GateKind::S) => true,
            (GateKind::Sdg, GateKind::Sdg) => true,
            (GateKind::T, GateKind::T) => true,
            (GateKind::Tdg, GateKind::Tdg) => true,
            (GateKind::Rx(a), GateKind::Rx(b)) => a.same_as(b),
            (GateKind::Ry(a), GateKind::Ry(b)) => a.same_as(b),
            (GateKind::Rz(a), GateKind::Rz(b)) => a.same_as(b),
            (GateKind::P(a), GateKind::P(b)) => a.same_as(b),
            (
                GateKind::U { theta: t1, phi: p1, lambda: l1 },
                GateKind::U { theta: t2, phi: p2, lambda: l2 },
            ) => t1.same_as(t2) && p1.same_as(p2) && l1.same_as(l2),
            (GateKind::Cx, GateKind::Cx) => true,
            (GateKind::Cy, GateKind::Cy) => true,
            (GateKind::Cz, GateKind::Cz) => true,
            (GateKind::Swap, GateKind::Swap) => true,
            (GateKind::Ccx, GateKind::Ccx) => true,
            (
                GateKind::Opaque { name: n1, params: p1 },
                GateKind::Opaque { name: n2, params: p2 },
            ) => n1.eq(n2) && same_params(p1, p2),
            _ => false,
        }
    }
}

} // verus!
