//! The shared gate-name to [`GateKind`] mapping.
//!
//! OpenQASM 3's standard gate names and Qiskit's instruction names coincide
//! across the registered set, so every frontend resolves gates through this
//! one table. Names outside it are not errors: they become
//! [`GateKind::Opaque`], carrying the name as written and the parameters.
use vstd::prelude::*;

use crate::frontend::error::FrontendError;
use crate::ir::types::{clone_params, gate_mnemonic, gate_params, Angle, GateKind, GateModel, Param, ParamModel};
use crate::text::{ascii_lowered, is_text, to_ascii_lowercase};

verus! {

/// The binary64 pattern of π/2, the θ that `u2(φ, λ)` fixes.
pub const HALF_PI_BITS: u64 = 0x3FF921FB54442D18u64;

/// The registered gate a lowered name denotes when it takes no parameters.
pub open spec fn nullary_gate(n: Seq<char>) -> Option<GateModel> {
    if n == "id"@ || n == "i"@ {
        Some(GateModel::I)
    } else if n == "x"@ {
        Some(GateModel::X)
    } else if n == "y"@ {
        Some(GateModel::Y)
    } else if n == "z"@ {
        Some(GateModel::Z)
    } else if n == "h"@ {
        Some(GateModel::H)
    } else if n == "s"@ {
        Some(GateModel::S)
    } else if n == "sdg"@ {
        Some(GateModel::Sdg)
    } else if n == "t"@ {
        Some(GateModel::T)
    } else if n == "tdg"@ {
        Some(GateModel::Tdg)
    } else if n == "cx"@ || n == "cnot"@ {
        Some(GateModel::Cx)
    } else if n == "cy"@ {
        Some(GateModel::Cy)
    } else if n == "cz"@ {
        Some(GateModel::Cz)
    } else if n == "swap"@ {
        Some(GateModel::Swap)
    } else if n == "ccx"@ || n == "toffoli"@ {
        Some(GateModel::Ccx)
    } else {
        None
    }
}

/// How many angles a registered parameterised gate takes.
pub open spec fn param_count(n: Seq<char>) -> Option<nat> {
    if n == "rx"@ || n == "ry"@ || n == "rz"@ || n == "p"@ || n == "u1"@ || n == "phase"@ {
        Some(1)
    } else if n == "u"@ || n == "u3"@ {
        Some(3)
    } else if n == "u2"@ {
        Some(2)
    } else {
        None
    }
}

/// The parameterised gate a lowered name denotes, given the right number of
/// angles. `u1` and `phase` are spellings of `P`; `u2(φ, λ)` is
/// `U(π/2, φ, λ)`.
pub open spec fn param_gate(n: Seq<char>, ps: Seq<ParamModel>) -> GateModel {
    if n == "rx"@ {
        GateModel::Rx(ps[0])
    } else if n == "ry"@ {
        GateModel::Ry(ps[0])
    } else if n == "rz"@ {
        GateModel::Rz(ps[0])
    } else if n == "p"@ || n == "u1"@ || n == "phase"@ {
        GateModel::P(ps[0])
    } else if n == "u2"@ {
        GateModel::U { theta: ParamModel::Concrete(HALF_PI_BITS), phi: ps[0], lambda: ps[1] }
    } else {
        GateModel::U { theta: ps[0], phi: ps[1], lambda: ps[2] }
    }
}

/// The models of a parameter list.
pub open spec fn params_model(ps: Seq<Param>) -> Seq<ParamModel> {
    ps.map_values(|p: Param| p@)
}

/// `r` reports that gate `gate` wants `expected` angles and got `found`.
pub open spec fn is_param_arity(
    r: Result<GateKind, FrontendError>,
    gate: Seq<char>,
    expected: nat,
    found: nat,
) -> bool {
    r matches Err(FrontendError::ParamArity { gate: g, expected: e, found: f }) && g@ == gate
        && e == expected && f == found
}

/// What [`map_gate`] gives for a name and parameters: the name is matched
/// after lowering it ASCII-wise; a registered name with the right number of
/// angles gives its gate, with the wrong number a parameter-arity error
/// naming the lowered name; any other name an opaque gate carrying the name
/// as written and the parameters.
pub open spec fn map_gate_spec(
    name: Seq<char>,
    ps: Seq<ParamModel>,
    r: Result<GateKind, FrontendError>,
) -> bool {
    let n = ascii_lowered(name);
    match nullary_gate(n) {
        Some(g) => if ps.len() == 0 {
            r is Ok && r->Ok_0@ == g
        } else {
            is_param_arity(r, n, 0, ps.len())
        },
        None => match param_count(n) {
            Some(c) => if ps.len() == c {
                r is Ok && r->Ok_0@ == param_gate(n, ps)
            } else {
                is_param_arity(r, n, c, ps.len())
            },
            None => r is Ok && r->Ok_0@ == (GateModel::Opaque { name: name, params: ps }),
        },
    }
}

/// The registered gate a lowered name denotes when it takes no parameters.
fn nullary_of(n: &String) -> (r: Option<GateKind>)
    ensures
        match nullary_gate(n@) {
            Some(g) => r is Some && r->0@ == g,
            None => r is None,
        },
{
    if is_text(n, "id") || is_text(n, "i") {
        Some(GateKind::I)
    } else if is_text(n, "x") {
        Some(GateKind::X)
    } else if is_text(n, "y") {
        Some(GateKind::Y)
    } else if is_text(n, "z") {
        Some(GateKind::Z)
    } else if is_text(n, "h") {
        Some(GateKind::H)
    } else if is_text(n, "s") {
        Some(GateKind::S)
    } else if is_text(n, "sdg") {
        Some(GateKind::Sdg)
    } else if is_text(n, "t") {
        Some(GateKind::T)
    } else if is_text(n, "tdg") {
        Some(GateKind::Tdg)
    } else if is_text(n, "cx") || is_text(n, "cnot") {
        Some(GateKind::Cx)
    } else if is_text(n, "cy") {
        Some(GateKind::Cy)
    } else if is_text(n, "cz") {
        Some(GateKind::Cz)
    } else if is_text(n, "swap") {
        Some(GateKind::Swap)
    } else if is_text(n, "ccx") || is_text(n, "toffoli") {
        Some(GateKind::Ccx)
    } else {
        None
    }
}

/// How many angles a registered parameterised gate takes.
fn param_count_of(n: &String) -> (r: Option<usize>)
    ensures
        match param_count(n@) {
            Some(c) => r == Some(c as usize),
            None => r is None,
        },
{
    if is_text(n, "rx") || is_text(n, "ry") || is_text(n, "rz") || is_text(n, "p") || is_text(
        n,
        "u1",
    ) || is_text(n, "phase") {
        Some(1)
    } else if is_text(n, "u") || is_text(n, "u3") {
        Some(3)
    } else if is_text(n, "u2") {
        Some(2)
    } else {
        None
    }
}

/// Resolves a gate mnemonic and its parameters to a [`GateKind`].
///
/// Names are matched case-insensitively (OpenQASM 3 spells the built-in
/// controlled-X `CX`, Qiskit `cx`). Unrecognised names produce
/// [`GateKind::Opaque`] carrying the name as written and the parameters.
///
/// # Errors
///
/// [`FrontendError::ParamArity`] when a registered gate is given the wrong
/// number of parameters.
pub fn map_gate(name: &str, params: Vec<Param>) -> (r: Result<GateKind, FrontendError>)
    ensures
        map_gate_spec(name@, params_model(params@), r),
{
    let lowered = to_ascii_lowercase(name);
    let ghost ps = params_model(params@);
    proof {
        assert(ps.len() == params@.len());
    }
    match nullary_of(&lowered) {
        Some(kind) => {
            if params.len() == 0 {
                return Ok(kind);
            }
            return Err(FrontendError::ParamArity { gate: lowered, expected: 0, found: params.len() });
        },
        None => {},
    }
    match param_count_of(&lowered) {
        Some(count) => {
            if params.len() != count {
                return Err(
                    FrontendError::ParamArity { gate: lowered, expected: count, found: params.len() },
                );
            }
            proof {
                assert(ps[0] == params@[0]@);
            }
            if is_text(&lowered, "rx") {
                Ok(GateKind::Rx(params[0].clone()))
            } else if is_text(&lowered, "ry") {
                Ok(GateKind::Ry(params[0].clone()))
            } else if is_text(&lowered, "rz") {
                Ok(GateKind::Rz(params[0].clone()))
            } else if is_text(&lowered, "p") || is_text(&lowered, "u1") || is_text(&lowered, "phase") {
                Ok(GateKind::P(params[0].clone()))
            } else if is_text(&lowered, "u2") {
                proof {
                    assert(ps[1] == params@[1]@);
                }
                Ok(
                    GateKind::U {
                        theta: Param::concrete(Angle::from_bits(HALF_PI_BITS)),
                        phi: params[0].clone(),
                        lambda: params[1].clone(),
                    },
                )
            } else {
                proof {
                    assert(ps[1] == params@[1]@);
                    assert(ps[2] == params@[2]@);
                }
                Ok(
                    GateKind::U {
                        theta: params[0].clone(),
                        phi: params[1].clone(),
                        lambda: params[2].clone(),
                    },
                )
            }
        },
        None => {
            let kept = clone_params(&params);
            proof {
                assert(kept@.map_values(|p: Param| p@) =~= ps);
            }
            Ok(GateKind::Opaque { name: name.to_string(), params: kept })
        },
    }
}

/// Every built-in gate's mnemonic names that gate: mapping the mnemonic of
/// any gate other than an opaque one, together with its own parameters,
/// gives back exactly that gate. So `t` is `T`, `tdg` is `Tdg`, `rz` with one
/// angle is that `Rz`, and no two built-in gates share a mnemonic.
pub proof fn lemma_mnemonic_names_its_gate(g: GateModel, r: Result<GateKind, FrontendError>)
    requires
        !(g is Opaque),
        map_gate_spec(gate_mnemonic(g), gate_params(g), r),
    ensures
        r is Ok && r->Ok_0@ == g,
{
    reveal_strlit("id");
    reveal_strlit("i");
    reveal_strlit("x");
    reveal_strlit("y");
    reveal_strlit("z");
    reveal_strlit("h");
    reveal_strlit("s");
    reveal_strlit("sdg");
    reveal_strlit("t");
    reveal_strlit("tdg");
    reveal_strlit("cx");
    reveal_strlit("cnot");
    reveal_strlit("cy");
    reveal_strlit("cz");
    reveal_strlit("swap");
    reveal_strlit("ccx");
    reveal_strlit("toffoli");
    reveal_strlit("rx");
    reveal_strlit("ry");
    reveal_strlit("rz");
    reveal_strlit("p");
    reveal_strlit("u1");
    reveal_strlit("phase");
    reveal_strlit("u");
    reveal_strlit("u3");
    reveal_strlit("u2");
    assert("i"@.len() == 1 && "i"@[0] == 'i');
    assert("x"@.len() == 1 && "x"@[0] == 'x');
    assert("y"@.len() == 1 && "y"@[0] == 'y');
    assert("z"@.len() == 1 && "z"@[0] == 'z');
    assert("h"@.len() == 1 && "h"@[0] == 'h');
    assert("s"@.len() == 1 && "s"@[0] == 's');
    assert("t"@.len() == 1 && "t"@[0] == 't');
    assert("p"@.len() == 1 && "p"@[0] == 'p');
    assert("u"@.len() == 1 && "u"@[0] == 'u');
    let m = gate_mnemonic(g);
    assert(ascii_lowered(m) =~= m);
    match g {
        GateModel::I => {
            assert(m =~= "id"@);
        },
        GateModel::X => {
            assert(m =~= "x"@);
        },
        GateModel::Y => {
            assert(m =~= "y"@);
        },
        GateModel::Z => {
            assert(m =~= "z"@);
        },
        GateModel::H => {
            assert(m =~= "h"@);
        },
        GateModel::S => {
            assert(m =~= "s"@);
        },
        GateModel::Sdg => {
            assert(m =~= "sdg"@);
        },
        GateModel::T => {
            assert(m =~= "t"@);
        },
        GateModel::Tdg => {
            assert(m =~= "tdg"@);
        },
        GateModel::Rx(_) => {
            assert(m =~= "rx"@);
        },
        GateModel::Ry(_) => {
            assert(m =~= "ry"@);
        },
        GateModel::Rz(_) => {
            assert(m =~= "rz"@);
        },
        GateModel::P(_) => {
            assert(m =~= "p"@);
        },
        GateModel::U { .. } => {
            assert(m =~= "u"@);
        },
        GateModel::Cx => {
            assert(m =~= "cx"@);
        },
        GateModel::Cy => {
            assert(m =~= "cy"@);
        },
        GateModel::Cz => {
            assert(m =~= "cz"@);
        },
        GateModel::Swap => {
            assert(m =~= "swap"@);
        },
        GateModel::Ccx => {
            assert(m =~= "ccx"@);
        },
        GateModel::Opaque { .. } => {},
    }
}

} // verus!
