use oqci::frontend::error::FrontendError;
use oqci::frontend::gate_map::map_gate;
use oqci::frontend::openqasm::lexer::{tokenize, TokenKind};
use oqci::ir::types::{Angle, GateKind, Param};

fn concrete(x: f64) -> Param {
    Param::concrete(Angle::from_bits(x.to_bits()))
}

fn number(text: &str) -> TokenKind {
    TokenKind::Number(text.to_string())
}

fn kinds(source: &str) -> Vec<TokenKind> {
    tokenize(source)
        .unwrap()
        .into_iter()
        .map(|t| t.kind)
        .collect()
}

#[test]
fn nullary_gates_map() {
    for (name, expected) in [
        ("id", GateKind::I),
        ("x", GateKind::X),
        ("h", GateKind::H),
        ("sdg", GateKind::Sdg),
        ("tdg", GateKind::Tdg),
        ("cx", GateKind::Cx),
        ("cy", GateKind::Cy),
        ("cz", GateKind::Cz),
        ("swap", GateKind::Swap),
        ("ccx", GateKind::Ccx),
    ] {
        assert_eq!(map_gate(name, vec![]).unwrap(), expected, "{name}");
    }
}

#[test]
fn openqasm_uppercase_cx_maps() {
    assert_eq!(map_gate("CX", vec![]).unwrap(), GateKind::Cx);
}

#[test]
fn rotations_map() {
    let p = concrete(0.5);
    assert_eq!(map_gate("rx", vec![p.clone()]).unwrap(), GateKind::Rx(p.clone()));
    assert_eq!(map_gate("ry", vec![p.clone()]).unwrap(), GateKind::Ry(p.clone()));
    assert_eq!(map_gate("rz", vec![p.clone()]).unwrap(), GateKind::Rz(p.clone()));
}

#[test]
fn phase_spellings_all_map_to_p() {
    let p = concrete(0.5);
    for name in ["p", "u1", "phase"] {
        assert_eq!(
            map_gate(name, vec![p.clone()]).unwrap(),
            GateKind::P(p.clone()),
            "{name}"
        );
    }
}

#[test]
fn u_and_u3_map_to_euler_u() {
    let expected = GateKind::U {
        theta: concrete(0.1),
        phi: concrete(0.2),
        lambda: concrete(0.3),
    };
    for name in ["u", "u3"] {
        let params = vec![concrete(0.1), concrete(0.2), concrete(0.3)];
        assert_eq!(map_gate(name, params).unwrap(), expected, "{name}");
    }
}

#[test]
fn u2_fills_theta_with_half_pi() {
    let kind = map_gate("u2", vec![concrete(0.2), concrete(0.3)]).unwrap();
    assert_eq!(
        kind,
        GateKind::U {
            theta: concrete(std::f64::consts::FRAC_PI_2),
            phi: concrete(0.2),
            lambda: concrete(0.3),
        }
    );
}

#[test]
fn symbolic_parameters_pass_through() {
    assert_eq!(
        map_gate("rz", vec![Param::symbol("theta")]).unwrap(),
        GateKind::Rz(Param::symbol("theta"))
    );
}

#[test]
fn unknown_name_becomes_opaque() {
    let kind = map_gate("iswap", vec![concrete(1.0)]).unwrap();
    assert_eq!(
        kind,
        GateKind::Opaque {
            name: "iswap".into(),
            params: vec![concrete(1.0)]
        }
    );
}

#[test]
fn wrong_parameter_count_is_rejected() {
    assert_eq!(
        map_gate("rz", vec![]),
        Err(FrontendError::ParamArity {
            gate: "rz".into(),
            expected: 1,
            found: 0
        })
    );
    assert_eq!(
        map_gate("h", vec![concrete(0.0)]),
        Err(FrontendError::ParamArity {
            gate: "h".into(),
            expected: 0,
            found: 1
        })
    );
}

#[test]
fn an_unknown_name_keeps_its_spelling_when_it_becomes_opaque() {
    assert_eq!(map_gate("CX", vec![]).unwrap(), GateKind::Cx);
    assert_eq!(
        map_gate("ISWAP", vec![]).unwrap(),
        GateKind::Opaque {
            name: "ISWAP".into(),
            params: vec![]
        }
    );
    assert_eq!(
        map_gate("U2", vec![concrete(0.0)]),
        Err(FrontendError::ParamArity {
            gate: "u2".into(),
            expected: 2,
            found: 1
        })
    );
}

#[test]
fn scans_identifiers_and_punctuation() {
    assert_eq!(
        kinds("qubit[2] q;"),
        vec![
            TokenKind::Ident("qubit".into()),
            TokenKind::LBracket,
            number("2"),
            TokenKind::RBracket,
            TokenKind::Ident("q".into()),
            TokenKind::Semicolon,
            TokenKind::Eof,
        ]
    );
}

#[test]
fn scans_arrow_and_minus_distinctly() {
    assert_eq!(
        kinds("-> -"),
        vec![TokenKind::Arrow, TokenKind::Minus, TokenKind::Eof]
    );
}

#[test]
fn scans_floats_and_exponents() {
    let scanned = kinds("3.0 1e3 2.5e-2 .5");
    let values: Vec<f64> = scanned
        .iter()
        .filter_map(|k| match k {
            TokenKind::Number(text) => Some(text.parse::<f64>().unwrap()),
            _ => None,
        })
        .collect();
    assert_eq!(values, vec![3.0, 1e3, 2.5e-2, 0.5]);
    assert_eq!(
        scanned,
        vec![
            number("3.0"),
            number("1e3"),
            number("2.5e-2"),
            number(".5"),
            TokenKind::Eof,
        ]
    );
}

#[test]
fn scans_strings() {
    assert_eq!(
        kinds("include \"stdgates.inc\";"),
        vec![
            TokenKind::Ident("include".into()),
            TokenKind::Str("stdgates.inc".into()),
            TokenKind::Semicolon,
            TokenKind::Eof,
        ]
    );
}

#[test]
fn skips_line_and_block_comments() {
    assert_eq!(
        kinds("// leading\nh /* inline */ q;"),
        vec![
            TokenKind::Ident("h".into()),
            TokenKind::Ident("q".into()),
            TokenKind::Semicolon,
            TokenKind::Eof,
        ]
    );
}

#[test]
fn tracks_line_and_column() {
    let tokens = tokenize("h q;\n  cx a, b;").unwrap();
    let cx = &tokens[3];
    assert_eq!(cx.kind, TokenKind::Ident("cx".into()));
    assert_eq!((cx.line, cx.column), (2, 3));
}

#[test]
fn unterminated_string_is_rejected() {
    assert!(matches!(
        tokenize("include \"oops;"),
        Err(FrontendError::Syntax { .. })
    ));
}

#[test]
fn unterminated_block_comment_is_rejected() {
    assert!(matches!(
        tokenize("/* forever"),
        Err(FrontendError::Syntax { .. })
    ));
}

#[test]
fn unexpected_character_is_rejected() {
    assert!(matches!(
        tokenize("h $ q;"),
        Err(FrontendError::Syntax { .. })
    ));
}

#[test]
fn lexical_errors_name_the_lexeme_and_where_it_starts() {
    assert_eq!(
        tokenize("h $ q;").unwrap_err(),
        FrontendError::Syntax {
            message: "unexpected character `$`".into(),
            line: 1,
            column: 3
        }
    );
    assert_eq!(
        tokenize("x\n  1.2.3").unwrap_err(),
        FrontendError::Syntax {
            message: "malformed numeric literal `1.2.3`".into(),
            line: 2,
            column: 3
        }
    );
    assert_eq!(
        tokenize("a 1e+").unwrap_err(),
        FrontendError::Syntax {
            message: "malformed numeric literal `1e+`".into(),
            line: 1,
            column: 3
        }
    );
    assert_eq!(
        tokenize("\"abc\ndef\"").unwrap_err(),
        FrontendError::Syntax {
            message: "unterminated string literal".into(),
            line: 1,
            column: 1
        }
    );
}

#[test]
fn the_end_of_input_token_sits_after_the_last_character() {
    let tokens = tokenize("h q;\n").unwrap();
    let eof = tokens.last().unwrap();
    assert_eq!(eof.kind, TokenKind::Eof);
    assert_eq!((eof.line, eof.column), (2, 1));
    let empty = tokenize("").unwrap();
    assert_eq!(empty.len(), 1);
    assert_eq!((empty[0].line, empty[0].column), (1, 1));
}

#[test]
fn identifiers_take_underscores_and_digits_and_a_dot_needs_a_digit() {
    assert_eq!(
        kinds("_a1 b_2"),
        vec![
            TokenKind::Ident("_a1".into()),
            TokenKind::Ident("b_2".into()),
            TokenKind::Eof
        ]
    );
    assert!(matches!(tokenize("."), Err(FrontendError::Syntax { .. })));
}

#[test]
fn frontend_error_constructors_fill_their_fields() {
    assert_eq!(
        FrontendError::syntax("bad", 3, 4),
        FrontendError::Syntax {
            message: "bad".into(),
            line: 3,
            column: 4
        }
    );
    assert_eq!(
        FrontendError::semantic("undeclared register `q`"),
        FrontendError::Semantic("undeclared register `q`".into())
    );
    assert_eq!(
        FrontendError::unsupported("loops (`for`)"),
        FrontendError::Unsupported("loops (`for`)".into())
    );
}

#[test]
fn a_token_stream_ends_with_one_eof_in_source_order() {
    let tokens = tokenize("OPENQASM 3.0;\n// note\nqubit[2] q; /* gap */ h q[0];\n").unwrap();
    let last = tokens.len() - 1;
    assert_eq!(tokens[last].kind, TokenKind::Eof);
    assert!(tokens[..last].iter().all(|t| t.kind != TokenKind::Eof));
    for pair in tokens.windows(2) {
        let (a, b) = (&pair[0], &pair[1]);
        assert!(a.line >= 1 && a.column >= 1);
        assert!(a.line < b.line || (a.line == b.line && a.column < b.column));
    }
}
