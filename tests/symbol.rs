use species::parser::SeqKind;
use species::syntax::symbol::{
    SArrow, SBracedVec, SNonterm, SRecord, STerm, SVec, Symbol,
};
use species::ParseError;

#[test]
fn parse_terminal() {
    let (input, res) = STerm::parser(r"\I32").unwrap();
    assert_eq!(input, "");
    assert_eq!(res, "I32");
}

#[test]
fn parse_nonterminal() {
    let (input, res) = SNonterm::parser(r"\numtype").unwrap();
    assert_eq!(input, "");
    assert_eq!(
        res,
        SNonterm {
            name: "numtype".to_string(),
            seq_kind: None
        }
    );
}

#[test]
fn parse_record() {
    let (input, res) = SRecord::parser(r"\{ \LMIN~\u32, \LMAX~\u32^? \}").unwrap();
    assert_eq!(input, "");
    assert_eq!(
        res,
        SRecord {
            pairs: vec![
                (
                    "LMIN".to_string(),
                    Symbol::SNonterm(SNonterm {
                        name: "u32".to_string(),
                        seq_kind: None
                    })
                ),
                (
                    "LMAX".to_string(),
                    Symbol::SNonterm(SNonterm {
                        name: "u32".to_string(),
                        seq_kind: Some(SeqKind::OptSeq),
                    })
                ),
            ]
        }
    );
}

#[test]
fn record_through_symbol_has_two_pairs() {
    let (input, res) = Symbol::parser(r"\{ \LMIN~\u32, \LMAX~\u32^? \}").unwrap();
    assert_eq!(input, "");
    match res {
        Symbol::SRecord(rec) => {
            assert_eq!(rec.pairs.len(), 2);
            assert_eq!(
                rec.pairs[1].1,
                Symbol::SNonterm(SNonterm {
                    name: "u32".to_string(),
                    seq_kind: Some(SeqKind::OptSeq)
                })
            );
        }
        other => panic!("expected a record, got {:?}", other),
    }
}

#[test]
fn record_with_vector_values() {
    let (input, res) = SRecord::parser(r"\{ \MTYPES~\vec(\functype), \MSTART~\start^? \quad\}").unwrap();
    assert_eq!(input, "");
    assert_eq!(res.pairs.len(), 2);
    assert_eq!(res.pairs[0].0, "MTYPES");
    assert_eq!(
        res.pairs[0].1,
        Symbol::SVec(SVec {
            over: Box::new(SNonterm {
                name: "functype".to_string(),
                seq_kind: None
            })
        })
    );
}

#[test]
fn braced_vector() {
    let (input, res) = Symbol::parser(r"[\vec(\valtype)]").unwrap();
    assert_eq!(input, "");
    assert_eq!(
        res,
        Symbol::SBracedVec(SBracedVec {
            inner: SVec {
                over: Box::new(SNonterm {
                    name: "valtype".to_string(),
                    seq_kind: None
                })
            }
        })
    );
    let (input, b) = SBracedVec::parser(r"[\vec(\valtype)]").unwrap();
    assert_eq!(input, "");
    assert_eq!(b.inner.over.name, "valtype");
}

#[test]
fn vector_needs_parentheses() {
    assert_eq!(SVec::parser(r"\vec \x").unwrap_err(), ParseError::Mismatch(5));
    let (rest, res) = Symbol::parser(r"\vec").unwrap();
    assert_eq!(rest, "");
    assert_eq!(
        res,
        Symbol::SNonterm(SNonterm {
            name: "vec".to_string(),
            seq_kind: None
        })
    );
}

#[test]
fn arrow() {
    let (input, res) = Symbol::parser(r"\resulttype \to \resulttype").unwrap();
    assert_eq!(input, "");
    assert_eq!(
        res,
        Symbol::SArrow(SArrow {
            from: SNonterm {
                name: "resulttype".to_string(),
                seq_kind: None
            },
            to: SNonterm {
                name: "resulttype".to_string(),
                seq_kind: None
            },
        })
    );
    assert_eq!(SArrow::parser(r"\a \b").unwrap_err(), ParseError::Mismatch(3));
}

#[test]
fn classification_by_case_and_escape() {
    assert_eq!(Symbol::parser(r"\FUNCREF").unwrap().1, Symbol::STerm("FUNCREF".to_string()));
    assert_eq!(Symbol::parser(r"\V128").unwrap().1, Symbol::STerm("V128".to_string()));
    assert_eq!(
        Symbol::parser(r"\valtype").unwrap().1,
        Symbol::SNonterm(SNonterm {
            name: "valtype".to_string(),
            seq_kind: None
        })
    );
    assert_eq!(Symbol::parser(r"\K{table}").unwrap().1, Symbol::STerm("table".to_string()));
    assert_eq!(
        Symbol::parser(r"\X{Table}").unwrap().1,
        Symbol::SNonterm(SNonterm {
            name: "Table".to_string(),
            seq_kind: None
        })
    );
    assert_eq!(Symbol::parser(r"\mixedCase").unwrap_err(), ParseError::Mismatch(0));
}

#[test]
fn missing_escape_argument_is_fatal() {
    assert_eq!(Symbol::parser(r"\K").unwrap_err(), ParseError::MissingArgument(0));
    assert_eq!(Symbol::parser(r"\X \to \b").unwrap_err(), ParseError::MissingArgument(0));
    assert_eq!(STerm::parser(r"\K").unwrap_err(), ParseError::MissingArgument(0));
    assert_eq!(SNonterm::parser(r"\X^?").unwrap_err(), ParseError::MissingArgument(0));
}

#[test]
fn structural_markers_are_not_nonterminals() {
    assert_eq!(SNonterm::parser(r"\end{array}").unwrap_err(), ParseError::Mismatch(0));
    assert_eq!(SNonterm::parser(r"\production{x}").unwrap_err(), ParseError::Mismatch(0));
    assert!(Symbol::parser(r"\end{array}").is_err());
}
