use species::parser::SeqKind;
use species::syntax::symbol::{SNonterm, Symbol};
use species::syntax::{begin, end, or, MathBlock, Production, Rhs, RhsElem};
use species::ParseError;

fn assert_block(s: &str, prod_num: usize) {
    let (input, mb) = MathBlock::parser(s).unwrap();
    let prods = mb.productions;
    assert_eq!(input, "");
    assert_eq!(prods.len(), prod_num);
}

#[test]
fn parse_number_type_block() {
    assert_block(
        r"\begin{array}{llll}
        \production{number type} &
        \numtype
        &::=&
        \I32 ~|~ \I64 ~|~ \F32 ~|~ \F64 \\
        \end{array}",
        1,
    );
}

#[test]
fn parse_vector_type_block() {
    assert_block(
        r"   \begin{array}{llll}
    \production{vector type} & \vectype &::=&
      \V128 \\
    \end{array}",
        1,
    );
}

#[test]
fn parse_reference_type_block() {
    assert_block(
        r"   \begin{array}{llll}
    \production{reference type} & \reftype &::=&
      \FUNCREF ~|~ \EXTERNREF \\
    \end{array}",
        1,
    );
}

#[test]
fn parse_value_type_block() {
    assert_block(
        r"   \begin{array}{llll}
    \production{value type} & \valtype &::=&
      \numtype ~|~ \vectype ~|~ \reftype \\
    \end{array}",
        1,
    );
}

#[test]
fn parse_result_type() {
    assert_block(
        r"\begin{array}{llll}
    \production{result type} & \resulttype &::=&
      [\vec(\valtype)] \\
    \end{array}",
        1,
    );
}

#[test]
fn parse_function_type_block() {
    assert_block(
        r"   \begin{array}{llll}
    \production{function type} & \functype &::=&
      \resulttype \to \resulttype \\
    \end{array}",
        1,
    );
}

#[test]
fn parse_limits_block() {
    assert_block(
        r"\begin{array}{llll}
        \production{limits} & \limits &::=&
          \{ \LMIN~\u32, \LMAX~\u32^? \} \\
        \end{array}",
        1,
    );
}

#[test]
fn parse_memory_type_block() {
    assert_block(
        r"   \begin{array}{llll}
    \production{memory type} & \memtype &::=&
      \limits \\
    \end{array}",
        1,
    );
}

#[test]
fn parse_table_type_block() {
    assert_block(
        r"   \begin{array}{llll}
    \production{table type} & \tabletype &::=&
      \limits~\reftype \\
    \end{array}",
        1,
    );
}

#[test]
fn parse_global_type() {
    assert_block(
        r"\begin{array}{llll}
    \production{global type} & \globaltype &::=&
      \mut~\valtype \\
    \production{mutability} & \mut &::=&
      \MCONST ~|~
      \MVAR \\
    \end{array}",
        2,
    );
}

#[test]
fn parse_external_types() {
    assert_block(
        r"\begin{array}{llll}
    \production{external types} & \externtype &::=&
      \ETFUNC~\functype ~|~
      \ETTABLE~\tabletype ~|~
      \ETMEM~\memtype ~|~
      \ETGLOBAL~\globaltype \\
    \end{array}",
        1,
    );
}

#[test]
fn parse_module_block() {
    assert_block(
        r"   \begin{array}{lllll}
        \production{module} & \module &::=& \{ &
          \MTYPES~\vec(\functype), \\&&&&
          \MFUNCS~\vec(\func), \\&&&&
          \MTABLES~\vec(\table), \\&&&&
          \MMEMS~\vec(\mem), \\&&&&
          \MGLOBALS~\vec(\global), \\&&&&
          \MELEMS~\vec(\elem), \\&&&&
          \MDATAS~\vec(\data), \\&&&&
          \MSTART~\start^?, \\&&&&
          \MIMPORTS~\vec(\import), \\&&&&
          \MEXPORTS~\vec(\export) \quad\} \\
        \end{array}",
        1,
    );
}

#[test]
fn parse_indicies_block() {
    assert_block(
        r"   \begin{array}{llll}
        \production{type index} & \typeidx &::=& \u32 \\
        \production{function index} & \funcidx &::=& \u32 \\
        \production{table index} & \tableidx &::=& \u32 \\
        \production{memory index} & \memidx &::=& \u32 \\
        \production{global index} & \globalidx &::=& \u32 \\
        \production{element index} & \elemidx &::=& \u32 \\
        \production{data index} & \dataidx &::=& \u32 \\
        \production{local index} & \localidx &::=& \u32 \\
        \production{label index} & \labelidx &::=& \u32 \\
        \end{array}",
        9,
    );
}

#[test]
fn parse_table_insts_block() {
    assert_block(
        r"   \begin{array}{llcl}
        \production{instruction} & \instr &::=&
          \dots \\&&|&
          \TABLEGET~\tableidx \\&&|&
          \TABLESET~\tableidx \\&&|&
          \TABLESIZE~\tableidx \\&&|&
          \TABLEGROW~\tableidx \\&&|&
          \TABLEFILL~\tableidx \\&&|&
          \TABLECOPY~\tableidx~\tableidx \\&&|&
          \TABLEINIT~\tableidx~\elemidx \\&&|&
          \ELEMDROP~\elemidx \\
        \end{array}",
        1,
    );
}

#[test]
fn parse_rhs() {
    let s = r"\I32 ~|~ \I64 ~|~ \F32 ~|~ \F64 \\";
    let (input, rhs) = Rhs::parser(s).unwrap();
    assert_eq!(input, "");
    assert_eq!(rhs.elems.len(), 4);
}

#[test]
fn union_of_four_terminals_in_a_block() {
    let s = r"\begin{array}{llll}
        \production{number type} & \numtype &::=&
        \I32 ~|~ \I64 ~|~ \F32 ~|~ \F64 \\
        \end{array}";
    let (input, mb) = MathBlock::parser(s).unwrap();
    assert_eq!(input, "");
    assert_eq!(mb.productions.len(), 1);
    let prod = &mb.productions[0];
    assert_eq!(prod.name, "number type");
    assert_eq!(prod.lhs.names, vec!["numtype".to_string()]);
    let names = ["I32", "I64", "F32", "F64"];
    assert_eq!(prod.rhs.elems.len(), 4);
    for (elem, name) in prod.rhs.elems.iter().zip(names.iter()) {
        assert_eq!(elem.symbols, vec![Symbol::STerm(name.to_string())]);
        assert_eq!(elem.cond, None);
    }
}

#[test]
fn nine_index_productions() {
    let s = r"   \begin{array}{llll}
        \production{type index} & \typeidx &::=& \u32 \\
        \production{function index} & \funcidx &::=& \u32 \\
        \production{table index} & \tableidx &::=& \u32 \\
        \production{memory index} & \memidx &::=& \u32 \\
        \production{global index} & \globalidx &::=& \u32 \\
        \production{element index} & \elemidx &::=& \u32 \\
        \production{data index} & \dataidx &::=& \u32 \\
        \production{local index} & \localidx &::=& \u32 \\
        \production{label index} & \labelidx &::=& \u32 \\
        \end{array}";
    let (input, mb) = MathBlock::parser(s).unwrap();
    assert_eq!(input, "");
    assert_eq!(mb.productions.len(), 9);
    for prod in &mb.productions {
        assert_eq!(prod.rhs.elems.len(), 1);
        assert_eq!(
            prod.rhs.elems[0].symbols,
            vec![Symbol::SNonterm(SNonterm {
                name: "u32".to_string(),
                seq_kind: None
            })]
        );
    }
    assert_eq!(mb.productions[8].name, "label index");
    assert_eq!(mb.productions[8].lhs.names, vec!["labelidx".to_string()]);
}

#[test]
fn mixed_tuple() {
    let (input, elem) = RhsElem::parser(r"\TABLECOPY~\tableidx~\tableidx \\").unwrap();
    assert_eq!(input, "");
    assert_eq!(elem.symbols.len(), 3);
    assert_eq!(elem.symbols[0], Symbol::STerm("TABLECOPY".to_string()));
    assert_eq!(
        elem.symbols[2],
        Symbol::SNonterm(SNonterm {
            name: "tableidx".to_string(),
            seq_kind: None
        })
    );
}

#[test]
fn missing_end_fails_after_last_production() {
    let s = r"\begin{array}{llll}
        \production{limits} & \limits &::=& \{ \LMIN~\u32, \LMAX~\u32^? \} \\
        ";
    let err = MathBlock::parser(s).unwrap_err();
    assert_eq!(err, ParseError::Mismatch(s.chars().count()));
    let (after, _) = Production::parser(
        r"\production{limits} & \limits &::=& \{ \LMIN~\u32, \LMAX~\u32^? \} \\
        ",
    )
    .unwrap();
    assert_eq!(after, "");

    let s = r"\begin{array}{llll}
        \production{limits} & \limits &::=& \u32 \\
        \Foo{array}";
    match MathBlock::parser(s).unwrap_err() {
        ParseError::Mismatch(p) => assert_eq!(p, s.find(r"\Foo").unwrap()),
        other => panic!("unexpected error {:?}", other),
    }
}

#[test]
fn empty_block_is_rejected() {
    let s = r"\begin{array}{llll} \end{array}";
    assert!(MathBlock::parser(s).is_err());
    assert!(MathBlock::parser("").is_err());
    assert_eq!(MathBlock::parser(r"\start{x}").unwrap_err(), ParseError::Mismatch(0));
}

#[test]
fn blocks_classify_independently() {
    let upper = r"\begin{array}{ll}
        \production{a} & \x &::=& \FOO \\
        \end{array}";
    let lower = r"\begin{array}{ll}
        \production{b} & \y &::=& \foo \\
        \end{array}";
    let (_, first) = MathBlock::parser(upper).unwrap();
    let (_, second) = MathBlock::parser(lower).unwrap();
    let (_, first_again) = MathBlock::parser(upper).unwrap();
    assert_eq!(first, first_again);
    assert_eq!(first.productions[0].rhs.elems[0].symbols[0], Symbol::STerm("FOO".to_string()));
    assert_eq!(
        second.productions[0].rhs.elems[0].symbols[0],
        Symbol::SNonterm(SNonterm {
            name: "foo".to_string(),
            seq_kind: None
        })
    );
}

#[test]
fn production_parts() {
    let (rest, prod) =
        Production::parser(r"\production{global type} & \globaltype &::=& \mut~\valtype^n \\ \end").unwrap();
    assert_eq!(rest, r"\end");
    assert_eq!(prod.name, "global type");
    assert_eq!(prod.lhs.names, vec!["globaltype".to_string()]);
    assert_eq!(
        prod.rhs.elems[0].symbols[1],
        Symbol::SNonterm(SNonterm {
            name: "valtype".to_string(),
            seq_kind: Some(SeqKind::ManyN)
        })
    );
    assert_eq!(Production::parser(r"\limits &::=& \u32").unwrap_err(), ParseError::Mismatch(0));
    assert_eq!(Production::parser(r"\production & \a \b").unwrap_err(), ParseError::Mismatch(0));
}

#[test]
fn is_production_consumes_nothing() {
    let s = r"\production{x} & \a &::=& \b \\";
    let (rest, _) = Production::is_production(s).unwrap();
    assert_eq!(rest, s);
    assert!(Production::is_production(r"\end{array}").is_err());
}

#[test]
fn markers_and_bar() {
    assert_eq!(begin(r"\begin{array}{llll} x").unwrap().0, "x");
    assert_eq!(begin(r"\end{array}").unwrap_err(), ParseError::Mismatch(0));
    assert_eq!(end(r"\end{array}").unwrap().0, "");
    assert_eq!(end(r"\begin").unwrap_err(), ParseError::Mismatch(0));
    assert_eq!(or(r"|~ \b").unwrap().0, r"\b");
    assert_eq!(or(r"\b").unwrap_err(), ParseError::Mismatch(0));
}

#[test]
fn production_needs_closing_line_break() {
    let s = r"\production{x} & \a &::=& \b";
    assert_eq!(Production::parser(s).unwrap_err(), ParseError::Mismatch(s.len()));
    let s = r"\production{x} & \a &::=& \b ~&";
    assert_eq!(Production::parser(s).unwrap_err(), ParseError::Mismatch(s.len()));
    let (rest, prod) = Production::parser(r"\production{x} & \a &::=& [\vec(\b)] \\ &").unwrap();
    assert_eq!(rest, "");
    assert_eq!(prod.rhs.elems.len(), 1);
    let s = r"\begin{array}{ll}
        \production{x} & \a &::=& \b
        \end{array}";
    assert!(MathBlock::parser(s).is_err());
}

#[test]
fn tuples_carry_no_condition() {
    let (input, e) = RhsElem::parser(r"\TABLEGET~\tableidx").unwrap();
    assert_eq!(input, "");
    assert_eq!(
        e.symbols,
        vec![
            Symbol::STerm("TABLEGET".to_string()),
            Symbol::SNonterm(SNonterm {
                name: "tableidx".to_string(),
                seq_kind: None
            })
        ]
    );
    assert_eq!(e.cond, None);
    assert!(RhsElem::parser("|").is_err());
    let (input, rhs) = Rhs::parser(r"\{ \LMIN~\u32, \LMAX~\u32^? \}").unwrap();
    assert_eq!(input, "");
    assert_eq!(rhs.elems.len(), 1);
    assert_eq!(rhs.elems[0].cond, None);
    match &rhs.elems[0].symbols[..] {
        [Symbol::SRecord(rec)] => assert_eq!(rec.pairs.len(), 2),
        other => panic!("expected one record, got {:?}", other),
    }
}

#[test]
fn block_after_another_block_parses_as_alone() {
    let upper = r"\begin{array}{ll}
        \production{a} & \x &::=& \FOO \\
        \end{array}
";
    let lower = r"\begin{array}{ll}
        \production{b} & \y &::=& \foo \\
        \end{array}";
    let both = format!("{}{}", upper, lower);
    let (rest, first) = MathBlock::parser(&both).unwrap();
    assert_eq!(rest, lower);
    let (_, second_after) = MathBlock::parser(rest).unwrap();
    let (_, second_alone) = MathBlock::parser(lower).unwrap();
    assert_eq!(second_after, second_alone);
    assert_eq!(first.productions[0].rhs.elems[0].symbols[0], Symbol::STerm("FOO".to_string()));
}
