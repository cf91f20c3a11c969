use vstd::prelude::*;

pub mod symbol;

use crate::parser::{
    arg_name, char_at, command_at, equal_at, is_space, lemma_char_at_shift, lemma_command_bounds,
    lemma_command_shift, lemma_equal_shift, lemma_skip_seps_bounds, lemma_skip_seps_shift,
    lemma_tails_agree_from_skip, shifted, skip_seps, strings_model, tails_agree, Command, Source,
    Token,
};
use crate::syntax::symbol::{
    lemma_symbol_bounds, lemma_symbol_shift, name_is, symbol_at, Symbol, SymbolModel,
};
use crate::{agrees, delivers, PResult, ParseError};

verus! {

/// A tuple: one or more symbols in a row, starting at `i`.
pub open spec fn symbols_at(s: Seq<char>, i: int) -> Result<(int, Seq<SymbolModel>), ParseError>
    decreases s.len() - i,
{
    match symbol_at(s, i) {
        Err(e) => Err(e),
        Ok((j, x)) => {
            proof {
                if 0 <= i <= s.len() {
                    lemma_symbol_bounds(s, i);
                }
            }
            if 0 <= i <= s.len() {
                match symbols_at(s, j) {
                    Ok((k, rest)) => Ok((k, seq![x] + rest)),
                    Err(e) => if e.is_fatal() {
                        Err(e)
                    } else {
                        Ok((j, seq![x]))
                    },
                }
            } else {
                Ok((j, seq![x]))
            }
        },
    }
}

/// The alternation bar `|` and the separators after it.
pub open spec fn or_at(s: Seq<char>, i: int) -> Result<(int, ()), ParseError> {
    if char_at(s, i, '|') {
        Ok((skip_seps(s, i + 1), ()))
    } else {
        Err(ParseError::Mismatch(i as usize))
    }
}

pub proof fn lemma_symbols_bounds(s: Seq<char>, i: int)
    requires
        0 <= i <= s.len(),
    ensures
        symbols_at(s, i) is Ok ==> i < symbols_at(s, i)->Ok_0.0 <= s.len(),
    decreases s.len() - i,
{
    lemma_symbol_bounds(s, i);
    if let Ok((j, _)) = symbol_at(s, i) {
        lemma_symbols_bounds(s, j);
    }
}

/// What a tuple denotes, as plain values: its symbols, and a side
/// condition, which this notation never writes.
pub struct TupleModel {
    pub symbols: Seq<SymbolModel>,
    pub cond: Option<()>,
}

/// A tuple at `i`: its symbols, with no side condition.
pub open spec fn tuple_at(s: Seq<char>, i: int) -> Result<(int, TupleModel), ParseError> {
    match symbols_at(s, i) {
        Ok((j, t)) => Ok((j, TupleModel { symbols: t, cond: None })),
        Err(e) => Err(e),
    }
}

/// A union: tuples separated by `|`, starting at `i`; at least one.
pub open spec fn union_at(s: Seq<char>, i: int) -> Result<(int, Seq<TupleModel>), ParseError>
    decreases s.len() - i,
{
    match tuple_at(s, i) {
        Err(e) => Err(e),
        Ok((j, t)) => match or_at(s, j) {
            Err(_) => Ok((j, seq![t])),
            Ok((k, _)) => {
                proof {
                    if 0 <= i <= s.len() {
                        lemma_symbols_bounds(s, i);
                        lemma_skip_seps_bounds(s, j + 1);
                    }
                }
                if 0 <= i <= s.len() {
                    match union_at(s, k) {
                        Ok((m, rest)) => Ok((m, seq![t] + rest)),
                        Err(e) => if e.is_fatal() {
                            Err(e)
                        } else {
                            Ok((j, seq![t]))
                        },
                    }
                } else {
                    Ok((j, seq![t]))
                }
            },
        },
    }
}

/// The left-hand side: the names of the commands before `::=`, and the
/// position after `::=` and its separators.
pub open spec fn lhs_at(s: Seq<char>, i: int) -> Result<(int, Seq<Seq<char>>), ParseError>
    decreases s.len() - i,
{
    match equal_at(s, i) {
        Ok((j, _)) => Ok((j, seq![])),
        Err(_) => match command_at(s, i) {
            Err(e) => Err(e),
            Ok((j, c)) => {
                proof {
                    lemma_command_bounds(s, i);
                }
                match lhs_at(s, j) {
                    Ok((k, names)) => Ok((k, seq![c.name] + names)),
                    Err(e) => Err(e),
                }
            },
        },
    }
}

/// The label of `\production{label}` at `i`.
pub open spec fn production_name_at(s: Seq<char>, i: int) -> Result<(int, Seq<char>), ParseError> {
    match command_at(s, i) {
        Err(e) => Err(e),
        Ok((j, c)) => if c.name == seq!['p', 'r', 'o', 'd', 'u', 'c', 't', 'i', 'o', 'n']
            && c.args.len() > 0 {
            Ok((j, arg_name(c.args[0])))
        } else {
            Err(ParseError::Mismatch(i as usize))
        },
    }
}

/// What a production denotes, as plain values.
pub struct ProductionModel {
    pub name: Seq<char>,
    pub lhs: Seq<Seq<char>>,
    pub rhs: Seq<TupleModel>,
}

/// Position before the blanks, `&` and `~` that end at `e`, going back no
/// further than `k`.
pub open spec fn trim_back(s: Seq<char>, k: int, e: int) -> int
    decreases e - k,
{
    if k < e && e <= s.len() && (is_space(s[e - 1]) || s[e - 1] == '&' || s[e - 1] == '~') {
        trim_back(s, k, e - 1)
    } else {
        e
    }
}

/// The text from `k` up to `e` ends with the line break `\\`, followed only
/// by blanks, `&` and `~`.
pub open spec fn ends_with_break(s: Seq<char>, k: int, e: int) -> bool {
    let t = trim_back(s, k, e);
    k + 2 <= t <= s.len() && s[t - 2] == '\\' && s[t - 1] == '\\'
}

/// One production at `i`: label, left-hand side up to `::=`, right-hand
/// side, then separators that must close it with the line break `\\`. A
/// production without that break is refused where its separators end.
pub open spec fn production_at(s: Seq<char>, i: int) -> Result<(int, ProductionModel), ParseError> {
    match production_name_at(s, i) {
        Err(e) => Err(e),
        Ok((j, name)) => match lhs_at(s, j) {
            Err(e) => Err(e),
            Ok((k, lhs)) => match union_at(s, k) {
                Err(e) => Err(e),
                Ok((m, rhs)) => if ends_with_break(s, k, skip_seps(s, m)) {
                    Ok((skip_seps(s, m), ProductionModel { name, lhs, rhs }))
                } else {
                    Err(ParseError::Mismatch(skip_seps(s, m) as usize))
                },
            },
        },
    }
}

pub proof fn lemma_lhs_bounds(s: Seq<char>, i: int)
    requires
        0 <= i <= s.len(),
    ensures
        lhs_at(s, i) is Ok ==> i < lhs_at(s, i)->Ok_0.0 <= s.len(),
    decreases s.len() - i,
{
    if equal_at(s, i) is Ok {
        lemma_skip_seps_bounds(s, i + 3);
    } else {
        lemma_command_bounds(s, i);
        if let Ok((j, _)) = command_at(s, i) {
            lemma_lhs_bounds(s, j);
        }
    }
}

pub proof fn lemma_union_bounds(s: Seq<char>, i: int)
    requires
        0 <= i <= s.len(),
    ensures
        union_at(s, i) is Ok ==> i < union_at(s, i)->Ok_0.0 <= s.len(),
    decreases s.len() - i,
{
    lemma_symbols_bounds(s, i);
    if let Ok((j, _)) = tuple_at(s, i) {
        if let Ok((k, _)) = or_at(s, j) {
            lemma_skip_seps_bounds(s, j + 1);
            lemma_union_bounds(s, k);
        }
    }
}

/// A production that parses consumes input and stays within the text.
pub proof fn lemma_production_bounds(s: Seq<char>, i: int)
    requires
        0 <= i <= s.len(),
    ensures
        production_at(s, i) is Ok ==> i < production_at(s, i)->Ok_0.0 <= s.len(),
{
    lemma_command_bounds(s, i);
    if let Ok((j, _)) = production_name_at(s, i) {
        lemma_lhs_bounds(s, j);
        if let Ok((k, _)) = lhs_at(s, j) {
            lemma_union_bounds(s, k);
            if let Ok((m, _)) = union_at(s, k) {
                lemma_skip_seps_bounds(s, m);
            }
        }
    }
}

/// One or more productions in a row, starting at `i`.
pub open spec fn productions_at(s: Seq<char>, i: int) -> Result<
    (int, Seq<ProductionModel>),
    ParseError,
>
    decreases s.len() - i,
{
    match production_at(s, i) {
        Err(e) => Err(e),
        Ok((j, x)) => {
            proof {
                if 0 <= i <= s.len() {
                    lemma_production_bounds(s, i);
                }
            }
            if 0 <= i <= s.len() {
                match productions_at(s, j) {
                    Ok((k, rest)) => Ok((k, seq![x] + rest)),
                    Err(e) => if e.is_fatal() {
                        Err(e)
                    } else {
                        Ok((j, seq![x]))
                    },
                }
            } else {
                Ok((j, seq![x]))
            }
        },
    }
}

/// A command with the given name at `i`.
pub open spec fn marker_at(s: Seq<char>, i: int, name: Seq<char>) -> Result<(int, ()), ParseError> {
    match command_at(s, i) {
        Err(e) => Err(e),
        Ok((j, c)) => if c.name == name {
            Ok((j, ()))
        } else {
            Err(ParseError::Mismatch(i as usize))
        },
    }
}

pub open spec fn begin_name() -> Seq<char> {
    seq!['b', 'e', 'g', 'i', 'n']
}

pub open spec fn end_name() -> Seq<char> {
    seq!['e', 'n', 'd']
}

/// A math block at `i`: separators, `\begin...`, one or more productions,
/// `\end...`, separators.
pub open spec fn math_block_at(s: Seq<char>, i: int) -> Result<(int, Seq<ProductionModel>), ParseError> {
    let a = skip_seps(s, i);
    match marker_at(s, a, begin_name()) {
        Err(e) => Err(e),
        Ok((b, _)) => match productions_at(s, b) {
            Err(e) => Err(e),
            Ok((c, ps)) => match marker_at(s, c, end_name()) {
                Err(e) => Err(e),
                Ok((d, _)) => Ok((skip_seps(s, d), ps)),
            },
        },
    }
}

/// One extracted block: its productions, at least one.
#[derive(Debug, PartialEq)]
pub struct MathBlock {
    pub productions: Vec<Production>,
}

/// One grammar rule: its label, the names it defines, its alternatives.
#[derive(Debug, PartialEq)]
pub struct Production {
    pub name: String,
    pub lhs: Lhs,
    pub rhs: Rhs,
}

/// The names of the commands before `::=`.
#[derive(Debug, PartialEq)]
pub struct Lhs {
    pub names: Vec<String>,
}

/// A right-hand side: the alternatives of a union.
#[derive(Debug, PartialEq)]
pub struct Rhs {
    pub elems: Vec<RhsElem>,
}

/// One alternative of a union: a tuple of symbols.
#[derive(Debug, PartialEq)]
pub struct RhsElem {
    pub symbols: Vec<Symbol>,
    pub cond: Option<()>,
}

pub open spec fn symbols_model(v: Seq<Symbol>) -> Seq<SymbolModel> {
    v.map_values(|x: Symbol| x.model())
}

impl RhsElem {
    pub open spec fn model(&self) -> TupleModel {
        TupleModel { symbols: symbols_model(self.symbols@), cond: self.cond }
    }
}

pub open spec fn elems_model(v: Seq<RhsElem>) -> Seq<TupleModel> {
    v.map_values(|e: RhsElem| e.model())
}

impl Rhs {
    pub open spec fn model(&self) -> Seq<TupleModel> {
        elems_model(self.elems@)
    }
}

impl Lhs {
    pub open spec fn model(&self) -> Seq<Seq<char>> {
        strings_model(self.names@)
    }
}

/// Whether the text from `k` up to `e` ends with `\\` and then only blanks,
/// `&` and `~`.
fn ends_with_break_at(src: &Source, k: usize, e: usize) -> (r: bool)
    requires
        src.wf(),
        k <= e <= src.len(),
    ensures
        r == ends_with_break(src.text@, k as int, e as int),
{
    let mut t = e;
    while k < t && (src.chars[t - 1] == ' ' || src.chars[t - 1] == '\t' || src.chars[t - 1] == '\n'
        || src.chars[t - 1] == '\r' || src.chars[t - 1] == '&' || src.chars[t - 1] == '~')
        invariant
            src.wf(),
            k <= t <= e <= src.len(),
            trim_back(src.text@, k as int, t as int) == trim_back(src.text@, k as int, e as int),
        decreases t - k,
    {
        t -= 1;
    }
    2 <= t - k && src.chars[t - 2] == '\\' && src.chars[t - 1] == '\\'
}

impl Production {
    pub open spec fn model(&self) -> ProductionModel {
        ProductionModel { name: self.name@, lhs: self.lhs.model(), rhs: self.rhs.model() }
    }
}

pub open spec fn productions_model(v: Seq<Production>) -> Seq<ProductionModel> {
    v.map_values(|p: Production| p.model())
}

impl MathBlock {
    pub open spec fn model(&self) -> Seq<ProductionModel> {
        productions_model(self.productions@)
    }
}

impl RhsElem {
    /// One or more symbols in a row, starting at `i`.
    fn symbols(src: &Source, i: usize) -> (r: Result<(usize, Vec<Symbol>), ParseError>)
        requires
            src.wf(),
            i <= src.len(),
        ensures
            agrees(r, symbols_at(src.text@, i as int), |v: Vec<Symbol>| symbols_model(v@)),
            r is Ok ==> i < r->Ok_0.0 <= src.len(),
        decreases src.len() - i,
    {
        let (j, x) = match Symbol::parse_at(src, i) {
            Ok(v) => v,
            Err(e) => return Err(e),
        };
        let ghost xm = x.model();
        match Self::symbols(src, j) {
            Ok((k, rest)) => {
                let ghost old_rest = rest@;
                let mut all = rest;
                all.insert(0, x);
                assert(symbols_model(all@) =~= seq![xm] + symbols_model(old_rest));
                Ok((k, all))
            },
            Err(ParseError::MissingArgument(e)) => Err(ParseError::MissingArgument(e)),
            Err(ParseError::Mismatch(_)) => {
                let mut single: Vec<Symbol> = Vec::new();
                single.push(x);
                assert(symbols_model(single@) =~= seq![xm]);
                Ok((j, single))
            },
        }
    }

    /// A tuple at `i`.
    pub fn parse_at(src: &Source, i: usize) -> (r: Result<(usize, RhsElem), ParseError>)
        requires
            src.wf(),
            i <= src.len(),
        ensures
            agrees(r, tuple_at(src.text@, i as int), |e: RhsElem| e.model()),
            r is Ok ==> i < r->Ok_0.0 <= src.len(),
    {
        match Self::symbols(src, i) {
            Ok((j, symbols)) => Ok((j, RhsElem { symbols, cond: None })),
            Err(e) => Err(e),
        }
    }

    pub fn parser(input: &str) -> (r: PResult<'_, RhsElem>)
        ensures
            delivers(input@, r, tuple_at(input@, 0), |e: RhsElem| e.model()),
    {
        let src = Source::new(input);
        match Self::parse_at(&src, 0) {
            Ok((j, e)) => Ok((src.rest(j), e)),
            Err(e) => Err(e),
        }
    }
}

/// The alternation bar at `i`.
pub fn or_from(src: &Source, i: usize) -> (r: Result<(usize, ()), ParseError>)
    requires
        src.wf(),
        i <= src.len(),
    ensures
        agrees(r, or_at(src.text@, i as int), |u: ()| u),
        r is Ok ==> i < r->Ok_0.0 <= src.len(),
{
    if src.has(i, '|') {
        Ok((Token::skip_at(src, i + 1), ()))
    } else {
        Err(ParseError::Mismatch(i))
    }
}

/// Consumes the alternation bar `|` and the separators after it.
pub fn or(input: &str) -> (r: PResult<'_, ()>)
    ensures
        delivers(input@, r, or_at(input@, 0), |u: ()| u),
{
    let src = Source::new(input);
    match or_from(&src, 0) {
        Ok((j, u)) => Ok((src.rest(j), u)),
        Err(e) => Err(e),
    }
}

impl Rhs {
    /// Tuples separated by `|`, starting at `i`.
    fn union(src: &Source, i: usize) -> (r: Result<(usize, Vec<RhsElem>), ParseError>)
        requires
            src.wf(),
            i <= src.len(),
        ensures
            agrees(r, union_at(src.text@, i as int), |v: Vec<RhsElem>| elems_model(v@)),
            r is Ok ==> i < r->Ok_0.0 <= src.len(),
        decreases src.len() - i,
    {
        let (j, t) = match RhsElem::parse_at(src, i) {
            Ok(v) => v,
            Err(e) => return Err(e),
        };
        let ghost tm = t.model();
        let mut single: Vec<RhsElem> = Vec::new();
        if let Ok((k, _)) = or_from(src, j) {
            match Self::union(src, k) {
                Ok((m, rest)) => {
                    let ghost old_rest = rest@;
                    let mut all = rest;
                    all.insert(0, t);
                    assert(elems_model(all@) =~= seq![tm] + elems_model(old_rest));
                    return Ok((m, all));
                },
                Err(ParseError::MissingArgument(e)) => {
                    return Err(ParseError::MissingArgument(e));
                },
                Err(ParseError::Mismatch(_)) => {},
            }
        }
        single.push(t);
        assert(elems_model(single@) =~= seq![tm]);
        Ok((j, single))
    }

    /// A right-hand side at `i`.
    pub fn parse_at(src: &Source, i: usize) -> (r: Result<(usize, Rhs), ParseError>)
        requires
            src.wf(),
            i <= src.len(),
        ensures
            agrees(r, union_at(src.text@, i as int), |x: Rhs| x.model()),
            r is Ok ==> i < r->Ok_0.0 <= src.len(),
    {
        match Self::union(src, i) {
            Ok((j, elems)) => Ok((j, Rhs { elems })),
            Err(e) => Err(e),
        }
    }

    pub fn parser(input: &str) -> (r: PResult<'_, Rhs>)
        ensures
            delivers(input@, r, union_at(input@, 0), |x: Rhs| x.model()),
    {
        let src = Source::new(input);
        match Self::parse_at(&src, 0) {
            Ok((j, x)) => Ok((src.rest(j), x)),
            Err(e) => Err(e),
        }
    }
}

impl Lhs {
    /// Command names up to `::=`, starting at `i`.
    fn names(src: &Source, i: usize) -> (r: Result<(usize, Vec<String>), ParseError>)
        requires
            src.wf(),
            i <= src.len(),
        ensures
            agrees(r, lhs_at(src.text@, i as int), |v: Vec<String>| strings_model(v@)),
            r is Ok ==> i < r->Ok_0.0 <= src.len(),
        decreases src.len() - i,
    {
        if let Ok((j, _)) = Token::equal_at(src, i) {
            let v: Vec<String> = Vec::new();
            assert(strings_model(v@) =~= Seq::<Seq<char>>::empty());
            return Ok((j, v));
        }
        let (j, cmd) = match Command::parse_at(src, i) {
            Ok(v) => v,
            Err(e) => return Err(e),
        };
        match Self::names(src, j) {
            Ok((k, rest)) => {
                let ghost old_rest = rest@;
                let mut all = rest;
                all.insert(0, cmd.head.name);
                assert(strings_model(all@) =~= seq![cmd.model().name] + strings_model(old_rest));
                Ok((k, all))
            },
            Err(e) => Err(e),
        }
    }

    /// A left-hand side at `i`, with the `::=` after it.
    pub fn parse_at(src: &Source, i: usize) -> (r: Result<(usize, Lhs), ParseError>)
        requires
            src.wf(),
            i <= src.len(),
        ensures
            agrees(r, lhs_at(src.text@, i as int), |x: Lhs| x.model()),
            r is Ok ==> i < r->Ok_0.0 <= src.len(),
    {
        match Self::names(src, i) {
            Ok((j, names)) => Ok((j, Lhs { names })),
            Err(e) => Err(e),
        }
    }
}

impl Production {
    /// The label of `\production{label}` at `i`.
    fn production_name(src: &Source, i: usize) -> (r: Result<(usize, String), ParseError>)
        requires
            src.wf(),
            i <= src.len(),
        ensures
            agrees(r, production_name_at(src.text@, i as int), |n: String| n@),
            r is Ok ==> i < r->Ok_0.0 <= src.len(),
    {
        let (j, cmd) = match Command::parse_at(src, i) {
            Ok(v) => v,
            Err(e) => return Err(e),
        };
        proof {
            reveal_strlit("production");
            assert("production"@ =~= seq!['p', 'r', 'o', 'd', 'u', 'c', 't', 'i', 'o', 'n']);
            assert(cmd.model().args.len() == cmd.args@.len());
        }
        if name_is(&cmd.head.name, "production") && cmd.args.len() > 0 {
            Ok((j, cmd.args[0].name().to_owned()))
        } else {
            Err(ParseError::Mismatch(i))
        }
    }

    /// One production at `i`.
    pub fn parse_at(src: &Source, i: usize) -> (r: Result<(usize, Production), ParseError>)
        requires
            src.wf(),
            i <= src.len(),
        ensures
            agrees(r, production_at(src.text@, i as int), |p: Production| p.model()),
            r is Ok ==> i < r->Ok_0.0 <= src.len(),
    {
        let (j, name) = match Self::production_name(src, i) {
            Ok(v) => v,
            Err(e) => return Err(e),
        };
        let (k, lhs) = match Lhs::parse_at(src, j) {
            Ok(v) => v,
            Err(e) => return Err(e),
        };
        let (m, rhs) = match Rhs::parse_at(src, k) {
            Ok(v) => v,
            Err(e) => return Err(e),
        };
        let end = Token::skip_at(src, m);
        if !ends_with_break_at(src, k, end) {
            return Err(ParseError::Mismatch(end));
        }
        Ok((end, Production { name, lhs, rhs }))
    }

    pub fn parser(input: &str) -> (r: PResult<'_, Production>)
        ensures
            delivers(input@, r, production_at(input@, 0), |p: Production| p.model()),
    {
        let src = Source::new(input);
        match Self::parse_at(&src, 0) {
            Ok((j, p)) => Ok((src.rest(j), p)),
            Err(e) => Err(e),
        }
    }

    /// Whether a production starts the text; consumes nothing.
    pub fn is_production(source: &str) -> (r: PResult<'_, ()>)
        ensures
            match r {
                Ok((rest, _)) => rest == source && production_at(source@, 0) is Ok,
                Err(e) => production_at(source@, 0) == Err::<(int, ProductionModel), ParseError>(e),
            },
    {
        let src = Source::new(source);
        match Self::parse_at(&src, 0) {
            Ok(_) => Ok((source, ())),
            Err(e) => Err(e),
        }
    }

    /// One or more productions in a row, starting at `i`.
    fn many(src: &Source, i: usize) -> (r: Result<(usize, Vec<Production>), ParseError>)
        requires
            src.wf(),
            i <= src.len(),
        ensures
            agrees(r, productions_at(src.text@, i as int), |v: Vec<Production>| productions_model(v@)),
            r is Ok ==> i < r->Ok_0.0 <= src.len(),
        decreases src.len() - i,
    {
        let (j, x) = match Self::parse_at(src, i) {
            Ok(v) => v,
            Err(e) => return Err(e),
        };
        let ghost xm = x.model();
        match Self::many(src, j) {
            Ok((k, rest)) => {
                let ghost old_rest = rest@;
                let mut all = rest;
                all.insert(0, x);
                assert(productions_model(all@) =~= seq![xm] + productions_model(old_rest));
                Ok((k, all))
            },
            Err(ParseError::MissingArgument(e)) => Err(ParseError::MissingArgument(e)),
            Err(ParseError::Mismatch(_)) => {
                let mut single: Vec<Production> = Vec::new();
                single.push(x);
                assert(productions_model(single@) =~= seq![xm]);
                Ok((j, single))
            },
        }
    }
}

/// A command with the given name at `i`.
fn marker_from(src: &Source, i: usize, name: &str) -> (r: Result<(usize, ()), ParseError>)
    requires
        src.wf(),
        i <= src.len(),
    ensures
        agrees(r, marker_at(src.text@, i as int, name@), |u: ()| u),
        r is Ok ==> i < r->Ok_0.0 <= src.len(),
{
    let (j, cmd) = match Command::parse_at(src, i) {
        Ok(v) => v,
        Err(e) => return Err(e),
    };
    if name_is(&cmd.head.name, name) {
        Ok((j, ()))
    } else {
        Err(ParseError::Mismatch(i))
    }
}

/// The block-opening command `\begin...` at `i`.
pub fn begin_from(src: &Source, i: usize) -> (r: Result<(usize, ()), ParseError>)
    requires
        src.wf(),
        i <= src.len(),
    ensures
        agrees(r, marker_at(src.text@, i as int, begin_name()), |u: ()| u),
        r is Ok ==> i < r->Ok_0.0 <= src.len(),
{
    proof {
        reveal_strlit("begin");
        assert("begin"@ =~= begin_name());
    }
    marker_from(src, i, "begin")
}

/// The block-closing command `\end...` at `i`.
pub fn end_from(src: &Source, i: usize) -> (r: Result<(usize, ()), ParseError>)
    requires
        src.wf(),
        i <= src.len(),
    ensures
        agrees(r, marker_at(src.text@, i as int, end_name()), |u: ()| u),
        r is Ok ==> i < r->Ok_0.0 <= src.len(),
{
    proof {
        reveal_strlit("end");
        assert("end"@ =~= end_name());
    }
    marker_from(src, i, "end")
}

/// Consumes a command named `begin`.
pub fn begin(input: &str) -> (r: PResult<'_, ()>)
    ensures
        delivers(input@, r, marker_at(input@, 0, begin_name()), |u: ()| u),
{
    let src = Source::new(input);
    match begin_from(&src, 0) {
        Ok((j, u)) => Ok((src.rest(j), u)),
        Err(e) => Err(e),
    }
}

/// Consumes a command named `end`.
pub fn end(input: &str) -> (r: PResult<'_, ()>)
    ensures
        delivers(input@, r, marker_at(input@, 0, end_name()), |u: ()| u),
{
    let src = Source::new(input);
    match end_from(&src, 0) {
        Ok((j, u)) => Ok((src.rest(j), u)),
        Err(e) => Err(e),
    }
}

impl MathBlock {
    /// A math block at `i`.
    pub fn parse_at(src: &Source, i: usize) -> (r: Result<(usize, MathBlock), ParseError>)
        requires
            src.wf(),
            i <= src.len(),
        ensures
            agrees(r, math_block_at(src.text@, i as int), |b: MathBlock| b.model()),
            r is Ok ==> i <= r->Ok_0.0 <= src.len(),
    {
        let a = Token::skip_at(src, i);
        let (b, _) = match begin_from(src, a) {
            Ok(v) => v,
            Err(e) => return Err(e),
        };
        let (c, productions) = match Production::many(src, b) {
            Ok(v) => v,
            Err(e) => return Err(e),
        };
        let (d, _) = match end_from(src, c) {
            Ok(v) => v,
            Err(e) => return Err(e),
        };
        let e = Token::skip_at(src, d);
        Ok((e, MathBlock { productions }))
    }

    /// Parses a whole extracted block: separators, `\begin...`, one or more
    /// productions, `\end...`, separators.
    pub fn parser(input: &str) -> (r: PResult<'_, MathBlock>)
        ensures
            delivers(input@, r, math_block_at(input@, 0), |b: MathBlock| b.model()),
    {
        let src = Source::new(input);
        match Self::parse_at(&src, 0) {
            Ok((j, b)) => Ok((src.rest(j), b)),
            Err(e) => Err(e),
        }
    }
}


pub proof fn lemma_productions_bounds(s: Seq<char>, i: int)
    requires
        0 <= i <= s.len(),
    ensures
        productions_at(s, i) is Ok ==> i < productions_at(s, i)->Ok_0.0 <= s.len(),
    decreases s.len() - i,
{
    lemma_production_bounds(s, i);
    if let Ok((j, _)) = production_at(s, i) {
        lemma_productions_bounds(s, j);
    }
}

/// A block whose opening marker and productions parse but whose closing
/// marker is missing fails with a position at or after the end of its last
/// production: never inside a production already read.
pub proof fn lemma_failure_after_last_production(s: Seq<char>)
    requires
        s.len() <= usize::MAX,
        ({
            let b = marker_at(s, skip_seps(s, 0), begin_name());
            &&& b is Ok
            &&& productions_at(s, b->Ok_0.0) is Ok
            &&& marker_at(s, productions_at(s, b->Ok_0.0)->Ok_0.0, end_name()) is Err
        }),
    ensures
        ({
            let b = marker_at(s, skip_seps(s, 0), begin_name());
            let last_end = productions_at(s, b->Ok_0.0)->Ok_0.0;
            &&& math_block_at(s, 0) is Err
            &&& math_block_at(s, 0)->Err_0.position() >= last_end
        }),
{
    let a = skip_seps(s, 0);
    lemma_skip_seps_bounds(s, 0);
    lemma_command_bounds(s, a);
    let b = marker_at(s, a, begin_name())->Ok_0.0;
    lemma_productions_bounds(s, b);
    let c = productions_at(s, b)->Ok_0.0;
    lemma_command_bounds(s, c);
}


pub proof fn lemma_symbols_shift(s1: Seq<char>, s2: Seq<char>, d: int, i: int)
    requires
        tails_agree(s1, s2, d, i),
    ensures
        shifted(symbols_at(s1, i + d), symbols_at(s2, i), d),
    decreases s2.len() - i,
{
    lemma_symbol_shift(s1, s2, d, i);
    lemma_symbol_bounds(s2, i);
    if let Ok((j, _)) = symbol_at(s2, i) {
        lemma_symbols_shift(s1, s2, d, j);
    }
}

pub proof fn lemma_union_shift(s1: Seq<char>, s2: Seq<char>, d: int, i: int)
    requires
        tails_agree(s1, s2, d, i),
    ensures
        shifted(union_at(s1, i + d), union_at(s2, i), d),
    decreases s2.len() - i,
{
    lemma_symbols_shift(s1, s2, d, i);
    lemma_symbols_bounds(s2, i);
    if let Ok((j, _)) = tuple_at(s2, i) {
        lemma_char_at_shift(s1, s2, d, i);
        assert(char_at(s2, j, '|') == char_at(s1, j + d, '|'));
        if let Ok((k, _)) = or_at(s2, j) {
            lemma_skip_seps_shift(s1, s2, d, j + 1);
            lemma_skip_seps_bounds(s2, j + 1);
            lemma_union_shift(s1, s2, d, k);
        }
    }
}

pub proof fn lemma_lhs_shift(s1: Seq<char>, s2: Seq<char>, d: int, i: int)
    requires
        tails_agree(s1, s2, d, i),
    ensures
        shifted(lhs_at(s1, i + d), lhs_at(s2, i), d),
    decreases s2.len() - i,
{
    lemma_equal_shift(s1, s2, d, i);
    if equal_at(s2, i) is Err {
        lemma_command_shift(s1, s2, d, i);
        lemma_command_bounds(s2, i);
        if let Ok((j, _)) = command_at(s2, i) {
            lemma_lhs_shift(s1, s2, d, j);
        }
    }
}

pub proof fn lemma_trim_back_bounds(s: Seq<char>, k: int, e: int)
    requires
        k <= e,
    ensures
        k <= trim_back(s, k, e) <= e,
    decreases e - k,
{
    if k < e && e <= s.len() && (is_space(s[e - 1]) || s[e - 1] == '&' || s[e - 1] == '~') {
        lemma_trim_back_bounds(s, k, e - 1);
    }
}

pub proof fn lemma_trim_back_shift(s1: Seq<char>, s2: Seq<char>, d: int, i: int, k: int, e: int)
    requires
        tails_agree(s1, s2, d, i),
        i <= k <= e <= s2.len(),
    ensures
        trim_back(s1, k + d, e + d) == trim_back(s2, k, e) + d,
    decreases e - k,
{
    if k < e {
        assert(s1[(e - 1) + d] == s2[e - 1]);
        lemma_trim_back_shift(s1, s2, d, i, k, e - 1);
    }
}

pub proof fn lemma_break_shift(s1: Seq<char>, s2: Seq<char>, d: int, i: int, k: int, e: int)
    requires
        tails_agree(s1, s2, d, i),
        i <= k <= e <= s2.len(),
    ensures
        ends_with_break(s1, k + d, e + d) == ends_with_break(s2, k, e),
{
    lemma_trim_back_shift(s1, s2, d, i, k, e);
    lemma_trim_back_bounds(s2, k, e);
    let t = trim_back(s2, k, e);
    if k + 2 <= t {
        assert(s1[(t - 2) + d] == s2[t - 2]);
        assert(s1[(t - 1) + d] == s2[t - 1]);
    }
}

pub proof fn lemma_production_shift(s1: Seq<char>, s2: Seq<char>, d: int, i: int)
    requires
        tails_agree(s1, s2, d, i),
    ensures
        shifted(production_at(s1, i + d), production_at(s2, i), d),
{
    lemma_command_shift(s1, s2, d, i);
    lemma_command_bounds(s2, i);
    if let Ok((j, _)) = production_name_at(s2, i) {
        lemma_lhs_shift(s1, s2, d, j);
        lemma_lhs_bounds(s2, j);
        if let Ok((k, _)) = lhs_at(s2, j) {
            lemma_union_shift(s1, s2, d, k);
            lemma_union_bounds(s2, k);
            if let Ok((m, _)) = union_at(s2, k) {
                lemma_skip_seps_shift(s1, s2, d, m);
                lemma_skip_seps_bounds(s2, m);
                lemma_break_shift(s1, s2, d, i, k, skip_seps(s2, m));
            }
        }
    }
}

pub proof fn lemma_productions_shift(s1: Seq<char>, s2: Seq<char>, d: int, i: int)
    requires
        tails_agree(s1, s2, d, i),
    ensures
        shifted(productions_at(s1, i + d), productions_at(s2, i), d),
    decreases s2.len() - i,
{
    lemma_production_shift(s1, s2, d, i);
    lemma_production_bounds(s2, i);
    if let Ok((j, _)) = production_at(s2, i) {
        lemma_productions_shift(s1, s2, d, j);
    }
}

pub proof fn lemma_math_block_shift(s1: Seq<char>, s2: Seq<char>, d: int, i: int)
    requires
        tails_agree(s1, s2, d, i),
    ensures
        shifted(math_block_at(s1, i + d), math_block_at(s2, i), d),
{
    lemma_skip_seps_shift(s1, s2, d, i);
    lemma_skip_seps_bounds(s2, i);
    let a = skip_seps(s2, i);
    lemma_command_shift(s1, s2, d, a);
    lemma_command_bounds(s2, a);
    if let Ok((b, _)) = marker_at(s2, a, begin_name()) {
        lemma_productions_shift(s1, s2, d, b);
        lemma_productions_bounds(s2, b);
        if let Ok((c, _)) = productions_at(s2, b) {
            lemma_command_shift(s1, s2, d, c);
            lemma_command_bounds(s2, c);
            if let Ok((e, _)) = marker_at(s2, c, end_name()) {
                lemma_skip_seps_shift(s1, s2, d, e);
            }
        }
    }
}

/// Parsing a block depends on its own text alone: wherever the same text
/// stands, whatever precedes it, it parses to the same productions, ends
/// at the same place relative to its start, and fails alike.
pub proof fn lemma_math_block_is_local(s1: Seq<char>, i1: int, s2: Seq<char>, i2: int)
    requires
        0 <= i1 <= s1.len(),
        0 <= i2 <= s2.len(),
        s1.skip(i1) == s2.skip(i2),
    ensures
        shifted(math_block_at(s1, i1), math_block_at(s2, i2), i1 - i2),
{
    lemma_tails_agree_from_skip(s1, i1, s2, i2);
    lemma_math_block_shift(s1, s2, i1 - i2, i2);
}

/// A block read right after another block is read as it is on its own:
/// the first block, whatever names and cases it uses, has no effect on it.
pub proof fn lemma_block_after_block(b1: Seq<char>, b2: Seq<char>)
    ensures
        shifted(math_block_at(b1 + b2, b1.len() as int), math_block_at(b2, 0), b1.len() as int),
{
    assert((b1 + b2).skip(b1.len() as int) =~= b2.skip(0));
    lemma_math_block_is_local(b1 + b2, b1.len() as int, b2, 0);
}

} // verus!
