use vstd::prelude::*;

use crate::parser::{
    arg_name, char_at, command_at, lemma_char_at_shift, lemma_tails_agree_from_skip, lemma_command_bounds, lemma_command_shift,
    lemma_skip_seps_bounds, lemma_skip_seps_shift, shifted, skip_seps, tails_agree, Command,
    CommandModel, SeqKind, Source, Token,
};
use crate::{agrees, delivers, PResult, ParseError};

verus! {

pub open spec fn is_upper(c: char) -> bool {
    'A' <= c && c <= 'Z'
}

pub open spec fn is_lower(c: char) -> bool {
    'a' <= c && c <= 'z'
}

/// Every letter of the name is upper-case; other characters are free.
pub open spec fn all_upper(n: Seq<char>) -> bool {
    forall|k: int| 0 <= k < n.len() ==> !is_lower(#[trigger] n[k])
}

/// Every letter of the name is lower-case; other characters are free.
pub open spec fn all_lower(n: Seq<char>) -> bool {
    forall|k: int| 0 <= k < n.len() ==> !is_upper(#[trigger] n[k])
}

/// The command is the escape `\<letter>` written without its argument.
pub open spec fn missing_escape_argument(c: CommandModel, letter: char) -> bool {
    c.name == seq![letter] && c.args.len() == 0
}

/// The terminal a command denotes: the first argument's name under the
/// escape `\K`, else the command's own name when it has no lower-case letter.
pub open spec fn terminal_name(c: CommandModel) -> Option<Seq<char>> {
    if c.name == seq!['K'] {
        if c.args.len() > 0 {
            Some(arg_name(c.args[0]))
        } else {
            None
        }
    } else if all_upper(c.name) {
        Some(c.name)
    } else {
        None
    }
}

/// The nonterminal a command denotes: the first argument's name under the
/// escape `\X`, else the command's own name when it has no upper-case letter.
pub open spec fn nonterminal_name(c: CommandModel) -> Option<Seq<char>> {
    if c.name == seq!['X'] {
        if c.args.len() > 0 {
            Some(arg_name(c.args[0]))
        } else {
            None
        }
    } else if all_lower(c.name) {
        Some(c.name)
    } else {
        None
    }
}

/// A nonterminal as plain values: its name and repetition suffix.
pub struct NontermModel {
    pub name: Seq<char>,
    pub seq_kind: Option<SeqKind>,
}

/// What a symbol denotes, as plain values.
pub enum SymbolModel {
    Term(Seq<char>),
    Nonterm(NontermModel),
    Record(Seq<(Seq<char>, SymbolModel)>),
    BracedVec(NontermModel),
    Vec(NontermModel),
    Arrow(NontermModel, NontermModel),
}

/// Keeps `first` unless it is a plain mismatch, in which case `next` is
/// tried; a fatal error is never passed over.
pub open spec fn or_else<M>(
    first: Result<(int, M), ParseError>,
    next: Result<(int, M), ParseError>,
) -> Result<(int, M), ParseError> {
    match first {
        Err(ParseError::Mismatch(_)) => next,
        _ => first,
    }
}

pub open spec fn map_node<A, B>(r: Result<(int, A), ParseError>, f: spec_fn(A) -> B) -> Result<
    (int, B),
    ParseError,
> {
    match r {
        Ok((j, a)) => Ok((j, f(a))),
        Err(e) => Err(e),
    }
}

/// A terminal symbol at `i`.
pub open spec fn term_at(s: Seq<char>, i: int) -> Result<(int, Seq<char>), ParseError> {
    match command_at(s, i) {
        Err(e) => Err(e),
        Ok((j, c)) => if missing_escape_argument(c, 'K') {
            Err(ParseError::MissingArgument(i as usize))
        } else {
            match terminal_name(c) {
                Some(n) => Ok((j, n)),
                None => Err(ParseError::Mismatch(i as usize)),
            }
        },
    }
}

/// A nonterminal symbol at `i`; the structural markers `\end` and
/// `\production` are never nonterminals.
pub open spec fn nonterm_at(s: Seq<char>, i: int) -> Result<(int, NontermModel), ParseError> {
    match command_at(s, i) {
        Err(e) => Err(e),
        Ok((j, c)) => if c.name == seq!['e', 'n', 'd'] || c.name == seq![
            'p',
            'r',
            'o',
            'd',
            'u',
            'c',
            't',
            'i',
            'o',
            'n',
        ] {
            Err(ParseError::Mismatch(i as usize))
        } else if missing_escape_argument(c, 'X') {
            Err(ParseError::MissingArgument(i as usize))
        } else {
            match nonterminal_name(c) {
                Some(n) => Ok((j, NontermModel { name: n, seq_kind: c.upnote })),
                None => Err(ParseError::Mismatch(i as usize)),
            }
        },
    }
}

/// `\vec(\sym)` at `i`: the wrapped nonterminal.
pub open spec fn vec_at(s: Seq<char>, i: int) -> Result<(int, NontermModel), ParseError> {
    match command_at(s, i) {
        Err(e) => Err(e),
        Ok((j, c)) => if c.name != seq!['v', 'e', 'c'] {
            Err(ParseError::Mismatch(i as usize))
        } else if !char_at(s, j, '(') {
            Err(ParseError::Mismatch(j as usize))
        } else {
            match nonterm_at(s, j + 1) {
                Err(e) => Err(e),
                Ok((k, nt)) => if char_at(s, k, ')') {
                    Ok((k + 1, nt))
                } else {
                    Err(ParseError::Mismatch(k as usize))
                },
            }
        },
    }
}

/// `[\vec(\sym)]` at `i`.
pub open spec fn braced_vec_at(s: Seq<char>, i: int) -> Result<(int, NontermModel), ParseError> {
    if !char_at(s, i, '[') {
        Err(ParseError::Mismatch(i as usize))
    } else {
        match vec_at(s, i + 1) {
            Err(e) => Err(e),
            Ok((k, nt)) => if char_at(s, k, ']') {
                Ok((k + 1, nt))
            } else {
                Err(ParseError::Mismatch(k as usize))
            },
        }
    }
}

/// `\a \to \b` at `i`.
pub open spec fn arrow_at(s: Seq<char>, i: int) -> Result<
    (int, (NontermModel, NontermModel)),
    ParseError,
> {
    match nonterm_at(s, i) {
        Err(e) => Err(e),
        Ok((j, from)) => match command_at(s, j) {
            Err(e) => Err(e),
            Ok((k, c)) => if c.name != seq!['t', 'o'] {
                Err(ParseError::Mismatch(j as usize))
            } else {
                match nonterm_at(s, k) {
                    Err(e) => Err(e),
                    Ok((m, to)) => Ok((m, (from, to))),
                }
            },
        },
    }
}

/// One record field at `p`: separators, a terminal key, a vector or
/// nonterminal value, separators.
pub open spec fn pair_at(s: Seq<char>, p: int) -> Result<
    (int, (Seq<char>, SymbolModel)),
    ParseError,
> {
    let q = skip_seps(s, p);
    match term_at(s, q) {
        Err(e) => Err(e),
        Ok((a, key)) => {
            let value = or_else(
                map_node(vec_at(s, a), |n: NontermModel| SymbolModel::Vec(n)),
                map_node(nonterm_at(s, a), |n: NontermModel| SymbolModel::Nonterm(n)),
            );
            match value {
                Err(e) => Err(e),
                Ok((b, v)) => Ok((skip_seps(s, b), (key, v))),
            }
        },
    }
}

pub proof fn lemma_nonterm_bounds(s: Seq<char>, i: int)
    ensures
        nonterm_at(s, i) is Ok ==> i < nonterm_at(s, i)->Ok_0.0 <= s.len(),
{
    lemma_command_bounds(s, i);
}

pub proof fn lemma_vec_bounds(s: Seq<char>, i: int)
    ensures
        vec_at(s, i) is Ok ==> i < vec_at(s, i)->Ok_0.0 <= s.len(),
{
    lemma_command_bounds(s, i);
    if let Ok((j, _)) = command_at(s, i) {
        lemma_nonterm_bounds(s, j + 1);
    }
}

pub proof fn lemma_pair_bounds(s: Seq<char>, p: int)
    requires
        0 <= p <= s.len(),
    ensures
        pair_at(s, p) is Ok ==> p < pair_at(s, p)->Ok_0.0 <= s.len(),
{
    lemma_skip_seps_bounds(s, p);
    let q = skip_seps(s, p);
    lemma_command_bounds(s, q);
    if let Ok((a, _)) = term_at(s, q) {
        lemma_vec_bounds(s, a);
        lemma_nonterm_bounds(s, a);
        if let Ok((b, _)) = vec_at(s, a) {
            lemma_skip_seps_bounds(s, b);
        }
        if let Ok((b, _)) = nonterm_at(s, a) {
            lemma_skip_seps_bounds(s, b);
        }
    }
}

/// Record fields separated by commas, starting at `p`; at least one.
pub open spec fn pair_list_at(s: Seq<char>, p: int) -> Result<
    (int, Seq<(Seq<char>, SymbolModel)>),
    ParseError,
>
    decreases s.len() - p,
{
    match pair_at(s, p) {
        Err(e) => Err(e),
        Ok((a, x)) => if char_at(s, a, ',') {
            proof {
                lemma_pair_bounds(s, p);
            }
            match pair_list_at(s, a + 1) {
                Ok((b, rest)) => Ok((b, seq![x] + rest)),
                Err(e) => if e.is_fatal() {
                    Err(e)
                } else {
                    Ok((a, seq![x]))
                },
            }
        } else {
            Ok((a, seq![x]))
        },
    }
}

/// `\{ field, ... \}` at `i`.
pub open spec fn record_at(s: Seq<char>, i: int) -> Result<
    (int, Seq<(Seq<char>, SymbolModel)>),
    ParseError,
> {
    if !(char_at(s, i, '\\') && char_at(s, i + 1, '{')) {
        Err(ParseError::Mismatch(i as usize))
    } else {
        match pair_list_at(s, i + 2) {
            Err(e) => Err(e),
            Ok((k, pairs)) => if char_at(s, k, '\\') && char_at(s, k + 1, '}') {
                Ok((k + 2, pairs))
            } else {
                Err(ParseError::Mismatch(k as usize))
            },
        }
    }
}

/// A symbol at `i`: the first of record, arrow, braced vector, vector,
/// nonterminal and terminal that parses.
pub open spec fn symbol_at(s: Seq<char>, i: int) -> Result<(int, SymbolModel), ParseError> {
    or_else(
        map_node(record_at(s, i), |p: Seq<(Seq<char>, SymbolModel)>| SymbolModel::Record(p)),
        or_else(
            map_node(
                arrow_at(s, i),
                |ft: (NontermModel, NontermModel)| SymbolModel::Arrow(ft.0, ft.1),
            ),
            or_else(
                map_node(braced_vec_at(s, i), |n: NontermModel| SymbolModel::BracedVec(n)),
                or_else(
                    map_node(vec_at(s, i), |n: NontermModel| SymbolModel::Vec(n)),
                    or_else(
                        map_node(nonterm_at(s, i), |n: NontermModel| SymbolModel::Nonterm(n)),
                        map_node(term_at(s, i), |n: Seq<char>| SymbolModel::Term(n)),
                    ),
                ),
            ),
        ),
    )
}

/// A symbol that parses consumes input and stays within the text.
pub proof fn lemma_symbol_bounds(s: Seq<char>, i: int)
    requires
        0 <= i <= s.len(),
    ensures
        symbol_at(s, i) is Ok ==> i < symbol_at(s, i)->Ok_0.0 <= s.len(),
{
    if i + 2 <= s.len() {
        lemma_pair_list_bounds(s, i + 2);
    }
    lemma_nonterm_bounds(s, i);
    if let Ok((j, _)) = nonterm_at(s, i) {
        lemma_command_bounds(s, j);
        if let Ok((k, _)) = command_at(s, j) {
            lemma_nonterm_bounds(s, k);
        }
    }
    if i + 1 <= s.len() {
        lemma_vec_bounds(s, i + 1);
    }
    lemma_vec_bounds(s, i);
    lemma_command_bounds(s, i);
    assert(record_at(s, i) is Ok ==> i < record_at(s, i)->Ok_0.0 <= s.len());
    assert(arrow_at(s, i) is Ok ==> i < arrow_at(s, i)->Ok_0.0 <= s.len());
    assert(braced_vec_at(s, i) is Ok ==> i < braced_vec_at(s, i)->Ok_0.0 <= s.len());
    assert(term_at(s, i) is Ok ==> i < term_at(s, i)->Ok_0.0 <= s.len());
}


/// A grammar symbol.
#[derive(Debug, PartialEq)]
pub enum Symbol {
    STerm(String),
    SNonterm(SNonterm),
    SRecord(SRecord),
    SBracedVec(SBracedVec),
    SVec(SVec),
    SArrow(SArrow),
}

/// Parser of terminal symbols; a terminal is represented by its name.
#[derive(Debug, PartialEq)]
pub struct STerm;

/// A nonterminal: a sub-rule named by a lower-case command or `\X{..}`.
#[derive(Debug, PartialEq)]
pub struct SNonterm {
    pub name: String,
    pub seq_kind: Option<SeqKind>,
}

/// A record `\{ KEY value, ... \}`: terminal keys with their values.
#[derive(Debug, PartialEq)]
pub struct SRecord {
    pub pairs: Vec<(String, Symbol)>,
}

/// A vector in square brackets, `[\vec(\sym)]`.
#[derive(Debug, PartialEq)]
pub struct SBracedVec {
    pub inner: SVec,
}

/// A vector of a nonterminal, `\vec(\sym)`.
#[derive(Debug, PartialEq)]
pub struct SVec {
    pub over: Box<SNonterm>,
}

/// A function-like relation `\a \to \b` between two nonterminals.
#[derive(Debug, PartialEq)]
pub struct SArrow {
    pub from: SNonterm,
    pub to: SNonterm,
}

impl SNonterm {
    pub open spec fn model(&self) -> NontermModel {
        NontermModel { name: self.name@, seq_kind: self.seq_kind }
    }
}

pub open spec fn pairs_model(ps: Seq<(String, Symbol)>) -> Seq<(Seq<char>, SymbolModel)>
    decreases ps,
{
    Seq::new(
        ps.len(),
        |k: int|
            if 0 <= k < ps.len() {
                (ps[k].0@, ps[k].1.model())
            } else {
                (Seq::empty(), SymbolModel::Term(Seq::empty()))
            },
    )
}

impl Symbol {
    pub open spec fn model(&self) -> SymbolModel
        decreases self,
    {
        match self {
            Symbol::STerm(n) => SymbolModel::Term(n@),
            Symbol::SNonterm(nt) => SymbolModel::Nonterm(nt.model()),
            Symbol::SRecord(r) => SymbolModel::Record(pairs_model(r.pairs@)),
            Symbol::SBracedVec(b) => SymbolModel::BracedVec(b.inner.over.model()),
            Symbol::SVec(v) => SymbolModel::Vec(v.over.model()),
            Symbol::SArrow(a) => SymbolModel::Arrow(a.from.model(), a.to.model()),
        }
    }
}

impl SRecord {
    pub open spec fn model(&self) -> Seq<(Seq<char>, SymbolModel)> {
        pairs_model(self.pairs@)
    }
}

impl SArrow {
    pub open spec fn model(&self) -> (NontermModel, NontermModel) {
        (self.from.model(), self.to.model())
    }
}

/// Whether the name is exactly the given literal.
pub fn name_is(name: &String, lit: &str) -> (r: bool)
    ensures
        r == (name@ == lit@),
{
    let t = name.as_str();
    let n = t.unicode_len();
    if n != lit.unicode_len() {
        return false;
    }
    let mut k: usize = 0;
    while k < n
        invariant
            n == t@.len(),
            n == lit@.len(),
            t@ == name@,
            k <= n,
            t@.subrange(0, k as int) == lit@.subrange(0, k as int),
        decreases n - k,
    {
        if t.get_char(k) != lit.get_char(k) {
            return false;
        }
        k += 1;
        assert(t@.subrange(0, k as int) =~= lit@.subrange(0, k as int));
    }
    assert(t@ =~= t@.subrange(0, n as int));
    assert(lit@ =~= lit@.subrange(0, n as int));
    true
}

/// Whether no letter of the name is lower-case.
fn has_no_lower(name: &String) -> (r: bool)
    ensures
        r == all_upper(name@),
{
    let t = name.as_str();
    let n = t.unicode_len();
    let mut k: usize = 0;
    while k < n
        invariant
            n == t@.len(),
            t@ == name@,
            k <= n,
            forall|m: int| 0 <= m < k ==> !is_lower(#[trigger] t@[m]),
        decreases n - k,
    {
        let c = t.get_char(k);
        if 'a' <= c && c <= 'z' {
            assert(is_lower(name@[k as int]));
            return false;
        }
        k += 1;
    }
    true
}

/// Whether no letter of the name is upper-case.
fn has_no_upper(name: &String) -> (r: bool)
    ensures
        r == all_lower(name@),
{
    let t = name.as_str();
    let n = t.unicode_len();
    let mut k: usize = 0;
    while k < n
        invariant
            n == t@.len(),
            t@ == name@,
            k <= n,
            forall|m: int| 0 <= m < k ==> !is_upper(#[trigger] t@[m]),
        decreases n - k,
    {
        let c = t.get_char(k);
        if 'A' <= c && c <= 'Z' {
            assert(is_upper(name@[k as int]));
            return false;
        }
        k += 1;
    }
    true
}

impl Command {
    /// The terminal this command denotes, if any.
    pub fn is_terminal(&self) -> (r: Option<String>)
        requires
            !missing_escape_argument(self.model(), 'K'),
        ensures
            match r {
                Some(n) => terminal_name(self.model()) == Some(n@),
                None => terminal_name(self.model()) is None,
            },
    {
        proof {
            reveal_strlit("K");
            assert("K"@ =~= seq!['K']);
            assert(self.model().args.len() == self.args@.len());
        }
        if name_is(&self.head.name, "K") {
            let name = self.args[0].name();
            return Some(name.to_owned());
        }
        if has_no_lower(&self.head.name) {
            return Some(self.head.name.clone());
        }
        None
    }

    /// The nonterminal this command denotes, if any.
    pub fn is_nonterminal(&self) -> (r: Option<String>)
        requires
            !missing_escape_argument(self.model(), 'X'),
        ensures
            match r {
                Some(n) => nonterminal_name(self.model()) == Some(n@),
                None => nonterminal_name(self.model()) is None,
            },
    {
        proof {
            reveal_strlit("X");
            assert("X"@ =~= seq!['X']);
            assert(self.model().args.len() == self.args@.len());
        }
        if name_is(&self.head.name, "X") {
            let name = self.args[0].name();
            return Some(name.to_owned());
        }
        if has_no_upper(&self.head.name) {
            return Some(self.head.name.clone());
        }
        None
    }
}

impl STerm {
    /// A terminal symbol at `i`; its name.
    pub fn parse_at(src: &Source, i: usize) -> (r: Result<(usize, String), ParseError>)
        requires
            src.wf(),
            i <= src.len(),
        ensures
            agrees(r, term_at(src.text@, i as int), |n: String| n@),
            r is Ok ==> i < r->Ok_0.0 <= src.len(),
    {
        let (j, cmd) = match Command::parse_at(src, i) {
            Ok(x) => x,
            Err(e) => return Err(e),
        };
        proof {
            reveal_strlit("K");
            assert("K"@ =~= seq!['K']);
        }
        proof {
            lemma_command_bounds(src.text@, i as int);
        }
        if name_is(&cmd.head.name, "K") && cmd.args.len() == 0 {
            return Err(ParseError::MissingArgument(i));
        }
        match cmd.is_terminal() {
            Some(n) => Ok((j, n)),
            None => Err(ParseError::Mismatch(i)),
        }
    }

    pub fn parser(input: &str) -> (r: PResult<'_, String>)
        ensures
            delivers(input@, r, term_at(input@, 0), |n: String| n@),
    {
        let src = Source::new(input);
        match Self::parse_at(&src, 0) {
            Ok((j, n)) => Ok((src.rest(j), n)),
            Err(e) => Err(e),
        }
    }
}

impl SNonterm {
    /// A nonterminal symbol at `i`.
    pub fn parse_at(src: &Source, i: usize) -> (r: Result<(usize, SNonterm), ParseError>)
        requires
            src.wf(),
            i <= src.len(),
        ensures
            agrees(r, nonterm_at(src.text@, i as int), |n: SNonterm| n.model()),
            r is Ok ==> i < r->Ok_0.0 <= src.len(),
    {
        let (j, cmd) = match Command::parse_at(src, i) {
            Ok(x) => x,
            Err(e) => return Err(e),
        };
        proof {
            reveal_strlit("X");
            reveal_strlit("end");
            reveal_strlit("production");
            assert("X"@ =~= seq!['X']);
            assert("end"@ =~= seq!['e', 'n', 'd']);
            assert("production"@ =~= seq!['p', 'r', 'o', 'd', 'u', 'c', 't', 'i', 'o', 'n']);
        }
        if name_is(&cmd.head.name, "end") || name_is(&cmd.head.name, "production") {
            return Err(ParseError::Mismatch(i));
        }
        if name_is(&cmd.head.name, "X") && cmd.args.len() == 0 {
            return Err(ParseError::MissingArgument(i));
        }
        match cmd.is_nonterminal() {
            Some(name) => Ok((j, SNonterm { name, seq_kind: cmd.upnote })),
            None => Err(ParseError::Mismatch(i)),
        }
    }

    pub fn parser(input: &str) -> (r: PResult<'_, SNonterm>)
        ensures
            delivers(input@, r, nonterm_at(input@, 0), |n: SNonterm| n.model()),
    {
        let src = Source::new(input);
        match Self::parse_at(&src, 0) {
            Ok((j, n)) => Ok((src.rest(j), n)),
            Err(e) => Err(e),
        }
    }
}

impl SVec {
    /// `\vec(\sym)` at `i`.
    pub fn parse_at(src: &Source, i: usize) -> (r: Result<(usize, SVec), ParseError>)
        requires
            src.wf(),
            i <= src.len(),
        ensures
            agrees(r, vec_at(src.text@, i as int), |v: SVec| v.over.model()),
            r is Ok ==> i < r->Ok_0.0 <= src.len(),
    {
        let (j, cmd) = match Command::parse_at(src, i) {
            Ok(x) => x,
            Err(e) => return Err(e),
        };
        proof {
            reveal_strlit("vec");
            assert("vec"@ =~= seq!['v', 'e', 'c']);
        }
        if !name_is(&cmd.head.name, "vec") {
            return Err(ParseError::Mismatch(i));
        }
        if !src.has(j, '(') {
            return Err(ParseError::Mismatch(j));
        }
        let (k, nt) = match SNonterm::parse_at(src, j + 1) {
            Ok(x) => x,
            Err(e) => return Err(e),
        };
        if src.has(k, ')') {
            Ok((k + 1, SVec { over: Box::new(nt) }))
        } else {
            Err(ParseError::Mismatch(k))
        }
    }

    pub fn parser(input: &str) -> (r: PResult<'_, SVec>)
        ensures
            delivers(input@, r, vec_at(input@, 0), |v: SVec| v.over.model()),
    {
        let src = Source::new(input);
        match Self::parse_at(&src, 0) {
            Ok((j, v)) => Ok((src.rest(j), v)),
            Err(e) => Err(e),
        }
    }
}

impl SBracedVec {
    /// `[\vec(\sym)]` at `i`.
    pub fn parse_at(src: &Source, i: usize) -> (r: Result<(usize, SBracedVec), ParseError>)
        requires
            src.wf(),
            i <= src.len(),
        ensures
            agrees(r, braced_vec_at(src.text@, i as int), |b: SBracedVec| b.inner.over.model()),
            r is Ok ==> i < r->Ok_0.0 <= src.len(),
    {
        if !src.has(i, '[') {
            return Err(ParseError::Mismatch(i));
        }
        let (k, inner) = match SVec::parse_at(src, i + 1) {
            Ok(x) => x,
            Err(e) => return Err(e),
        };
        if src.has(k, ']') {
            Ok((k + 1, SBracedVec { inner }))
        } else {
            Err(ParseError::Mismatch(k))
        }
    }

    pub fn parser(input: &str) -> (r: PResult<'_, SBracedVec>)
        ensures
            delivers(input@, r, braced_vec_at(input@, 0), |b: SBracedVec| b.inner.over.model()),
    {
        let src = Source::new(input);
        match Self::parse_at(&src, 0) {
            Ok((j, b)) => Ok((src.rest(j), b)),
            Err(e) => Err(e),
        }
    }
}

impl SArrow {
    /// `\a \to \b` at `i`.
    pub fn parse_at(src: &Source, i: usize) -> (r: Result<(usize, SArrow), ParseError>)
        requires
            src.wf(),
            i <= src.len(),
        ensures
            agrees(r, arrow_at(src.text@, i as int), |a: SArrow| a.model()),
            r is Ok ==> i < r->Ok_0.0 <= src.len(),
    {
        let (j, from) = match SNonterm::parse_at(src, i) {
            Ok(x) => x,
            Err(e) => return Err(e),
        };
        let (k, arrow) = match Command::parse_at(src, j) {
            Ok(x) => x,
            Err(e) => return Err(e),
        };
        proof {
            reveal_strlit("to");
            assert("to"@ =~= seq!['t', 'o']);
        }
        if !name_is(&arrow.head.name, "to") {
            return Err(ParseError::Mismatch(j));
        }
        let (m, to) = match SNonterm::parse_at(src, k) {
            Ok(x) => x,
            Err(e) => return Err(e),
        };
        Ok((m, SArrow { from, to }))
    }

    pub fn parser(input: &str) -> (r: PResult<'_, SArrow>)
        ensures
            delivers(input@, r, arrow_at(input@, 0), |a: SArrow| a.model()),
    {
        let src = Source::new(input);
        match Self::parse_at(&src, 0) {
            Ok((j, a)) => Ok((src.rest(j), a)),
            Err(e) => Err(e),
        }
    }
}

impl SRecord {
    /// One record field at `p`.
    pub fn pair(src: &Source, p: usize) -> (r: Result<(usize, (String, Symbol)), ParseError>)
        requires
            src.wf(),
            p <= src.len(),
        ensures
            agrees(r, pair_at(src.text@, p as int), |x: (String, Symbol)| (x.0@, x.1.model())),
            r is Ok ==> p < r->Ok_0.0 <= src.len(),
    {
        proof {
            lemma_pair_bounds(src.text@, p as int);
        }
        let q = Token::skip_at(src, p);
        let (a, key) = match STerm::parse_at(src, q) {
            Ok(x) => x,
            Err(e) => return Err(e),
        };
        proof {
            lemma_command_bounds(src.text@, q as int);
        }
        let (b, value) = match SVec::parse_at(src, a) {
            Ok((b, v)) => (b, Symbol::SVec(v)),
            Err(ParseError::MissingArgument(e)) => return Err(ParseError::MissingArgument(e)),
            Err(ParseError::Mismatch(_)) => match SNonterm::parse_at(src, a) {
                Ok((b, nt)) => (b, Symbol::SNonterm(nt)),
                Err(e) => return Err(e),
            },
        };
        let end = Token::skip_at(src, b);
        Ok((end, (key, value)))
    }

    /// Comma-separated record fields starting at `p`.
    fn pair_list(src: &Source, p: usize) -> (r: Result<(usize, Vec<(String, Symbol)>), ParseError>)
        requires
            src.wf(),
            p <= src.len(),
        ensures
            agrees(r, pair_list_at(src.text@, p as int), |v: Vec<(String, Symbol)>| pairs_model(v@)),
            r is Ok ==> p < r->Ok_0.0 <= src.len(),
        decreases src.len() - p,
    {
        let (a, x) = match Self::pair(src, p) {
            Ok(v) => v,
            Err(e) => return Err(e),
        };
        let ghost xm = (x.0@, x.1.model());
        let mut single: Vec<(String, Symbol)> = Vec::new();
        if src.has(a, ',') {
            match Self::pair_list(src, a + 1) {
                Ok((b, rest)) => {
                    let ghost old_rest = rest@;
                    let mut all = rest;
                    all.insert(0, x);
                    assert(pairs_model(all@) =~= seq![xm] + pairs_model(old_rest));
                    return Ok((b, all));
                },
                Err(ParseError::MissingArgument(e)) => {
                    return Err(ParseError::MissingArgument(e));
                },
                Err(ParseError::Mismatch(_)) => {},
            }
        }
        single.push(x);
        assert(pairs_model(single@) =~= seq![xm]);
        Ok((a, single))
    }

    /// `\{ field, ... \}` at `i`.
    pub fn parse_at(src: &Source, i: usize) -> (r: Result<(usize, SRecord), ParseError>)
        requires
            src.wf(),
            i <= src.len(),
        ensures
            agrees(r, record_at(src.text@, i as int), |rec: SRecord| rec.model()),
            r is Ok ==> i < r->Ok_0.0 <= src.len(),
    {
        if !(src.has(i, '\\') && src.has(i + 1, '{')) {
            return Err(ParseError::Mismatch(i));
        }
        let (k, pairs) = match Self::pair_list(src, i + 2) {
            Ok(x) => x,
            Err(e) => return Err(e),
        };
        if src.has(k, '\\') && src.has(k + 1, '}') {
            Ok((k + 2, SRecord { pairs }))
        } else {
            Err(ParseError::Mismatch(k))
        }
    }

    pub fn parser(input: &str) -> (r: PResult<'_, SRecord>)
        ensures
            delivers(input@, r, record_at(input@, 0), |rec: SRecord| rec.model()),
    {
        let src = Source::new(input);
        match Self::parse_at(&src, 0) {
            Ok((j, rec)) => Ok((src.rest(j), rec)),
            Err(e) => Err(e),
        }
    }
}

impl Symbol {
    /// A symbol at `i`: the first of record, arrow, braced vector, vector,
    /// nonterminal and terminal that parses.
    pub fn parse_at(src: &Source, i: usize) -> (r: Result<(usize, Symbol), ParseError>)
        requires
            src.wf(),
            i <= src.len(),
        ensures
            agrees(r, symbol_at(src.text@, i as int), |x: Symbol| x.model()),
            r is Ok ==> i < r->Ok_0.0 <= src.len(),
    {
        match SRecord::parse_at(src, i) {
            Ok((j, rec)) => return Ok((j, Symbol::SRecord(rec))),
            Err(ParseError::MissingArgument(e)) => return Err(ParseError::MissingArgument(e)),
            Err(ParseError::Mismatch(_)) => {},
        }
        match SArrow::parse_at(src, i) {
            Ok((j, a)) => return Ok((j, Symbol::SArrow(a))),
            Err(ParseError::MissingArgument(e)) => return Err(ParseError::MissingArgument(e)),
            Err(ParseError::Mismatch(_)) => {},
        }
        match SBracedVec::parse_at(src, i) {
            Ok((j, b)) => return Ok((j, Symbol::SBracedVec(b))),
            Err(ParseError::MissingArgument(e)) => return Err(ParseError::MissingArgument(e)),
            Err(ParseError::Mismatch(_)) => {},
        }
        match SVec::parse_at(src, i) {
            Ok((j, v)) => return Ok((j, Symbol::SVec(v))),
            Err(ParseError::MissingArgument(e)) => return Err(ParseError::MissingArgument(e)),
            Err(ParseError::Mismatch(_)) => {},
        }
        match SNonterm::parse_at(src, i) {
            Ok((j, nt)) => return Ok((j, Symbol::SNonterm(nt))),
            Err(ParseError::MissingArgument(e)) => return Err(ParseError::MissingArgument(e)),
            Err(ParseError::Mismatch(_)) => {},
        }
        match STerm::parse_at(src, i) {
            Ok((j, n)) => Ok((j, Symbol::STerm(n))),
            Err(e) => Err(e),
        }
    }

    pub fn parser(input: &str) -> (r: PResult<'_, Symbol>)
        ensures
            delivers(input@, r, symbol_at(input@, 0), |x: Symbol| x.model()),
    {
        let src = Source::new(input);
        match Self::parse_at(&src, 0) {
            Ok((j, x)) => Ok((src.rest(j), x)),
            Err(e) => Err(e),
        }
    }
}


/// The name consists of upper-case letters only.
pub open spec fn solely_upper(n: Seq<char>) -> bool {
    forall|k: int| 0 <= k < n.len() ==> #[trigger] is_upper(n[k])
}

/// The name consists of lower-case letters only.
pub open spec fn solely_lower(n: Seq<char>) -> bool {
    forall|k: int| 0 <= k < n.len() ==> #[trigger] is_lower(n[k])
}

/// A command named with upper-case letters only is read as a terminal. Its
/// identifier is its own name, or, for the escape `\K` with an argument, the
/// argument's name. (`\X` is the nonterminal escape, and `\K` without its
/// argument is a fatal error.)
pub proof fn lemma_upper_case_is_terminal(s: Seq<char>, i: int)
    requires
        command_at(s, i) is Ok,
        solely_upper(command_at(s, i)->Ok_0.1.name),
        command_at(s, i)->Ok_0.1.name != seq!['X'],
        !missing_escape_argument(command_at(s, i)->Ok_0.1, 'K'),
    ensures
        ({
            let (j, c) = command_at(s, i)->Ok_0;
            &&& c.name == seq!['K'] ==> symbol_at(s, i) == Ok::<(int, SymbolModel), ParseError>(
                (j, SymbolModel::Term(arg_name(c.args[0]))),
            )
            &&& c.name != seq!['K'] ==> symbol_at(s, i) == Ok::<(int, SymbolModel), ParseError>(
                (j, SymbolModel::Term(c.name)),
            )
        }),
{
    let (j, c) = command_at(s, i)->Ok_0;
    lemma_command_bounds(s, i);
    assert(c.name.len() > 0);
    assert(is_upper(c.name[0]));
    assert(!all_lower(c.name));
    assert forall|k: int| 0 <= k < c.name.len() implies !is_lower(#[trigger] c.name[k]) by {
        assert(is_upper(c.name[k]));
    }
    assert(c.name != seq!['e', 'n', 'd']) by {
        assert(is_lower(seq!['e', 'n', 'd'][0]));
    }
    assert(c.name != seq!['v', 'e', 'c']) by {
        assert(is_lower(seq!['v', 'e', 'c'][0]));
    }
    assert(c.name != seq!['p', 'r', 'o', 'd', 'u', 'c', 't', 'i', 'o', 'n']) by {
        assert(is_lower(seq!['p', 'r', 'o', 'd', 'u', 'c', 't', 'i', 'o', 'n'][0]));
    }
}

/// A command named with lower-case letters only (other than the markers
/// `\end` and `\production`, and `\vec`) is read as a nonterminal of that
/// name with its repetition suffix, unless it opens an arrow `\a \to \b`,
/// whose source is then that same nonterminal. The escape `\X` with an
/// argument reads the same way, with the argument's name as identifier.
pub proof fn lemma_lower_case_is_nonterminal(s: Seq<char>, i: int)
    requires
        command_at(s, i) is Ok,
        ({
            let c = command_at(s, i)->Ok_0.1;
            ||| solely_lower(c.name) && c.name != seq!['e', 'n', 'd'] && c.name != seq![
                'p',
                'r',
                'o',
                'd',
                'u',
                'c',
                't',
                'i',
                'o',
                'n',
            ] && c.name != seq!['v', 'e', 'c']
            ||| c.name == seq!['X'] && c.args.len() > 0
        }),
    ensures
        ({
            let (j, c) = command_at(s, i)->Ok_0;
            let nt = NontermModel {
                name: if c.name == seq!['X'] && c.args.len() > 0 {
                    arg_name(c.args[0])
                } else {
                    c.name
                },
                seq_kind: c.upnote,
            };
            &&& symbol_at(s, i) == or_else(
                map_node(
                    arrow_at(s, i),
                    |ft: (NontermModel, NontermModel)| SymbolModel::Arrow(ft.0, ft.1),
                ),
                Ok::<(int, SymbolModel), ParseError>((j, SymbolModel::Nonterm(nt))),
            )
            &&& arrow_at(s, i) is Ok ==> arrow_at(s, i)->Ok_0.1.0 == nt
        }),
{
    let (j, c) = command_at(s, i)->Ok_0;
    lemma_command_bounds(s, i);
    assert(c.name.len() > 0);
    if c.name != seq!['X'] {
        assert(is_lower(c.name[0]));
        assert forall|k: int| 0 <= k < c.name.len() implies !is_upper(#[trigger] c.name[k]) by {
            assert(is_lower(c.name[k]));
        }
    }
    assert(c.name != seq!['v', 'e', 'c']);
}


pub proof fn lemma_or_else_shift<M>(
    a1: Result<(int, M), ParseError>,
    a2: Result<(int, M), ParseError>,
    b1: Result<(int, M), ParseError>,
    b2: Result<(int, M), ParseError>,
    d: int,
)
    requires
        shifted(a1, a2, d),
        shifted(b1, b2, d),
    ensures
        shifted(or_else(a1, b1), or_else(a2, b2), d),
{
}

pub proof fn lemma_map_node_shift<A, B>(
    r1: Result<(int, A), ParseError>,
    r2: Result<(int, A), ParseError>,
    f: spec_fn(A) -> B,
    d: int,
)
    requires
        shifted(r1, r2, d),
    ensures
        shifted(map_node(r1, f), map_node(r2, f), d),
{
}

pub proof fn lemma_term_shift(s1: Seq<char>, s2: Seq<char>, d: int, i: int)
    requires
        tails_agree(s1, s2, d, i),
    ensures
        shifted(term_at(s1, i + d), term_at(s2, i), d),
{
    lemma_command_shift(s1, s2, d, i);
}

pub proof fn lemma_nonterm_shift(s1: Seq<char>, s2: Seq<char>, d: int, i: int)
    requires
        tails_agree(s1, s2, d, i),
    ensures
        shifted(nonterm_at(s1, i + d), nonterm_at(s2, i), d),
{
    lemma_command_shift(s1, s2, d, i);
}

pub proof fn lemma_vec_shift(s1: Seq<char>, s2: Seq<char>, d: int, i: int)
    requires
        tails_agree(s1, s2, d, i),
    ensures
        shifted(vec_at(s1, i + d), vec_at(s2, i), d),
{
    lemma_command_shift(s1, s2, d, i);
    lemma_command_bounds(s2, i);
    lemma_char_at_shift(s1, s2, d, i);
    if let Ok((j, _)) = command_at(s2, i) {
        assert(char_at(s2, j, '(') == char_at(s1, j + d, '('));
        if char_at(s2, j, '(') {
            lemma_nonterm_shift(s1, s2, d, j + 1);
            lemma_nonterm_bounds(s2, j + 1);
            if let Ok((k, _)) = nonterm_at(s2, j + 1) {
                assert(char_at(s2, k, ')') == char_at(s1, k + d, ')'));
            }
        }
    }
}

pub proof fn lemma_braced_vec_shift(s1: Seq<char>, s2: Seq<char>, d: int, i: int)
    requires
        tails_agree(s1, s2, d, i),
    ensures
        shifted(braced_vec_at(s1, i + d), braced_vec_at(s2, i), d),
{
    lemma_char_at_shift(s1, s2, d, i);
    assert(char_at(s2, i, '[') == char_at(s1, i + d, '['));
    if char_at(s2, i, '[') {
        lemma_vec_shift(s1, s2, d, i + 1);
        lemma_vec_bounds(s2, i + 1);
        if let Ok((k, _)) = vec_at(s2, i + 1) {
            assert(char_at(s2, k, ']') == char_at(s1, k + d, ']'));
        }
    }
}

pub proof fn lemma_arrow_shift(s1: Seq<char>, s2: Seq<char>, d: int, i: int)
    requires
        tails_agree(s1, s2, d, i),
    ensures
        shifted(arrow_at(s1, i + d), arrow_at(s2, i), d),
{
    lemma_nonterm_shift(s1, s2, d, i);
    lemma_nonterm_bounds(s2, i);
    if let Ok((j, _)) = nonterm_at(s2, i) {
        lemma_command_shift(s1, s2, d, j);
        lemma_command_bounds(s2, j);
        if let Ok((k, _)) = command_at(s2, j) {
            lemma_nonterm_shift(s1, s2, d, k);
        }
    }
}

pub proof fn lemma_pair_shift(s1: Seq<char>, s2: Seq<char>, d: int, p: int)
    requires
        tails_agree(s1, s2, d, p),
    ensures
        shifted(pair_at(s1, p + d), pair_at(s2, p), d),
{
    lemma_skip_seps_shift(s1, s2, d, p);
    lemma_skip_seps_bounds(s2, p);
    let q = skip_seps(s2, p);
    lemma_term_shift(s1, s2, d, q);
    lemma_command_bounds(s2, q);
    if let Ok((a, _)) = term_at(s2, q) {
        lemma_vec_shift(s1, s2, d, a);
        lemma_nonterm_shift(s1, s2, d, a);
        lemma_map_node_shift(
            vec_at(s1, a + d),
            vec_at(s2, a),
            |n: NontermModel| SymbolModel::Vec(n),
            d,
        );
        lemma_map_node_shift(
            nonterm_at(s1, a + d),
            nonterm_at(s2, a),
            |n: NontermModel| SymbolModel::Nonterm(n),
            d,
        );
        lemma_or_else_shift(
            map_node(vec_at(s1, a + d), |n: NontermModel| SymbolModel::Vec(n)),
            map_node(vec_at(s2, a), |n: NontermModel| SymbolModel::Vec(n)),
            map_node(nonterm_at(s1, a + d), |n: NontermModel| SymbolModel::Nonterm(n)),
            map_node(nonterm_at(s2, a), |n: NontermModel| SymbolModel::Nonterm(n)),
            d,
        );
        lemma_vec_bounds(s2, a);
        lemma_nonterm_bounds(s2, a);
        if let Ok((b, _)) = vec_at(s2, a) {
            lemma_skip_seps_shift(s1, s2, d, b);
        }
        if let Ok((b, _)) = nonterm_at(s2, a) {
            lemma_skip_seps_shift(s1, s2, d, b);
        }
    }
}

pub proof fn lemma_pair_list_shift(s1: Seq<char>, s2: Seq<char>, d: int, p: int)
    requires
        tails_agree(s1, s2, d, p),
    ensures
        shifted(pair_list_at(s1, p + d), pair_list_at(s2, p), d),
    decreases s2.len() - p,
{
    lemma_pair_shift(s1, s2, d, p);
    lemma_pair_bounds(s2, p);
    lemma_char_at_shift(s1, s2, d, p);
    if let Ok((a, _)) = pair_at(s2, p) {
        assert(char_at(s2, a, ',') == char_at(s1, a + d, ','));
        if char_at(s2, a, ',') {
            lemma_pair_list_shift(s1, s2, d, a + 1);
        }
    }
}

pub proof fn lemma_record_shift(s1: Seq<char>, s2: Seq<char>, d: int, i: int)
    requires
        tails_agree(s1, s2, d, i),
    ensures
        shifted(record_at(s1, i + d), record_at(s2, i), d),
{
    lemma_char_at_shift(s1, s2, d, i);
    assert(char_at(s2, i, '\\') == char_at(s1, i + d, '\\'));
    assert(char_at(s2, i + 1, '{') == char_at(s1, i + 1 + d, '{'));
    if char_at(s2, i, '\\') && char_at(s2, i + 1, '{') {
        lemma_pair_list_shift(s1, s2, d, i + 2);
        lemma_pair_list_bounds(s2, i + 2);
        if let Ok((k, _)) = pair_list_at(s2, i + 2) {
            assert(char_at(s2, k, '\\') == char_at(s1, k + d, '\\'));
            assert(char_at(s2, k + 1, '}') == char_at(s1, k + 1 + d, '}'));
        }
    }
}

pub proof fn lemma_pair_list_bounds(s: Seq<char>, p: int)
    requires
        0 <= p <= s.len(),
    ensures
        pair_list_at(s, p) is Ok ==> p < pair_list_at(s, p)->Ok_0.0 <= s.len(),
    decreases s.len() - p,
{
    lemma_pair_bounds(s, p);
    if let Ok((a, _)) = pair_at(s, p) {
        if char_at(s, a, ',') {
            lemma_pair_list_bounds(s, a + 1);
        }
    }
}

#[verifier::rlimit(50)]
pub proof fn lemma_symbol_shift(s1: Seq<char>, s2: Seq<char>, d: int, i: int)
    requires
        tails_agree(s1, s2, d, i),
    ensures
        shifted(symbol_at(s1, i + d), symbol_at(s2, i), d),
{
    lemma_record_shift(s1, s2, d, i);
    lemma_arrow_shift(s1, s2, d, i);
    lemma_braced_vec_shift(s1, s2, d, i);
    lemma_vec_shift(s1, s2, d, i);
    lemma_nonterm_shift(s1, s2, d, i);
    lemma_term_shift(s1, s2, d, i);
    let fr = |p: Seq<(Seq<char>, SymbolModel)>| SymbolModel::Record(p);
    let fa = |ft: (NontermModel, NontermModel)| SymbolModel::Arrow(ft.0, ft.1);
    let fb = |n: NontermModel| SymbolModel::BracedVec(n);
    let fv = |n: NontermModel| SymbolModel::Vec(n);
    let fn_ = |n: NontermModel| SymbolModel::Nonterm(n);
    let ft = |n: Seq<char>| SymbolModel::Term(n);
    lemma_map_node_shift(record_at(s1, i + d), record_at(s2, i), fr, d);
    lemma_map_node_shift(arrow_at(s1, i + d), arrow_at(s2, i), fa, d);
    lemma_map_node_shift(braced_vec_at(s1, i + d), braced_vec_at(s2, i), fb, d);
    lemma_map_node_shift(vec_at(s1, i + d), vec_at(s2, i), fv, d);
    lemma_map_node_shift(nonterm_at(s1, i + d), nonterm_at(s2, i), fn_, d);
    lemma_map_node_shift(term_at(s1, i + d), term_at(s2, i), ft, d);
    let t1 = or_else(map_node(nonterm_at(s1, i + d), fn_), map_node(term_at(s1, i + d), ft));
    let t2 = or_else(map_node(nonterm_at(s2, i), fn_), map_node(term_at(s2, i), ft));
    lemma_or_else_shift(
        map_node(nonterm_at(s1, i + d), fn_),
        map_node(nonterm_at(s2, i), fn_),
        map_node(term_at(s1, i + d), ft),
        map_node(term_at(s2, i), ft),
        d,
    );
    let v1 = or_else(map_node(vec_at(s1, i + d), fv), t1);
    let v2 = or_else(map_node(vec_at(s2, i), fv), t2);
    lemma_or_else_shift(map_node(vec_at(s1, i + d), fv), map_node(vec_at(s2, i), fv), t1, t2, d);
    let b1 = or_else(map_node(braced_vec_at(s1, i + d), fb), v1);
    let b2 = or_else(map_node(braced_vec_at(s2, i), fb), v2);
    lemma_or_else_shift(
        map_node(braced_vec_at(s1, i + d), fb),
        map_node(braced_vec_at(s2, i), fb),
        v1,
        v2,
        d,
    );
    let a1 = or_else(map_node(arrow_at(s1, i + d), fa), b1);
    let a2 = or_else(map_node(arrow_at(s2, i), fa), b2);
    lemma_or_else_shift(map_node(arrow_at(s1, i + d), fa), map_node(arrow_at(s2, i), fa), b1, b2, d);
    lemma_or_else_shift(map_node(record_at(s1, i + d), fr), map_node(record_at(s2, i), fr), a1, a2, d);
}

/// How an occurrence is classified depends on its own text alone: wherever
/// the same text stands, after whatever came before it (another block, a
/// differently-cased use of the same name), the symbol read there is the
/// same and ends at the same place relative to its start.
pub proof fn lemma_symbol_is_local(s1: Seq<char>, i1: int, s2: Seq<char>, i2: int)
    requires
        0 <= i1 <= s1.len(),
        0 <= i2 <= s2.len(),
        s1.skip(i1) == s2.skip(i2),
    ensures
        shifted(symbol_at(s1, i1), symbol_at(s2, i2), i1 - i2),
{
    let d = i1 - i2;
    lemma_tails_agree_from_skip(s1, i1, s2, i2);
    lemma_symbol_shift(s1, s2, d, i2);
}

} // verus!
