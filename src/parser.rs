use vstd::prelude::*;
use vstd::std_specs::iter::IteratorSpec;
use vstd::string::{StrSliceExecFns, StringExecFns};

use crate::{agrees, delivers, PResult, ParseError};

verus! {

// Character classes of the notation.
pub open spec fn is_alnum(c: char) -> bool {
    ('a' <= c && c <= 'z') || ('A' <= c && c <= 'Z') || ('0' <= c && c <= '9')
}

/// Characters that may stand in a literal argument.
pub open spec fn is_text_char(c: char) -> bool {
    is_alnum(c) || c == '.' || c == '/' || c == '-' || c == '#' || c == ' '
}

pub open spec fn is_space(c: char) -> bool {
    c == ' ' || c == '\t' || c == '\n' || c == '\r'
}

pub open spec fn char_at(s: Seq<char>, i: int, c: char) -> bool {
    0 <= i < s.len() && s[i] == c
}

/// Length of the separator token at `i`, 0 when none starts there: a blank,
/// `&`, `~`, the two-character escapes `\\`, `\ `, `\,`, `\:`, `\;`, `\!`,
/// and the spacing commands `\quad` and `\qquad`.
pub open spec fn sep_len(s: Seq<char>, i: int) -> int {
    if 0 <= i < s.len() && (is_space(s[i]) || s[i] == '&' || s[i] == '~') {
        1
    } else if char_at(s, i, '\\') && (char_at(s, i + 1, '\\') || char_at(s, i + 1, ' ')
        || char_at(s, i + 1, ',') || char_at(s, i + 1, ':') || char_at(s, i + 1, ';')
        || char_at(s, i + 1, '!')) {
        2
    } else if char_at(s, i, '\\') && char_at(s, i + 1, 'q') && char_at(s, i + 2, 'u')
        && char_at(s, i + 3, 'a') && char_at(s, i + 4, 'd') {
        5
    } else if char_at(s, i, '\\') && char_at(s, i + 1, 'q') && char_at(s, i + 2, 'q')
        && char_at(s, i + 3, 'u') && char_at(s, i + 4, 'a') && char_at(s, i + 5, 'd') {
        6
    } else {
        0
    }
}

/// Position after the longest run of separator tokens starting at `i`.
pub open spec fn skip_seps(s: Seq<char>, i: int) -> int
    decreases s.len() - i,
{
    if sep_len(s, i) > 0 {
        skip_seps(s, i + sep_len(s, i))
    } else {
        i
    }
}

/// Position after the longest run of alphanumeric characters starting at `i`.
pub open spec fn alnum_end(s: Seq<char>, i: int) -> int
    decreases s.len() - i,
{
    if 0 <= i < s.len() && is_alnum(s[i]) {
        alnum_end(s, i + 1)
    } else {
        i
    }
}

/// Position after the longest run of literal characters starting at `i`.
pub open spec fn text_end(s: Seq<char>, i: int) -> int
    decreases s.len() - i,
{
    if 0 <= i < s.len() && is_text_char(s[i]) {
        text_end(s, i + 1)
    } else {
        i
    }
}

/// A comma-separated list of identifiers starting at `i`: its end and items.
pub open spec fn ident_list(s: Seq<char>, i: int) -> (int, Seq<Seq<char>>)
    decreases s.len() - i,
{
    let e = alnum_end(s, i);
    if i < e && char_at(s, e, ',') && e + 1 < alnum_end(s, e + 1) {
        let (k, rest) = ident_list(s, e + 1);
        (k, seq![s.subrange(i, e)] + rest)
    } else {
        (e, seq![s.subrange(i, e)])
    }
}

/// The optional parameter list `[a,b,...]` at `j`; absent means empty.
pub open spec fn params_at(s: Seq<char>, j: int) -> (int, Seq<Seq<char>>) {
    let (k, ids) = ident_list(s, j + 1);
    if char_at(s, j, '[') && j + 1 < alnum_end(s, j + 1) && char_at(s, k, ']') {
        (k + 1, ids)
    } else {
        (j, seq![])
    }
}

/// A command head: a backslash, a non-empty alphanumeric name, parameters.
pub open spec fn head_at(s: Seq<char>, i: int) -> Result<
    (int, (Seq<char>, Seq<Seq<char>>)),
    ParseError,
> {
    if !char_at(s, i, '\\') {
        Err(ParseError::Mismatch(i as usize))
    } else if alnum_end(s, i + 1) <= i + 1 {
        Err(ParseError::Mismatch((i + 1) as usize))
    } else {
        let e = alnum_end(s, i + 1);
        Ok((params_at(s, e).0, (s.subrange(i + 1, e), params_at(s, e).1)))
    }
}

/// A literal argument body: runs of literal characters and balanced braced
/// sub-literals, their contents joined flat; possibly empty. It ends before
/// any other character, and before a brace that is not closed.
pub open spec fn text_at(s: Seq<char>, i: int) -> (int, Seq<char>)
    decreases s.len() - i,
{
    if char_at(s, i, '{') {
        let (e, t) = text_at(s, i + 1);
        if i < e && char_at(s, e, '}') {
            let (f, u) = text_at(s, e + 1);
            (f, t + u)
        } else {
            (i, seq![])
        }
    } else {
        proof {
            if 0 <= i <= s.len() {
                lemma_text_end_bounds(s, i);
            }
        }
        let e = text_end(s, i);
        if i < e && e <= s.len() {
            let (f, u) = text_at(s, e);
            (f, s.subrange(i, e) + u)
        } else {
            (i, seq![])
        }
    }
}

/// The optional repetition suffix at `i`.
pub open spec fn seq_kind_at(s: Seq<char>, i: int) -> (int, Option<SeqKind>) {
    if char_at(s, i, '^') && char_at(s, i + 1, '?') {
        (i + 2, Some(SeqKind::OptSeq))
    } else if char_at(s, i, '^') && char_at(s, i + 1, 'n') {
        (i + 2, Some(SeqKind::ManyN))
    } else if char_at(s, i, '^') && char_at(s, i + 1, '+') {
        (i + 2, Some(SeqKind::ManyNonEmpty))
    } else if char_at(s, i, '^') && char_at(s, i + 1, '\\') && char_at(s, i + 2, 'a')
        && char_at(s, i + 3, 's') && char_at(s, i + 4, 't') {
        (i + 5, Some(SeqKind::ManyPossibleEmpty))
    } else {
        (i, None)
    }
}

/// `::=` followed by separators.
pub open spec fn equal_at(s: Seq<char>, i: int) -> Result<(int, ()), ParseError> {
    if char_at(s, i, ':') && char_at(s, i + 1, ':') && char_at(s, i + 2, '=') {
        Ok((skip_seps(s, i + 3), ()))
    } else {
        Err(ParseError::Mismatch(i as usize))
    }
}

/// A whole command: head, braced arguments, repetition suffix, separators.
pub open spec fn command_at(s: Seq<char>, i: int) -> Result<(int, CommandModel), ParseError>
    decreases s.len() - i, 2int,
{
    match head_at(s, i) {
        Err(e) => Err(e),
        Ok((j, (name, params))) => {
            proof {
                lemma_head_bounds(s, i);
            }
            let (k, args) = arguments_at(s, j);
            let (m, upnote) = seq_kind_at(s, k);
            Ok((skip_seps(s, m), CommandModel { name, params, args, upnote }))
        },
    }
}

/// The longest run of braced arguments starting at `j`.
pub open spec fn arguments_at(s: Seq<char>, j: int) -> (int, Seq<ArgumentModel>)
    decreases s.len() - j, 1int,
{
    match argument_at(s, j) {
        Ok((k, a)) => if j < k <= s.len() {
            let (e, rest) = arguments_at(s, k);
            (e, seq![a] + rest)
        } else {
            (j, seq![])
        },
        Err(_) => (j, seq![]),
    }
}

/// One braced argument: a nested command if one parses after the brace,
/// else a literal; then the closing brace.
pub open spec fn argument_at(s: Seq<char>, j: int) -> Result<(int, ArgumentModel), ParseError>
    decreases s.len() - j, 0int,
{
    if !char_at(s, j, '{') {
        Err(ParseError::Mismatch(j as usize))
    } else {
        let inner = match command_at(s, j + 1) {
            Ok((k, c)) => (k, ArgumentModel::Cmd(c)),
            Err(_) => (text_at(s, j + 1).0, ArgumentModel::Str(text_at(s, j + 1).1)),
        };
        if char_at(s, inner.0, '}') {
            Ok((inner.0 + 1, inner.1))
        } else {
            Err(ParseError::Mismatch(inner.0 as usize))
        }
    }
}

pub proof fn lemma_alnum_end_bounds(s: Seq<char>, i: int)
    requires
        0 <= i <= s.len(),
    ensures
        i <= alnum_end(s, i) <= s.len(),
    decreases s.len() - i,
{
    if i < s.len() && is_alnum(s[i]) {
        lemma_alnum_end_bounds(s, i + 1);
    }
}

pub proof fn lemma_ident_list_bounds(s: Seq<char>, i: int)
    requires
        0 <= i <= s.len(),
    ensures
        i <= ident_list(s, i).0 <= s.len(),
    decreases s.len() - i,
{
    lemma_alnum_end_bounds(s, i);
    let e = alnum_end(s, i);
    if i < e && char_at(s, e, ',') && e + 1 < alnum_end(s, e + 1) {
        lemma_ident_list_bounds(s, e + 1);
    }
}

pub proof fn lemma_head_bounds(s: Seq<char>, i: int)
    requires
        head_at(s, i) is Ok,
    ensures
        i + 2 <= head_at(s, i)->Ok_0.0 <= s.len(),
{
    lemma_alnum_end_bounds(s, i + 1);
    let e = alnum_end(s, i + 1);
    if e + 1 <= s.len() {
        lemma_alnum_end_bounds(s, e + 1);
        lemma_ident_list_bounds(s, e + 1);
    }
}

pub proof fn lemma_skip_seps_bounds(s: Seq<char>, i: int)
    requires
        0 <= i <= s.len(),
    ensures
        i <= skip_seps(s, i) <= s.len(),
    decreases s.len() - i,
{
    if sep_len(s, i) > 0 {
        lemma_skip_seps_bounds(s, i + sep_len(s, i));
    }
}

/// Where separator skipping stops, no separator starts.
pub proof fn lemma_skip_seps_stops(s: Seq<char>, i: int)
    requires
        0 <= i <= s.len(),
    ensures
        sep_len(s, skip_seps(s, i)) == 0,
    decreases s.len() - i,
{
    if sep_len(s, i) > 0 {
        lemma_skip_seps_stops(s, i + sep_len(s, i));
    }
}

/// Skipping separators is idempotent: on the remainder that one skip leaves,
/// a second skip consumes nothing.
pub proof fn lemma_ws_idempotent(s: Seq<char>)
    ensures
        skip_seps(s.skip(skip_seps(s, 0)), 0) == 0,
{
    lemma_skip_seps_bounds(s, 0);
    lemma_skip_seps_stops(s, 0);
    let j = skip_seps(s, 0);
    let t = s.skip(j);
    assert forall|k: int, c: char| 0 <= k implies #[trigger] char_at(t, k, c) == char_at(s, j + k, c) by {
        if 0 <= k < t.len() {
            assert(t[k] == s[j + k]);
        }
    }
    assert(sep_len(t, 0) == sep_len(s, j));
}

pub proof fn lemma_arguments_bounds(s: Seq<char>, j: int)
    requires
        0 <= j <= s.len(),
    ensures
        j <= arguments_at(s, j).0 <= s.len(),
    decreases s.len() - j,
{
    if let Ok((k, _)) = argument_at(s, j) {
        if j < k <= s.len() {
            lemma_arguments_bounds(s, k);
        }
    }
}

/// A command that parses consumes input and stays within the text; one that
/// fails is refused at its backslash or right after it.
pub proof fn lemma_command_bounds(s: Seq<char>, i: int)
    ensures
        command_at(s, i) is Ok ==> i < command_at(s, i)->Ok_0.0 <= s.len(),
        command_at(s, i) is Ok ==> command_at(s, i)->Ok_0.1.name.len() > 0,
        command_at(s, i) is Err ==> command_at(s, i) == Err::<(int, CommandModel), ParseError>(
            ParseError::Mismatch(i as usize),
        ) || command_at(s, i) == Err::<(int, CommandModel), ParseError>(
            ParseError::Mismatch((i + 1) as usize),
        ),
{
    if head_at(s, i) is Ok {
        lemma_head_bounds(s, i);
        lemma_alnum_end_bounds(s, i + 1);
        let j = head_at(s, i)->Ok_0.0;
        lemma_arguments_bounds(s, j);
        let k = arguments_at(s, j).0;
        let m = seq_kind_at(s, k).0;
        lemma_skip_seps_bounds(s, m);
    }
}

/// From position `i` of `s2` on, `s1` holds the same characters `d`
/// positions later, up to the end of both texts.
pub open spec fn tails_agree(s1: Seq<char>, s2: Seq<char>, d: int, i: int) -> bool {
    &&& 0 <= i <= s2.len()
    &&& 0 <= i + d
    &&& s1.len() == s2.len() + d
    &&& forall|j: int| i <= j < s2.len() ==> #[trigger] s1[j + d] == s2[j]
}

/// Two outcomes agree up to an offset `d` of their end positions; failures
/// agree in whether they are fatal.
pub open spec fn shifted<M>(
    r1: Result<(int, M), ParseError>,
    r2: Result<(int, M), ParseError>,
    d: int,
) -> bool {
    match (r1, r2) {
        (Ok((j1, m1)), Ok((j2, m2))) => j1 == j2 + d && m1 == m2,
        (Err(e1), Err(e2)) => e1.is_fatal() == e2.is_fatal(),
        _ => false,
    }
}

/// Texts that are equal from `i1` and from `i2` on agree from `i2` on with
/// the offset `i1 - i2`.
pub proof fn lemma_tails_agree_from_skip(s1: Seq<char>, i1: int, s2: Seq<char>, i2: int)
    requires
        0 <= i1 <= s1.len(),
        0 <= i2 <= s2.len(),
        s1.skip(i1) == s2.skip(i2),
    ensures
        tails_agree(s1, s2, i1 - i2, i2),
{
    let d = i1 - i2;
    assert(s1.len() == s2.len() + d) by {
        assert(s1.skip(i1).len() == s2.skip(i2).len());
        assert(s1.skip(i1).len() == s1.len() - i1);
        assert(s2.skip(i2).len() == s2.len() - i2);
    }
    assert forall|j: int| i2 <= j < s2.len() implies #[trigger] s1[j + d] == s2[j] by {
        assert(s1.skip(i1)[j - i2] == s2.skip(i2)[j - i2]);
        assert(s1.skip(i1)[j - i2] == s1[j + d]);
        assert(s2.skip(i2)[j - i2] == s2[j]);
    }
}

pub proof fn lemma_equal_shift(s1: Seq<char>, s2: Seq<char>, d: int, i: int)
    requires
        tails_agree(s1, s2, d, i),
    ensures
        shifted(equal_at(s1, i + d), equal_at(s2, i), d),
{
    lemma_char_at_shift(s1, s2, d, i);
    assert(char_at(s2, i, ':') == char_at(s1, i + d, ':'));
    assert(char_at(s2, i + 1, ':') == char_at(s1, i + 1 + d, ':'));
    assert(char_at(s2, i + 2, '=') == char_at(s1, i + 2 + d, '='));
    if equal_at(s2, i) is Ok {
        lemma_skip_seps_shift(s1, s2, d, i + 3);
    }
}

pub proof fn lemma_char_at_shift(s1: Seq<char>, s2: Seq<char>, d: int, i: int)
    requires
        tails_agree(s1, s2, d, i),
    ensures
        forall|j: int, c: char| i <= j ==> #[trigger] char_at(s2, j, c) == char_at(s1, j + d, c),
{
    assert forall|j: int, c: char| i <= j implies #[trigger] char_at(s2, j, c) == char_at(
        s1,
        j + d,
        c,
    ) by {
        if j < s2.len() {
            assert(s1[j + d] == s2[j]);
        }
    }
}

pub proof fn lemma_subrange_shift(s1: Seq<char>, s2: Seq<char>, d: int, i: int, a: int, b: int)
    requires
        tails_agree(s1, s2, d, i),
        i <= a <= b <= s2.len(),
    ensures
        s1.subrange(a + d, b + d) == s2.subrange(a, b),
{
    assert forall|k: int| 0 <= k < b - a implies s1.subrange(a + d, b + d)[k] == s2.subrange(
        a,
        b,
    )[k] by {
        assert(s1[(a + k) + d] == s2[a + k]);
    }
    assert(s1.subrange(a + d, b + d) =~= s2.subrange(a, b));
}

pub proof fn lemma_sep_len_shift(s1: Seq<char>, s2: Seq<char>, d: int, i: int)
    requires
        tails_agree(s1, s2, d, i),
    ensures
        sep_len(s1, i + d) == sep_len(s2, i),
{
    lemma_char_at_shift(s1, s2, d, i);
    assert(char_at(s2, i, '\\') == char_at(s1, i + d, '\\'));
    assert(char_at(s2, i + 1, 'q') == char_at(s1, i + 1 + d, 'q'));
    if i < s2.len() {
        assert(s1[i + d] == s2[i]);
    }
}

pub proof fn lemma_skip_seps_shift(s1: Seq<char>, s2: Seq<char>, d: int, i: int)
    requires
        tails_agree(s1, s2, d, i),
    ensures
        skip_seps(s1, i + d) == skip_seps(s2, i) + d,
    decreases s2.len() - i,
{
    lemma_sep_len_shift(s1, s2, d, i);
    if sep_len(s2, i) > 0 {
        lemma_skip_seps_shift(s1, s2, d, i + sep_len(s2, i));
    }
}

pub proof fn lemma_alnum_end_shift(s1: Seq<char>, s2: Seq<char>, d: int, i: int)
    requires
        tails_agree(s1, s2, d, i),
    ensures
        alnum_end(s1, i + d) == alnum_end(s2, i) + d,
    decreases s2.len() - i,
{
    if i < s2.len() {
        assert(s1[i + d] == s2[i]);
        if is_alnum(s2[i]) {
            lemma_alnum_end_shift(s1, s2, d, i + 1);
        }
    }
}

pub proof fn lemma_text_end_shift(s1: Seq<char>, s2: Seq<char>, d: int, i: int)
    requires
        tails_agree(s1, s2, d, i),
    ensures
        text_end(s1, i + d) == text_end(s2, i) + d,
    decreases s2.len() - i,
{
    if i < s2.len() {
        assert(s1[i + d] == s2[i]);
        if is_text_char(s2[i]) {
            lemma_text_end_shift(s1, s2, d, i + 1);
        }
    }
}

pub proof fn lemma_ident_list_shift(s1: Seq<char>, s2: Seq<char>, d: int, i: int)
    requires
        tails_agree(s1, s2, d, i),
    ensures
        ident_list(s1, i + d) == (ident_list(s2, i).0 + d, ident_list(s2, i).1),
    decreases s2.len() - i,
{
    lemma_char_at_shift(s1, s2, d, i);
    lemma_alnum_end_shift(s1, s2, d, i);
    lemma_alnum_end_bounds(s2, i);
    let e = alnum_end(s2, i);
    lemma_subrange_shift(s1, s2, d, i, i, e);
    assert(char_at(s2, e, ',') == char_at(s1, e + d, ','));
    if i < e && char_at(s2, e, ',') {
        lemma_alnum_end_shift(s1, s2, d, e + 1);
        if e + 1 < alnum_end(s2, e + 1) {
            lemma_ident_list_shift(s1, s2, d, e + 1);
        }
    }
}

pub proof fn lemma_head_shift(s1: Seq<char>, s2: Seq<char>, d: int, i: int)
    requires
        tails_agree(s1, s2, d, i),
    ensures
        shifted(head_at(s1, i + d), head_at(s2, i), d),
{
    lemma_char_at_shift(s1, s2, d, i);
    assert(char_at(s2, i, '\\') == char_at(s1, i + d, '\\'));
    if char_at(s2, i, '\\') {
        lemma_alnum_end_shift(s1, s2, d, i + 1);
        lemma_alnum_end_bounds(s2, i + 1);
        let e = alnum_end(s2, i + 1);
        lemma_subrange_shift(s1, s2, d, i, i + 1, e);
        assert(char_at(s2, e, '[') == char_at(s1, e + d, '['));
        if e + 1 <= s2.len() {
            lemma_alnum_end_shift(s1, s2, d, e + 1);
            lemma_ident_list_shift(s1, s2, d, e + 1);
            lemma_ident_list_bounds(s2, e + 1);
            let k = ident_list(s2, e + 1).0;
            assert(char_at(s2, k, ']') == char_at(s1, k + d, ']'));
        }
    }
}

pub proof fn lemma_text_shift(s1: Seq<char>, s2: Seq<char>, d: int, i: int)
    requires
        tails_agree(s1, s2, d, i),
    ensures
        text_at(s1, i + d) == (text_at(s2, i).0 + d, text_at(s2, i).1),
    decreases s2.len() - i,
{
    lemma_char_at_shift(s1, s2, d, i);
    assert(char_at(s2, i, '{') == char_at(s1, i + d, '{'));
    if char_at(s2, i, '{') {
        lemma_text_shift(s1, s2, d, i + 1);
        lemma_text_bounds(s2, i + 1);
        let e = text_at(s2, i + 1).0;
        assert(char_at(s2, e, '}') == char_at(s1, e + d, '}'));
        if i < e && char_at(s2, e, '}') {
            lemma_text_shift(s1, s2, d, e + 1);
        }
    } else {
        lemma_text_end_shift(s1, s2, d, i);
        lemma_text_end_bounds(s2, i);
        let e = text_end(s2, i);
        lemma_subrange_shift(s1, s2, d, i, i, e);
        if i < e {
            lemma_text_shift(s1, s2, d, e);
        }
    }
}

pub proof fn lemma_text_bounds(s: Seq<char>, i: int)
    requires
        0 <= i <= s.len(),
    ensures
        i <= text_at(s, i).0 <= s.len(),
    decreases s.len() - i,
{
    if char_at(s, i, '{') {
        lemma_text_bounds(s, i + 1);
        let e = text_at(s, i + 1).0;
        if i < e && char_at(s, e, '}') {
            lemma_text_bounds(s, e + 1);
        }
    } else {
        lemma_text_end_bounds(s, i);
        let e = text_end(s, i);
        if i < e {
            lemma_text_bounds(s, e);
        }
    }
}

pub proof fn lemma_text_end_bounds(s: Seq<char>, i: int)
    requires
        0 <= i <= s.len(),
    ensures
        i <= text_end(s, i) <= s.len(),
    decreases s.len() - i,
{
    if i < s.len() && is_text_char(s[i]) {
        lemma_text_end_bounds(s, i + 1);
    }
}

pub proof fn lemma_seq_kind_shift(s1: Seq<char>, s2: Seq<char>, d: int, i: int)
    requires
        tails_agree(s1, s2, d, i),
    ensures
        seq_kind_at(s1, i + d) == (seq_kind_at(s2, i).0 + d, seq_kind_at(s2, i).1),
{
    lemma_char_at_shift(s1, s2, d, i);
    assert(char_at(s2, i, '^') == char_at(s1, i + d, '^'));
    assert(char_at(s2, i + 1, '?') == char_at(s1, i + 1 + d, '?'));
    assert(char_at(s2, i + 1, 'n') == char_at(s1, i + 1 + d, 'n'));
    assert(char_at(s2, i + 1, '+') == char_at(s1, i + 1 + d, '+'));
    assert(char_at(s2, i + 1, '\\') == char_at(s1, i + 1 + d, '\\'));
    assert(char_at(s2, i + 2, 'a') == char_at(s1, i + 2 + d, 'a'));
    assert(char_at(s2, i + 3, 's') == char_at(s1, i + 3 + d, 's'));
    assert(char_at(s2, i + 4, 't') == char_at(s1, i + 4 + d, 't'));
}

pub proof fn lemma_command_shift(s1: Seq<char>, s2: Seq<char>, d: int, i: int)
    requires
        tails_agree(s1, s2, d, i),
    ensures
        shifted(command_at(s1, i + d), command_at(s2, i), d),
    decreases s2.len() - i, 2int,
{
    lemma_head_shift(s1, s2, d, i);
    if let Ok((j, _)) = head_at(s2, i) {
        lemma_head_bounds(s2, i);
        lemma_arguments_shift(s1, s2, d, j);
        lemma_arguments_bounds(s2, j);
        let k = arguments_at(s2, j).0;
        lemma_seq_kind_shift(s1, s2, d, k);
        let m = seq_kind_at(s2, k).0;
        lemma_skip_seps_shift(s1, s2, d, m);
    }
}

pub proof fn lemma_arguments_shift(s1: Seq<char>, s2: Seq<char>, d: int, j: int)
    requires
        tails_agree(s1, s2, d, j),
    ensures
        arguments_at(s1, j + d) == (arguments_at(s2, j).0 + d, arguments_at(s2, j).1),
    decreases s2.len() - j, 1int,
{
    lemma_argument_shift(s1, s2, d, j);
    if let Ok((k, _)) = argument_at(s2, j) {
        if j < k <= s2.len() {
            lemma_arguments_shift(s1, s2, d, k);
        }
    }
}

pub proof fn lemma_argument_shift(s1: Seq<char>, s2: Seq<char>, d: int, j: int)
    requires
        tails_agree(s1, s2, d, j),
    ensures
        shifted(argument_at(s1, j + d), argument_at(s2, j), d),
    decreases s2.len() - j, 0int,
{
    lemma_char_at_shift(s1, s2, d, j);
    assert(char_at(s2, j, '{') == char_at(s1, j + d, '{'));
    if char_at(s2, j, '{') {
        lemma_command_shift(s1, s2, d, j + 1);
        lemma_command_bounds(s2, j + 1);
        lemma_text_shift(s1, s2, d, j + 1);
        lemma_text_bounds(s2, j + 1);
        let e = match command_at(s2, j + 1) {
            Ok((k, _)) => k,
            Err(_) => text_at(s2, j + 1).0,
        };
        assert(char_at(s2, e, '}') == char_at(s1, e + d, '}'));
    }
}

/// A repetition suffix attached to a symbol.
#[derive(Debug, PartialEq, Eq, Structural, Clone, Copy)]
pub enum SeqKind {
    /// `^?`: zero or one.
    OptSeq,
    /// `^\ast`: zero or more.
    ManyPossibleEmpty,
    /// `^n`: exactly a symbolic count.
    ManyN,
    /// `^+`: one or more.
    ManyNonEmpty,
}

/// The name of a command and its optional `[...]` parameters.
#[derive(Debug)]
pub struct CommandHead {
    pub name: String,
    pub params: Vec<String>,
}

/// A backslash command with its braced arguments and repetition suffix.
#[derive(Debug)]
pub struct Command {
    pub head: CommandHead,
    pub args: Vec<Argument>,
    pub upnote: Option<SeqKind>,
}

/// A braced argument: literal text, or a nested command that it owns.
#[derive(Debug)]
pub enum Argument {
    Str(String),
    Cmd(Box<Command>),
}

/// What an argument denotes, as plain values.
pub enum ArgumentModel {
    Str(Seq<char>),
    Cmd(CommandModel),
}

/// What a command denotes, as plain values.
pub struct CommandModel {
    pub name: Seq<char>,
    pub params: Seq<Seq<char>>,
    pub args: Seq<ArgumentModel>,
    pub upnote: Option<SeqKind>,
}

/// The identifying text of an argument: the literal, or the command's name.
pub open spec fn arg_name(a: ArgumentModel) -> Seq<char> {
    match a {
        ArgumentModel::Str(t) => t,
        ArgumentModel::Cmd(c) => c.name,
    }
}

pub open spec fn strings_model(v: Seq<String>) -> Seq<Seq<char>> {
    v.map_values(|p: String| p@)
}

impl CommandHead {
    pub open spec fn model(&self) -> (Seq<char>, Seq<Seq<char>>) {
        (self.name@, strings_model(self.params@))
    }
}

pub open spec fn arguments_model(args: Seq<Argument>) -> Seq<ArgumentModel>
    decreases args,
{
    Seq::new(
        args.len(),
        |k: int|
            if 0 <= k < args.len() {
                args[k].model()
            } else {
                ArgumentModel::Str(Seq::empty())
            },
    )
}

impl Command {
    pub open spec fn model(&self) -> CommandModel
        decreases self,
    {
        CommandModel {
            name: self.head.name@,
            params: strings_model(self.head.params@),
            args: arguments_model(self.args@),
            upnote: self.upnote,
        }
    }
}

impl Argument {
    pub open spec fn model(&self) -> ArgumentModel
        decreases self,
    {
        match self {
            Argument::Str(s) => ArgumentModel::Str(s@),
            Argument::Cmd(c) => ArgumentModel::Cmd(c.model()),
        }
    }
}

/// A text together with its characters, for indexed access.
pub struct Source<'a> {
    pub text: &'a str,
    pub chars: Vec<char>,
}

impl<'a> Source<'a> {
    pub open spec fn wf(&self) -> bool {
        &&& self.chars@ == self.text@
        &&& self.text@.len() <= usize::MAX
    }

    pub open spec fn len(&self) -> int {
        self.text@.len() as int
    }

    pub fn new(text: &'a str) -> (r: Self)
        ensures
            r.wf(),
            r.text == text,
    {
        let mut it = text.chars();
        let mut chars: Vec<char> = Vec::new();
        loop
            invariant
                chars@ + it.remaining() == text@,
                it.decrease() is Some,
            ensures
                chars@ == text@,
            decreases it.decrease()->0,
        {
            match it.next() {
                Some(c) => {
                    chars.push(c);
                },
                None => {
                    break ;
                },
            }
        }
        let n = chars.len();
        assert(n == text@.len());
        Source { text, chars }
    }

    /// The text after the first `j` characters.
    pub fn rest(&self, j: usize) -> (r: &'a str)
        requires
            self.wf(),
            j <= self.len(),
        ensures
            r@ == self.text@.skip(j as int),
    {
        self.text.substring_char(j, self.chars.len())
    }

    /// The characters from `a` up to `b`, as a string.
    pub fn slice(&self, a: usize, b: usize) -> (r: String)
        requires
            self.wf(),
            a <= b <= self.len(),
        ensures
            r@ == self.text@.subrange(a as int, b as int),
    {
        self.text.substring_char(a, b).to_owned()
    }

    pub fn has(&self, i: usize, c: char) -> (r: bool)
        requires
            self.wf(),
        ensures
            r == char_at(self.text@, i as int, c),
    {
        i < self.chars.len() && self.chars[i] == c
    }
}

pub fn is_alnum_char(c: char) -> (r: bool)
    ensures
        r == is_alnum(c),
{
    ('a' <= c && c <= 'z') || ('A' <= c && c <= 'Z') || ('0' <= c && c <= '9')
}

pub fn is_text_char_exec(c: char) -> (r: bool)
    ensures
        r == is_text_char(c),
{
    is_alnum_char(c) || c == '.' || c == '/' || c == '-' || c == '#' || c == ' '
}

fn sep_len_at(src: &Source, i: usize) -> (r: usize)
    requires
        src.wf(),
    ensures
        r == sep_len(src.text@, i as int),
        r > 0 ==> i + r <= src.len(),
{
    if i < src.chars.len() && (src.chars[i] == ' ' || src.chars[i] == '\t' || src.chars[i] == '\n'
        || src.chars[i] == '\r' || src.chars[i] == '&' || src.chars[i] == '~') {
        1
    } else if src.has(i, '\\') && (src.has(i + 1, '\\') || src.has(i + 1, ' ') || src.has(
        i + 1,
        ',',
    ) || src.has(i + 1, ':') || src.has(i + 1, ';') || src.has(i + 1, '!')) {
        2
    } else if src.has(i, '\\') && src.has(i + 1, 'q') && src.has(i + 2, 'u') && src.has(i + 3, 'a')
        && src.has(i + 4, 'd') {
        5
    } else if src.has(i, '\\') && src.has(i + 1, 'q') && src.has(i + 2, 'q') && src.has(i + 3, 'u')
        && src.has(i + 4, 'a') && src.has(i + 5, 'd') {
        6
    } else {
        0
    }
}

fn alnum_end_at(src: &Source, i: usize) -> (r: usize)
    requires
        src.wf(),
        i <= src.len(),
    ensures
        r == alnum_end(src.text@, i as int),
        i <= r <= src.len(),
{
    let mut k = i;
    while k < src.chars.len() && is_alnum_char(src.chars[k])
        invariant
            src.wf(),
            i <= k <= src.len(),
            alnum_end(src.text@, k as int) == alnum_end(src.text@, i as int),
        decreases src.len() - k,
    {
        k += 1;
    }
    k
}

fn text_end_at(src: &Source, i: usize) -> (r: usize)
    requires
        src.wf(),
        i <= src.len(),
    ensures
        r == text_end(src.text@, i as int),
        i <= r <= src.len(),
{
    let mut k = i;
    while k < src.chars.len() && is_text_char_exec(src.chars[k])
        invariant
            src.wf(),
            i <= k <= src.len(),
            text_end(src.text@, k as int) == text_end(src.text@, i as int),
        decreases src.len() - k,
    {
        k += 1;
    }
    k
}

fn ident_list_at(src: &Source, i: usize) -> (r: (usize, Vec<String>))
    requires
        src.wf(),
        i <= src.len(),
    ensures
        r.0 == ident_list(src.text@, i as int).0,
        strings_model(r.1@) == ident_list(src.text@, i as int).1,
        i <= r.0 <= src.len(),
{
    let ghost s = src.text@;
    let mut ids: Vec<String> = Vec::new();
    let mut k = i;
    loop
        invariant
            src.wf(),
            s == src.text@,
            i <= k <= src.len(),
            ident_list(s, i as int) == (
                ident_list(s, k as int).0,
                strings_model(ids@) + ident_list(s, k as int).1,
            ),
        decreases src.len() - k,
    {
        let e = alnum_end_at(src, k);
        let id = src.slice(k, e);
        let ghost before = ids@;
        ids.push(id);
        assert(strings_model(ids@) =~= strings_model(before) + seq![s.subrange(k as int, e as int)]);
        if k < e && src.has(e, ',') && e + 1 < alnum_end_at(src, e + 1) {
            let ghost (k2, rest) = ident_list(s, e + 1);
            assert(strings_model(before) + (seq![s.subrange(k as int, e as int)] + rest)
                =~= strings_model(ids@) + rest);
            k = e + 1;
        } else {
            assert(strings_model(ids@) =~= strings_model(before) + ident_list(s, k as int).1);
            return (e, ids);
        }
    }
}

impl SeqKind {
    /// The optional repetition suffix at `i`.
    pub fn parser(src: &Source, i: usize) -> (r: (usize, Option<SeqKind>))
        requires
            src.wf(),
            i <= src.len(),
        ensures
            r == (seq_kind_at(src.text@, i as int).0 as usize, seq_kind_at(src.text@, i as int).1),
            i <= r.0 <= src.len(),
    {
        if src.has(i, '^') && src.has(i + 1, '?') {
            (i + 2, Some(SeqKind::OptSeq))
        } else if src.has(i, '^') && src.has(i + 1, 'n') {
            (i + 2, Some(SeqKind::ManyN))
        } else if src.has(i, '^') && src.has(i + 1, '+') {
            (i + 2, Some(SeqKind::ManyNonEmpty))
        } else if src.has(i, '^') && src.has(i + 1, '\\') && src.has(i + 2, 'a') && src.has(
            i + 3,
            's',
        ) && src.has(i + 4, 't') {
            (i + 5, Some(SeqKind::ManyPossibleEmpty))
        } else {
            (i, None)
        }
    }
}

/// Separator tokens and the `::=` token.
pub struct Token;

impl Token {
    /// Skips the longest run of separators starting at `i`.
    pub fn skip_at(src: &Source, i: usize) -> (r: usize)
        requires
            src.wf(),
            i <= src.len(),
        ensures
            r == skip_seps(src.text@, i as int),
            i <= r <= src.len(),
    {
        let mut k = i;
        loop
            invariant
                src.wf(),
                i <= k <= src.len(),
                skip_seps(src.text@, k as int) == skip_seps(src.text@, i as int),
            decreases src.len() - k,
        {
            let l = sep_len_at(src, k);
            if l == 0 {
                return k;
            }
            k = k + l;
        }
    }

    /// `::=` and the separators after it, at `i`.
    pub fn equal_at(src: &Source, i: usize) -> (r: Result<(usize, ()), ParseError>)
        requires
            src.wf(),
            i <= src.len(),
        ensures
            agrees(r, equal_at(src.text@, i as int), |u: ()| u),
            r is Ok ==> i < r->Ok_0.0 <= src.len(),
    {
        if src.has(i, ':') && src.has(i + 1, ':') && src.has(i + 2, '=') {
            Ok((Self::skip_at(src, i + 3), ()))
        } else {
            Err(ParseError::Mismatch(i))
        }
    }

    /// Consumes `::=` and the separators after it.
    pub fn equal(input: &str) -> (r: PResult<'_, ()>)
        ensures
            delivers(input@, r, equal_at(input@, 0), |u: ()| u),
    {
        let src = Source::new(input);
        match Self::equal_at(&src, 0) {
            Ok((j, u)) => Ok((src.rest(j), u)),
            Err(e) => Err(e),
        }
    }

    /// Consumes the longest run of separators; never fails.
    pub fn ws(input: &str) -> (r: PResult<'_, ()>)
        ensures
            r is Ok,
            delivers(input@, r, Ok::<(int, ()), ParseError>((skip_seps(input@, 0), ())), |u: ()| u),
    {
        let src = Source::new(input);
        let j = Self::skip_at(&src, 0);
        Ok((src.rest(j), ()))
    }
}

impl CommandHead {
    /// A backslash, a non-empty alphanumeric name, and an optional
    /// parameter list, at `i`.
    pub fn parse_at(src: &Source, i: usize) -> (r: Result<(usize, CommandHead), ParseError>)
        requires
            src.wf(),
            i <= src.len(),
        ensures
            agrees(r, head_at(src.text@, i as int), |h: CommandHead| h.model()),
            r is Ok ==> i + 2 <= r->Ok_0.0 <= src.len(),
    {
        if !src.has(i, '\\') {
            return Err(ParseError::Mismatch(i));
        }
        let e = alnum_end_at(src, i + 1);
        if e <= i + 1 {
            return Err(ParseError::Mismatch(i + 1));
        }
        let name = src.slice(i + 1, e);
        let mut params: Vec<String> = Vec::new();
        let mut end = e;
        if src.has(e, '[') && e + 1 < alnum_end_at(src, e + 1) {
            let (k, ids) = ident_list_at(src, e + 1);
            if src.has(k, ']') {
                params = ids;
                end = k + 1;
            }
        }
        assert(strings_model(params@) =~= params_at(src.text@, e as int).1);
        Ok((end, CommandHead { name, params }))
    }

    pub fn parser(input: &str) -> (r: PResult<'_, CommandHead>)
        ensures
            delivers(input@, r, head_at(input@, 0), |h: CommandHead| h.model()),
    {
        let src = Source::new(input);
        match Self::parse_at(&src, 0) {
            Ok((j, h)) => Ok((src.rest(j), h)),
            Err(e) => Err(e),
        }
    }
}

impl Command {
    /// A whole command at `i`: head, braced arguments, repetition suffix and
    /// the separators after it.
    pub fn parse_at(src: &Source, i: usize) -> (r: Result<(usize, Command), ParseError>)
        requires
            src.wf(),
            i <= src.len(),
        ensures
            agrees(r, command_at(src.text@, i as int), |c: Command| c.model()),
            r is Ok ==> i < r->Ok_0.0 <= src.len(),
        decreases src.len() - i, 1int,
    {
        let ghost s = src.text@;
        let (j, head) = match CommandHead::parse_at(src, i) {
            Ok(x) => x,
            Err(e) => return Err(e),
        };
        let mut args: Vec<Argument> = Vec::new();
        let mut k = j;
        loop
            invariant
                src.wf(),
                s == src.text@,
                i < j <= k <= src.len(),
                arguments_at(s, j as int) == (
                    arguments_at(s, k as int).0,
                    arguments_model(args@) + arguments_at(s, k as int).1,
                ),
            ensures
                arguments_at(s, k as int) == (k as int, Seq::<ArgumentModel>::empty()),
            decreases src.len() - k,
        {
            match Argument::parse_at(src, k) {
                Ok((k2, a)) => {
                    let ghost before = args@;
                    let ghost rest = arguments_at(s, k2 as int).1;
                    args.push(a);
                    assert(arguments_model(args@) =~= arguments_model(before) + seq![a.model()]);
                    assert(arguments_model(before) + (seq![a.model()] + rest) =~= arguments_model(
                        args@,
                    ) + rest);
                    k = k2;
                },
                Err(_) => {
                    break ;
                },
            }
        }
        assert(arguments_model(args@) =~= arguments_model(args@) + arguments_at(s, k as int).1);
        let (m, upnote) = SeqKind::parser(src, k);
        let end = Token::skip_at(src, m);
        Ok((end, Command { head, args, upnote }))
    }

    pub fn parser(input: &str) -> (r: PResult<'_, Command>)
        ensures
            delivers(input@, r, command_at(input@, 0), |c: Command| c.model()),
    {
        let src = Source::new(input);
        match Self::parse_at(&src, 0) {
            Ok((j, c)) => Ok((src.rest(j), c)),
            Err(e) => Err(e),
        }
    }
}

impl Argument {
    /// One braced argument at `j`.
    pub fn parse_at(src: &Source, j: usize) -> (r: Result<(usize, Argument), ParseError>)
        requires
            src.wf(),
            j <= src.len(),
        ensures
            agrees(r, argument_at(src.text@, j as int), |a: Argument| a.model()),
            r is Ok ==> j < r->Ok_0.0 <= src.len(),
        decreases src.len() - j, 0int,
    {
        if !src.has(j, '{') {
            return Err(ParseError::Mismatch(j));
        }
        let (k, arg) = match Command::parse_at(src, j + 1) {
            Ok((k, c)) => (k, Argument::Cmd(Box::new(c))),
            Err(_) => {
                let (k, t) = Self::str_parser_inner(src, j + 1);
                (k, Argument::Str(t))
            },
        };
        if src.has(k, '}') {
            Ok((k + 1, arg))
        } else {
            Err(ParseError::Mismatch(k))
        }
    }

    /// A literal argument body at `i`.
    pub fn str_parser_inner(src: &Source, i: usize) -> (r: (usize, String))
        requires
            src.wf(),
            i <= src.len(),
        ensures
            r.0 == text_at(src.text@, i as int).0,
            r.1@ == text_at(src.text@, i as int).1,
            i <= r.0 <= src.len(),
        decreases src.len() - i,
    {
        if src.has(i, '{') {
            let (e, t) = Self::str_parser_inner(src, i + 1);
            if i < e && src.has(e, '}') {
                let (f, u) = Self::str_parser_inner(src, e + 1);
                let mut joined = t;
                joined.append(u.as_str());
                return (f, joined);
            }
            return (i, String::new());
        }
        let e = text_end_at(src, i);
        if i < e {
            let (f, u) = Self::str_parser_inner(src, e);
            let mut joined = src.slice(i, e);
            joined.append(u.as_str());
            return (f, joined);
        }
        (i, String::new())
    }

    pub fn parser(input: &str) -> (r: PResult<'_, Argument>)
        ensures
            delivers(input@, r, argument_at(input@, 0), |a: Argument| a.model()),
    {
        let src = Source::new(input);
        match Self::parse_at(&src, 0) {
            Ok((j, a)) => Ok((src.rest(j), a)),
            Err(e) => Err(e),
        }
    }

    /// The identifying text: the literal itself, or the nested command's name.
    pub fn name(&self) -> (r: &str)
        ensures
            r@ == arg_name(self.model()),
    {
        match self {
            Argument::Str(s) => s.as_str(),
            Argument::Cmd(cmd) => cmd.head.name.as_str(),
        }
    }
}

} // verus!
