use vstd::prelude::*;
use vstd::string::StringExecFns;

use crate::parser::{is_space, strings_model, Source};

verus! {

/// Position of the first line feed at or after `i`, or the end of the text.
pub open spec fn line_end(s: Seq<char>, i: int) -> int
    decreases s.len() - i,
{
    if 0 <= i < s.len() && s[i] != '\n' {
        line_end(s, i + 1)
    } else {
        i
    }
}

/// The line starting at `i`, without its terminator: a line feed, or a
/// carriage return and a line feed.
pub open spec fn line_at(s: Seq<char>, i: int) -> Seq<char> {
    let e = line_end(s, i);
    if e < s.len() && i < e && s[e - 1] == '\r' {
        s.subrange(i, e - 1)
    } else {
        s.subrange(i, e)
    }
}

/// The line opens a math block: it starts with `.. math::`.
pub open spec fn is_block_start(line: Seq<char>) -> bool {
    line.len() >= 9 && line.subrange(0, 9) == seq!['.', '.', ' ', 'm', 'a', 't', 'h', ':', ':']
}

/// The line holds nothing but blanks.
pub open spec fn is_blank(line: Seq<char>) -> bool {
    forall|k: int| 0 <= k < line.len() ==> is_space(#[trigger] line[k])
}

/// The blocks collected from the lines starting at `i`, while `in_block`
/// says whether a block is open and `cur` holds its lines so far: inside a
/// block a non-blank line is appended and a blank line closes the block;
/// any line starting with `.. math::` opens one. A block still open at the
/// end of the text is closed there.
pub open spec fn blocks_at(s: Seq<char>, i: int, in_block: bool, cur: Seq<char>) -> Seq<Seq<char>>
    decreases s.len() - i,
{
    if i < 0 || i >= s.len() {
        if in_block {
            seq![cur]
        } else {
            seq![]
        }
    } else {
        proof {
            lemma_line_end_bounds(s, i);
        }
        let line = line_at(s, i);
        let next = if line_end(s, i) < s.len() {
            line_end(s, i) + 1
        } else {
            s.len() as int
        };
        let opens = is_block_start(line);
        if in_block && !is_blank(line) {
            blocks_at(s, next, true, cur + line)
        } else if in_block {
            seq![cur] + blocks_at(s, next, opens, seq![])
        } else {
            blocks_at(s, next, opens, cur)
        }
    }
}

/// The math blocks of a document.
pub open spec fn math_blocks_of(s: Seq<char>) -> Seq<Seq<char>> {
    blocks_at(s, 0, false, seq![])
}

pub proof fn lemma_line_end_bounds(s: Seq<char>, i: int)
    requires
        0 <= i <= s.len(),
    ensures
        i <= line_end(s, i) <= s.len(),
        line_end(s, i) < s.len() ==> s[line_end(s, i)] == '\n',
    decreases s.len() - i,
{
    if i < s.len() && s[i] != '\n' {
        lemma_line_end_bounds(s, i + 1);
    }
}

fn line_end_at(src: &Source, i: usize) -> (r: usize)
    requires
        src.wf(),
        i <= src.len(),
    ensures
        r == line_end(src.text@, i as int),
        i <= r <= src.len(),
{
    let mut k = i;
    while k < src.chars.len() && src.chars[k] != '\n'
        invariant
            src.wf(),
            i <= k <= src.len(),
            line_end(src.text@, k as int) == line_end(src.text@, i as int),
        decreases src.len() - k,
    {
        k += 1;
    }
    k
}

/// Collects the math blocks of a document: for each line starting with
/// `.. math::`, the non-blank lines right after it, up to the next blank
/// line or the end of the text, joined without their line breaks.
pub fn math_blocks(content: &str) -> (r: Vec<String>)
    ensures
        strings_model(r@) == math_blocks_of(content@),
{
    let src = Source::new(content);
    let ghost s = content@;
    let n = src.chars.len();
    let mut blocks: Vec<String> = Vec::new();
    let mut cur = String::new();
    let mut in_block = false;
    let mut i: usize = 0;
    while i < n
        invariant
            src.wf(),
            s == src.text@,
            n == s.len(),
            i <= n,
            math_blocks_of(s) == strings_model(blocks@) + blocks_at(s, i as int, in_block, cur@),
        decreases n - i,
    {
        let e = line_end_at(&src, i);
        let stop = if e < n && i < e && src.chars[e - 1] == '\r' {
            e - 1
        } else {
            e
        };
        let line = src.slice(i, stop);
        assert(line@ == line_at(s, i as int));
        let opens = line.unicode_len() >= 9 && src.has(i, '.') && src.has(i + 1, '.') && src.has(
            i + 2,
            ' ',
        ) && src.has(i + 3, 'm') && src.has(i + 4, 'a') && src.has(i + 5, 't') && src.has(i + 6, 'h')
            && src.has(i + 7, ':') && src.has(i + 8, ':');
        proof {
            let l = line_at(s, i as int);
            let m = seq!['.', '.', ' ', 'm', 'a', 't', 'h', ':', ':'];
            if l.len() >= 9 {
                if opens {
                    assert(l.subrange(0, 9) =~= m);
                } else if l.subrange(0, 9) == m {
                    assert(forall|k: int| 0 <= k < 9 ==> l[k] == #[trigger] s[i + k]);
                    assert(l.subrange(0, 9)[0] == m[0]);
                    assert(l.subrange(0, 9)[8] == m[8]);
                }
            }
        }
        assert(line@ == s.subrange(i as int, stop as int));
        let mut blank = true;
        let mut k = i;
        while k < stop
            invariant
                src.wf(),
                s == src.text@,
                n == s.len(),
                i <= k <= stop <= n,
                line@ == s.subrange(i as int, stop as int),
                blank == (forall|m: int| 0 <= m < k - i ==> is_space(#[trigger] line@[m])),
            decreases stop - k,
        {
            let c = src.chars[k];
            if !(c == ' ' || c == '\t' || c == '\n' || c == '\r') {
                blank = false;
            }
            assert(line@[k - i] == c);
            k += 1;
        }
        assert(blank == is_blank(line@));
        let ghost blocks_before = blocks@;
        if in_block && !blank {
            cur.append(line.as_str());
        } else if in_block {
            blocks.push(cur);
            assert(strings_model(blocks@) =~= strings_model(blocks_before) + seq![cur@]);
            cur = String::new();
            in_block = opens;
        } else {
            in_block = opens;
        }
        proof {
            lemma_line_end_bounds(s, i as int);
        }
        i = if e < n {
            e + 1
        } else {
            n
        };
    }
    if in_block {
        let ghost blocks_before = blocks@;
        blocks.push(cur);
        assert(strings_model(blocks@) =~= strings_model(blocks_before) + seq![cur@]);
    } else {
        assert(strings_model(blocks@) + seq![] =~= strings_model(blocks@));
    }
    blocks
}

} // verus!
