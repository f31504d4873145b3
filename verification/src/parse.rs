//! Loading a puzzle from a textual description: the first line holds the
//! height and the width; each of the following `height` lines holds
//! `width` whitespace-separated non-negative integers, row-major, with 0
//! marking the blank.  Reading the bytes from a file is the caller's
//! business; this module classifies the text itself.

use vstd::prelude::*;

use crate::puzzle::check_cells;
use crate::puzzle::wf_grid;
use crate::puzzle::Puzzle;

verus! {

/// Why a puzzle description could not be loaded.
#[derive(Debug)]
pub enum FileReadError {
    /// The file could not be read at all.
    NotFound,
    /// The file holds no text.
    IsEmpty,
    /// The text does not describe a well-formed puzzle.
    IsCorrupt,
}

/// In-line whitespace: space, tab, or carriage return.
pub open spec fn is_ws(b: u8) -> bool {
    b == 32 || b == 9 || b == 13
}

/// The line separator.
pub open spec fn is_nl(b: u8) -> bool {
    b == 10
}

/// An ASCII decimal digit.
pub open spec fn is_digit(b: u8) -> bool {
    48 <= b <= 57
}

/// Index of the first line separator at or after `i`, or the length.
pub open spec fn find_nl(s: Seq<u8>, i: int) -> int
    decreases s.len() - i,
{
    if i < 0 || i >= s.len() {
        s.len() as int
    } else if is_nl(s[i]) {
        i
    } else {
        find_nl(s, i + 1)
    }
}

/// `find_nl` stays within bounds and is the first separator position.
pub proof fn lemma_find_nl_bounds(s: Seq<u8>, i: int)
    requires
        0 <= i <= s.len(),
    ensures
        i <= find_nl(s, i) <= s.len(),
    decreases s.len() - i,
{
    if i < s.len() && !is_nl(s[i]) {
        lemma_find_nl_bounds(s, i + 1);
    }
}

/// A scan that stops at the first separator computes `find_nl`.
pub proof fn lemma_find_nl_fix(s: Seq<u8>, i: int, e: int)
    requires
        0 <= i <= e <= s.len(),
        forall|j: int| i <= j < e ==> !is_nl(s[j]),
        e < s.len() ==> is_nl(s[e]),
    ensures
        find_nl(s, i) == e,
    decreases e - i,
{
    if i < e {
        lemma_find_nl_fix(s, i + 1, e);
    }
}

/// The lines of the text from position `i` on: maximal separator-free
/// runs, with no trailing empty line after a final separator.
pub open spec fn split_lines_from(s: Seq<u8>, i: int) -> Seq<Seq<u8>>
    decreases s.len() - i,
    when i >= 0
    via split_lines_from_decreases
{
    if i >= s.len() {
        Seq::empty()
    } else {
        let e = find_nl(s, i);
        if e >= s.len() {
            seq![s.subrange(i, e)]
        } else {
            seq![s.subrange(i, e)] + split_lines_from(s, e + 1)
        }
    }
}

#[via_fn]
proof fn split_lines_from_decreases(s: Seq<u8>, i: int) {
    if 0 <= i < s.len() {
        lemma_find_nl_bounds(s, i);
    }
}

/// The lines of the text.
pub open spec fn split_lines(s: Seq<u8>) -> Seq<Seq<u8>> {
    split_lines_from(s, 0)
}

/// Index of the first byte at or after `i` that is not in-line
/// whitespace, or the length.
pub open spec fn skip_ws(l: Seq<u8>, i: int) -> int
    decreases l.len() - i,
{
    if i < 0 || i >= l.len() {
        l.len() as int
    } else if is_ws(l[i]) {
        skip_ws(l, i + 1)
    } else {
        i
    }
}

/// Index of the first in-line whitespace byte at or after `i`, or the
/// length.
pub open spec fn find_ws(l: Seq<u8>, i: int) -> int
    decreases l.len() - i,
{
    if i < 0 || i >= l.len() {
        l.len() as int
    } else if is_ws(l[i]) {
        i
    } else {
        find_ws(l, i + 1)
    }
}

/// `find_ws` stays within bounds.
pub proof fn lemma_find_ws_bounds(l: Seq<u8>, i: int)
    requires
        0 <= i <= l.len(),
    ensures
        i <= find_ws(l, i) <= l.len(),
    decreases l.len() - i,
{
    if i < l.len() && !is_ws(l[i]) {
        lemma_find_ws_bounds(l, i + 1);
    }
}

/// A scan that stops at the first whitespace byte computes `find_ws`.
pub proof fn lemma_find_ws_fix(l: Seq<u8>, i: int, e: int)
    requires
        0 <= i <= e <= l.len(),
        forall|j: int| i <= j < e ==> !is_ws(l[j]),
        e < l.len() ==> is_ws(l[e]),
    ensures
        find_ws(l, i) == e,
    decreases e - i,
{
    if i < e {
        lemma_find_ws_fix(l, i + 1, e);
    }
}

/// The whitespace-separated tokens of a line from position `i` on.
pub open spec fn split_tokens_from(l: Seq<u8>, i: int) -> Seq<Seq<u8>>
    decreases l.len() - i,
    when i >= 0
    via split_tokens_from_decreases
{
    let j = skip_ws(l, i);
    if j >= l.len() {
        Seq::empty()
    } else {
        let e = find_ws(l, j);
        seq![l.subrange(j, e)] + split_tokens_from(l, e)
    }
}

#[via_fn]
proof fn split_tokens_from_decreases(l: Seq<u8>, i: int) {
    if 0 <= i <= l.len() {
        lemma_skip_ws_bounds(l, i);
        let j = skip_ws(l, i);
        if j < l.len() {
            lemma_find_ws_bounds(l, j + 1);
            assert(find_ws(l, j) == find_ws(l, j + 1));
        }
    }
}

/// `skip_ws` stays within bounds and stops at a non-whitespace byte.
pub proof fn lemma_skip_ws_bounds(l: Seq<u8>, i: int)
    requires
        0 <= i <= l.len(),
    ensures
        i <= skip_ws(l, i) <= l.len(),
        skip_ws(l, i) < l.len() ==> !is_ws(l[skip_ws(l, i)]),
    decreases l.len() - i,
{
    if i < l.len() && is_ws(l[i]) {
        lemma_skip_ws_bounds(l, i + 1);
    }
}

/// The whitespace-separated tokens of a line.
pub open spec fn split_tokens(l: Seq<u8>) -> Seq<Seq<u8>> {
    split_tokens_from(l, 0)
}

/// A non-empty, all-digit token.
pub open spec fn all_digits(t: Seq<u8>) -> bool {
    t.len() > 0 && forall|i: int| 0 <= i < t.len() ==> is_digit(#[trigger] t[i])
}

/// The decimal value of a digit token.
pub open spec fn token_value(t: Seq<u8>) -> int
    decreases t.len(),
{
    if t.len() == 0 {
        0
    } else {
        token_value(t.drop_last()) * 10 + t.last() - 48
    }
}

/// The value of an all-digit token is non-negative.
pub proof fn lemma_token_value_nonneg(t: Seq<u8>)
    requires
        forall|i: int| 0 <= i < t.len() ==> is_digit(#[trigger] t[i]),
    ensures
        token_value(t) >= 0,
    decreases t.len(),
{
    if t.len() > 0 {
        lemma_token_value_nonneg(t.drop_last());
    }
}

/// For an all-digit token, the value of a prefix never exceeds the value
/// of the whole token.
pub proof fn lemma_token_value_prefix(t: Seq<u8>, k: int)
    requires
        forall|i: int| 0 <= i < t.len() ==> is_digit(#[trigger] t[i]),
        0 <= k <= t.len(),
    ensures
        token_value(t.subrange(0, k)) <= token_value(t),
    decreases t.len() - k,
{
    if k < t.len() {
        lemma_token_value_prefix(t, k + 1);
        let shorter = t.subrange(0, k);
        let longer = t.subrange(0, k + 1);
        assert(longer.drop_last() =~= shorter);
        lemma_token_value_nonneg(shorter);
        assert(token_value(longer) == token_value(shorter) * 10 + longer.last() - 48);
        assert(token_value(shorter) * 10 >= token_value(shorter)) by (nonlinear_arith)
            requires
                token_value(shorter) >= 0,
        ;
    } else {
        assert(t.subrange(0, k) =~= t);
    }
}

/// The first line parses as a height and a width.
pub open spec fn header_ok(s: Seq<u8>) -> bool {
    let toks = split_tokens(split_lines(s)[0]);
    &&& split_lines(s).len() >= 1
    &&& toks.len() >= 2
    &&& all_digits(toks[0])
    &&& all_digits(toks[1])
    &&& token_value(toks[0]) <= usize::MAX
    &&& token_value(toks[1]) <= usize::MAX
}

/// The declared height (first token of the first line).
pub open spec fn spec_height(s: Seq<u8>) -> int {
    token_value(split_tokens(split_lines(s)[0])[0])
}

/// The declared width (second token of the first line).
pub open spec fn spec_width(s: Seq<u8>) -> int {
    token_value(split_tokens(split_lines(s)[0])[1])
}

/// The declared dimensions are positive and small enough for `u8` tile
/// labels.
pub open spec fn dims_ok(s: Seq<u8>) -> bool {
    &&& header_ok(s)
    &&& 1 <= spec_width(s)
    &&& 1 <= spec_height(s)
    &&& spec_width(s) * spec_height(s) <= 256
}

/// Each of the `height` lines after the first holds exactly `width`
/// digit tokens with values below `width * height`, and any further
/// lines hold no tokens.
pub open spec fn body_ok(s: Seq<u8>) -> bool {
    let lines = split_lines(s);
    let h = spec_height(s);
    let w = spec_width(s);
    &&& lines.len() >= 1 + h
    &&& forall|y: int|
        0 <= y < h ==> {
            let ts = split_tokens(#[trigger] lines[1 + y]);
            ts.len() == w && forall|x: int|
                0 <= x < w ==> all_digits(#[trigger] ts[x]) && 0 <= token_value(ts[x]) < w * h
        }
    &&& forall|k: int| 1 + h <= k < lines.len() ==> split_tokens(#[trigger] lines[k]).len() == 0
}

/// The value of the cell at row-major index `i`.
pub open spec fn cell_value(s: Seq<u8>, i: int) -> int {
    let w = spec_width(s);
    token_value(split_tokens(split_lines(s)[1 + i / w])[i % w])
}

/// The grid described by the text, row-major.
pub open spec fn parsed_grid(s: Seq<u8>) -> Seq<u8> {
    Seq::new((spec_width(s) * spec_height(s)) as nat, |i: int| cell_value(s, i) as u8)
}

/// The text describes a loadable puzzle: non-empty, well-shaped, and the
/// described grid holds each label exactly once with one blank.
pub open spec fn text_ok(s: Seq<u8>) -> bool {
    &&& s.len() > 0
    &&& dims_ok(s)
    &&& body_ok(s)
    &&& wf_grid(parsed_grid(s), spec_width(s) as nat, spec_height(s) as nat)
}

/// Copies the byte range `[a, b)` of a vector.
fn copy_range(s: &Vec<u8>, a: usize, b: usize) -> (r: Vec<u8>)
    requires
        a <= b <= s@.len(),
    ensures
        r@ == s@.subrange(a as int, b as int),
{
    let mut r: Vec<u8> = Vec::new();
    let mut i: usize = a;
    while i < b
        invariant
            a <= i <= b <= s@.len(),
            r@ == s@.subrange(a as int, i as int),
        decreases b - i,
    {
        r.push(s[i]);
        proof {
            assert(r@ =~= s@.subrange(a as int, i + 1));
        }
        i = i + 1;
    }
    r
}

/// Splits the text into its lines.
fn split_lines_exec(s: &Vec<u8>) -> (r: Vec<Vec<u8>>)
    ensures
        r@.map_values(|l: Vec<u8>| l@) == split_lines(s@),
{
    let mut out: Vec<Vec<u8>> = Vec::new();
    let mut i: usize = 0;
    while i < s.len()
        invariant
            i <= s@.len(),
            split_lines(s@) == out@.map_values(|l: Vec<u8>| l@) + split_lines_from(
                s@,
                i as int,
            ),
        decreases s@.len() - i,
    {
        let mut e: usize = i;
        while e < s.len() && s[e] != 10
            invariant
                i <= e <= s@.len(),
                forall|j: int| i <= j < e ==> !is_nl(s@[j]),
            decreases s@.len() - e,
        {
            e = e + 1;
        }
        proof {
            lemma_find_nl_fix(s@, i as int, e as int);
        }
        let line = copy_range(s, i, e);
        let ghost prev = out@.map_values(|l: Vec<u8>| l@);
        out.push(line);
        proof {
            assert(out@.map_values(|l: Vec<u8>| l@) =~= prev + seq![s@.subrange(
                i as int,
                e as int,
            )]);
            if e < s@.len() {
                assert(split_lines_from(s@, i as int) == seq![s@.subrange(i as int, e as int)]
                    + split_lines_from(s@, e + 1));
            } else {
                assert(split_lines_from(s@, i as int) =~= seq![s@.subrange(i as int, e as int)]
                    + split_lines_from(s@, e as int));
            }
            assert(split_lines(s@) =~= out@.map_values(|l: Vec<u8>| l@) + split_lines_from(
                s@,
                if e < s@.len() {
                    e + 1
                } else {
                    e as int
                },
            ));
        }
        i = e;
        if i < s.len() {
            i = i + 1;
        }
    }
    proof {
        assert(split_lines_from(s@, i as int) =~= Seq::<Seq<u8>>::empty());
        assert(out@.map_values(|l: Vec<u8>| l@) =~= split_lines(s@));
    }
    out
}

/// Splits a line into its whitespace-separated tokens.
fn split_tokens_exec(l: &Vec<u8>) -> (r: Vec<Vec<u8>>)
    ensures
        r@.map_values(|t: Vec<u8>| t@) == split_tokens(l@),
{
    let mut out: Vec<Vec<u8>> = Vec::new();
    let mut i: usize = 0;
    while i < l.len()
        invariant
            i <= l@.len(),
            split_tokens(l@) == out@.map_values(|t: Vec<u8>| t@) + split_tokens_from(
                l@,
                i as int,
            ),
        decreases l@.len() - i,
    {
        let b = l[i];
        if b == 32 || b == 9 || b == 13 {
            proof {
                assert(skip_ws(l@, i as int) == skip_ws(l@, i + 1));
                assert(split_tokens_from(l@, i as int) == split_tokens_from(l@, i + 1));
            }
            i = i + 1;
        } else {
            let mut e: usize = i;
            while e < l.len() && l[e] != 32 && l[e] != 9 && l[e] != 13
                invariant
                    i <= e <= l@.len(),
                    forall|j: int| i <= j < e ==> !is_ws(l@[j]),
                decreases l@.len() - e,
            {
                e = e + 1;
            }
            proof {
                lemma_find_ws_fix(l@, i as int, e as int);
                assert(skip_ws(l@, i as int) == i as int);
            }
            let tok = copy_range(l, i, e);
            let ghost prev = out@.map_values(|t: Vec<u8>| t@);
            out.push(tok);
            proof {
                assert(out@.map_values(|t: Vec<u8>| t@) =~= prev + seq![l@.subrange(
                    i as int,
                    e as int,
                )]);
                assert(split_tokens_from(l@, i as int) == seq![l@.subrange(i as int, e as int)]
                    + split_tokens_from(l@, e as int));
                assert(split_tokens(l@) =~= out@.map_values(|t: Vec<u8>| t@)
                    + split_tokens_from(l@, e as int));
            }
            i = e;
        }
    }
    proof {
        assert(split_tokens_from(l@, i as int) =~= Seq::<Seq<u8>>::empty());
        assert(out@.map_values(|t: Vec<u8>| t@) =~= split_tokens(l@));
    }
    out
}

/// Parses a token as a decimal number, rejecting non-digit bytes and
/// values that do not fit the machine.
fn token_to_usize(t: &Vec<u8>) -> (r: Option<usize>)
    ensures
        match r {
            Some(v) => all_digits(t@) && v as int == token_value(t@),
            None => !all_digits(t@) || token_value(t@) > usize::MAX,
        },
{
    if t.len() == 0 {
        return None;
    }
    let mut acc: usize = 0;
    let mut i: usize = 0;
    while i < t.len()
        invariant
            i <= t@.len(),
            forall|j: int| 0 <= j < i ==> is_digit(#[trigger] t@[j]),
            acc as int == token_value(t@.subrange(0, i as int)),
        decreases t@.len() - i,
    {
        let b = t[i];
        if b < 48 || b > 57 {
            return None;
        }
        let d = (b - 48) as usize;
        if acc > (usize::MAX - d) / 10 {
            proof {
                let pre = t@.subrange(0, i as int);
                let nxt = t@.subrange(0, i + 1);
                assert(nxt.drop_last() =~= pre);
                let q = (usize::MAX - d) as int / 10;
                vstd::arithmetic::div_mod::lemma_fundamental_div_mod((usize::MAX - d) as int, 10);
                vstd::arithmetic::div_mod::lemma_mod_bound((usize::MAX - d) as int, 10);
                assert((acc as int) * 10 >= (q + 1) * 10) by (nonlinear_arith)
                    requires
                        acc as int >= q + 1,
                ;
                assert(token_value(nxt) > usize::MAX);
                if all_digits(t@) {
                    lemma_token_value_prefix(t@, i + 1);
                }
            }
            return None;
        }
        proof {
            let q = (usize::MAX - d) as int / 10;
            vstd::arithmetic::div_mod::lemma_fundamental_div_mod((usize::MAX - d) as int, 10);
            vstd::arithmetic::div_mod::lemma_mod_bound((usize::MAX - d) as int, 10);
            assert((acc as int) * 10 <= q * 10) by (nonlinear_arith)
                requires
                    0 <= acc as int <= q,
            ;
            let pre = t@.subrange(0, i as int);
            let nxt = t@.subrange(0, i + 1);
            assert(nxt.drop_last() =~= pre);
        }
        acc = acc * 10 + d;
        i = i + 1;
    }
    proof {
        assert(t@.subrange(0, t@.len() as int) =~= t@);
    }
    Some(acc)
}

impl Puzzle {
    /// Loads a puzzle from a textual description.  Empty text is
    /// `IsEmpty`; text that is not a well-shaped description of a grid
    /// holding each label exactly once is `IsCorrupt`; otherwise the
    /// described state is returned with an empty history.
    pub fn from_text(text: &Vec<u8>) -> (r: Result<Puzzle, FileReadError>)
        ensures
            match r {
                Ok(p) => text_ok(text@) && p@.wf() && p@.grid == parsed_grid(text@) && p@.width
                    == spec_width(text@) && p@.height == spec_height(text@) && p@.path.len() == 0
                    && p@.rank == 0,
                Err(e) => match e {
                    FileReadError::IsEmpty => text@.len() == 0,
                    FileReadError::IsCorrupt => text@.len() > 0 && !text_ok(text@),
                    FileReadError::NotFound => false,
                },
            },
    {
        if text.len() == 0 {
            return Err(FileReadError::IsEmpty);
        }
        let lines = split_lines_exec(text);
        proof {
            assert(split_lines(text@).len() >= 1);
            assert(lines@.len() == split_lines(text@).len());
            assert(lines@[0]@ == split_lines(text@)[0]);
        }
        let header = split_tokens_exec(&lines[0]);
        if header.len() < 2 {
            return Err(FileReadError::IsCorrupt);
        }
        proof {
            assert(header@[0]@ == split_tokens(split_lines(text@)[0])[0]);
            assert(header@[1]@ == split_tokens(split_lines(text@)[0])[1]);
        }
        let hh = match token_to_usize(&header[0]) {
            Some(v) => v,
            None => {
                return Err(FileReadError::IsCorrupt);
            },
        };
        let ww = match token_to_usize(&header[1]) {
            Some(v) => v,
            None => {
                return Err(FileReadError::IsCorrupt);
            },
        };
        if ww < 1 || hh < 1 {
            return Err(FileReadError::IsCorrupt);
        }
        if ww > 256 || hh > 256 {
            proof {
                assert(spec_width(text@) * spec_height(text@) >= spec_width(text@)
                    && spec_width(text@) * spec_height(text@) >= spec_height(text@))
                    by (nonlinear_arith)
                    requires
                        spec_width(text@) >= 1,
                        spec_height(text@) >= 1,
                ;
            }
            return Err(FileReadError::IsCorrupt);
        }
        proof {
            assert(spec_width(text@) * spec_height(text@) <= 65536) by (nonlinear_arith)
                requires
                    1 <= spec_width(text@) <= 256,
                    1 <= spec_height(text@) <= 256,
            ;
        }
        let n = ww * hh;
        if n > 256 {
            return Err(FileReadError::IsCorrupt);
        }
        if lines.len() < 1 + hh {
            return Err(FileReadError::IsCorrupt);
        }
        let ghost wi = ww as int;
        let ghost hi = hh as int;
        let mut grid: Vec<u8> = Vec::new();
        let mut y: usize = 0;
        while y < hh
            invariant
                text@.len() > 0,
                wi == spec_width(text@),
                hi == spec_height(text@),
                1 <= wi <= 256,
                1 <= hi <= 256,
                wi * hi == n,
                n <= 256,
                y <= hh,
                hh == hi,
                ww == wi,
                lines@.map_values(|l: Vec<u8>| l@) == split_lines(text@),
                lines@.len() >= 1 + hi,
                grid@.len() == y * wi,
                forall|yy: int|
                    0 <= yy < y ==> {
                        let ts = split_tokens(#[trigger] split_lines(text@)[1 + yy]);
                        ts.len() == wi && forall|x: int|
                            0 <= x < wi ==> all_digits(#[trigger] ts[x]) && 0 <= token_value(
                                ts[x],
                            ) < wi * hi
                    },
                forall|i: int|
                    0 <= i < grid@.len() ==> (#[trigger] grid@[i]) as int == cell_value(
                        text@,
                        i,
                    ) && (grid@[i] as int) < n,
            decreases hh - y,
        {
            proof {
                assert(y * wi + wi <= hi * wi) by (nonlinear_arith)
                    requires
                        0 <= (y as int) && (y as int) < hi,
                        wi >= 1,
                ;
            }
            let toks = split_tokens_exec(&lines[1 + y]);
            if toks.len() != ww {
                proof {
                    assert(split_tokens(split_lines(text@)[1 + y as int]).len() != wi);
                    if body_ok(text@) {
                        let ts = split_tokens(split_lines(text@)[1 + y as int]);
                        assert(ts.len() == wi);
                    }
                }
                return Err(FileReadError::IsCorrupt);
            }
            let mut x: usize = 0;
            while x < ww
                invariant
                    text@.len() > 0,
                    wi == spec_width(text@),
                    hi == spec_height(text@),
                    1 <= wi <= 256,
                    1 <= hi <= 256,
                    wi * hi == n,
                    n <= 256,
                    y < hh,
                    hh == hi,
                    ww == wi,
                    x <= ww,
                    toks@.map_values(|t: Vec<u8>| t@) == split_tokens(
                        split_lines(text@)[1 + y as int],
                    ),
                    toks@.len() == ww,
                    grid@.len() == y * wi + x,
                    y * wi + wi <= hi * wi,
                    forall|xx: int|
                        0 <= xx < x ==> all_digits(
                            #[trigger] split_tokens(split_lines(text@)[1 + y as int])[xx],
                        ) && 0 <= token_value(
                            split_tokens(split_lines(text@)[1 + y as int])[xx],
                        ) < wi * hi,
                    forall|i: int|
                        0 <= i < grid@.len() ==> (#[trigger] grid@[i]) as int == cell_value(
                            text@,
                            i,
                        ) && (grid@[i] as int) < n,
                decreases ww - x,
            {
                let v = match token_to_usize(&toks[x]) {
                    Some(v) => v,
                    None => {
                        proof {
                            let ts = split_tokens(split_lines(text@)[1 + y as int]);
                            assert(toks@[x as int]@ == ts[x as int]);
                            if body_ok(text@) {
                                assert(ts.len() == wi && all_digits(ts[x as int]) && 0
                                    <= token_value(ts[x as int]) < wi * hi);
                                assert(wi * hi <= 256 < usize::MAX);
                                assert(false);
                            }
                        }
                        return Err(FileReadError::IsCorrupt);
                    },
                };
                if v >= n {
                    proof {
                        let ts = split_tokens(split_lines(text@)[1 + y as int]);
                        assert(toks@[x as int]@ == ts[x as int]);
                        if body_ok(text@) {
                            assert(ts.len() == wi && all_digits(ts[x as int]) && 0
                                <= token_value(ts[x as int]) < wi * hi);
                            assert(false);
                        }
                    }
                    return Err(FileReadError::IsCorrupt);
                }
                grid.push(v as u8);
                proof {
                    let i = y * wi + x;
                    vstd::arithmetic::div_mod::lemma_fundamental_div_mod_converse(
                        i,
                        wi,
                        y as int,
                        x as int,
                    );
                    assert(cell_value(text@, i) == v as int);
                    assert(grid@[i] == v as u8);
                }
                x = x + 1;
            }
            proof {
                assert((y + 1) * wi == y * wi + wi) by (nonlinear_arith);
            }
            y = y + 1;
        }
        let mut k: usize = 1 + hh;
        while k < lines.len()
            invariant
                text@.len() > 0,
                wi == spec_width(text@),
                hi == spec_height(text@),
                hh == hi,
                1 + hh <= k,
                k <= lines@.len(),
                lines@.map_values(|l: Vec<u8>| l@) == split_lines(text@),
                forall|kk: int|
                    1 + hi <= kk < k ==> split_tokens(
                        #[trigger] split_lines(text@)[kk],
                    ).len() == 0,
            decreases lines@.len() - k,
        {
            let toks = split_tokens_exec(&lines[k]);
            if toks.len() != 0 {
                proof {
                    assert(split_tokens(split_lines(text@)[k as int]).len() != 0);
                    if body_ok(text@) {
                        assert(split_tokens(split_lines(text@)[k as int]).len() == 0);
                    }
                }
                return Err(FileReadError::IsCorrupt);
            }
            k = k + 1;
        }
        proof {
            assert(hi * wi == wi * hi) by (nonlinear_arith);
            assert(grid@ =~= parsed_grid(text@));
            assert(body_ok(text@));
        }
        let cells_ok = check_cells(&grid);
        if !cells_ok {
            proof {
                if text_ok(text@) {
                    assert(wf_grid(
                        parsed_grid(text@),
                        spec_width(text@) as nat,
                        spec_height(text@) as nat,
                    ));
                    assert(false);
                }
            }
            return Err(FileReadError::IsCorrupt);
        }
        proof {
            assert(1 <= wi * hi) by (nonlinear_arith)
                requires
                    1 <= wi,
                    1 <= hi,
            ;
            assert(wf_grid(grid@, spec_width(text@) as nat, spec_height(text@) as nat));
            assert(text_ok(text@));
        }
        let p = Puzzle::from_parts(grid, ww, hh);
        Ok(p)
    }
}

} // verus!
