//! The run-length encoded pattern format: comment lines starting with `#`,
//! a header `x = <width>, y = <height>` (the rest of its line, such as a
//! rule, is ignored), and a body of runs `<count><tag>` with the tags `b`
//! (dead), `o` (alive) and `$` (end of line), ended by `!`. A missing count
//! is 1, and white space may stand between runs.

use vstd::prelude::*;
use vstd::string::StringSliceAdditionalSpecFns;

use crate::world::{Coord, Coords};

verus! {

/// A space or a tab.
pub open spec fn is_blank(b: u8) -> bool {
    b == 32 || b == 9
}

/// A blank, a line feed or a carriage return.
pub open spec fn is_space(b: u8) -> bool {
    is_blank(b) || b == 10 || b == 13
}

pub open spec fn is_digit(b: u8) -> bool {
    48 <= b <= 57
}

/// The first index from `i` on that holds no blank.
pub open spec fn skip_blanks(s: Seq<u8>, i: int) -> int
    decreases s.len() - i,
{
    if 0 <= i < s.len() && is_blank(s[i]) {
        skip_blanks(s, i + 1)
    } else {
        i
    }
}

/// The first index from `i` on that holds no space.
pub open spec fn skip_spaces(s: Seq<u8>, i: int) -> int
    decreases s.len() - i,
{
    if 0 <= i < s.len() && is_space(s[i]) {
        skip_spaces(s, i + 1)
    } else {
        i
    }
}

/// The index of the first line feed from `i` on, or the length.
pub open spec fn line_end(s: Seq<u8>, i: int) -> int
    decreases s.len() - i,
{
    if 0 <= i < s.len() && s[i] != 10 {
        line_end(s, i + 1)
    } else {
        i
    }
}

/// The first index from `i` on that is neither space nor inside a comment
/// line; `in_comment` says whether `i` is inside one.
pub open spec fn after_comments(s: Seq<u8>, i: int, in_comment: bool) -> int
    decreases s.len() - i,
{
    if i < 0 || i >= s.len() {
        i
    } else if in_comment {
        after_comments(s, i + 1, s[i] != 10)
    } else if is_space(s[i]) {
        after_comments(s, i + 1, false)
    } else if s[i] == 35 {
        after_comments(s, i + 1, true)
    } else {
        i
    }
}

/// Reads the decimal digits from `i` on after the value `acc` read so far:
/// the value and the index after the digits.
pub open spec fn read_num(s: Seq<u8>, i: int, acc: int) -> (int, int)
    decreases s.len() - i,
{
    if 0 <= i < s.len() && is_digit(s[i]) {
        read_num(s, i + 1, acc * 10 + (s[i] - 48))
    } else {
        (acc, i)
    }
}

/// `n` live cells from `(col, line)` rightwards.
pub open spec fn run(col: int, line: int, n: int) -> Seq<Coord> {
    Seq::new(n as nat, |k: int| Coord((col + k) as i64, line as i64))
}

/// The header: width, height and the index where its line ends.
pub open spec fn header(s: Seq<u8>) -> Option<(int, int, int)> {
    let h = after_comments(s, 0, false);
    if !(h < s.len() && s[h] == 120) {
        None
    } else {
        let a = skip_blanks(s, h + 1);
        if !(a < s.len() && s[a] == 61) {
            None
        } else {
            let b = skip_blanks(s, a + 1);
            let (x, e) = read_num(s, b, 0);
            let c = skip_blanks(s, e);
            if e == b || x > i32::MAX || !(c < s.len() && s[c] == 44) {
                None
            } else {
                let d = skip_blanks(s, c + 1);
                if !(d < s.len() && s[d] == 121) {
                    None
                } else {
                    let f = skip_blanks(s, d + 1);
                    if !(f < s.len() && s[f] == 61) {
                        None
                    } else {
                        let g = skip_blanks(s, f + 1);
                        let (y, e2) = read_num(s, g, 0);
                        if e2 == g || y > i32::MAX {
                            None
                        } else {
                            Some((x, y, line_end(s, e2)))
                        }
                    }
                }
            }
        }
    }
}

/// The live cells of the runs from `i` on, the next run starting at column
/// `col` of line `line`; `counting` says whether a count has begun, `pending` is
/// its value so far. `None` where the runs are malformed, never ended by
/// `!`, or reach past `i32::MAX` in a column or a line.
pub open spec fn decode(s: Seq<u8>, i: int, col: int, line: int, pending: int, counting: bool) -> Option<
    Seq<Coord>,
>
    decreases s.len() - i,
{
    if i < 0 || i >= s.len() {
        None
    } else {
        let b = s[i];
        let n = if counting {
            pending
        } else {
            1
        };
        if is_digit(b) {
            decode(s, i + 1, col, line, pending * 10 + (b - 48), true)
        } else if !counting && is_space(b) {
            decode(s, i + 1, col, line, 0, false)
        } else if !counting && b == 33 {
            Some(Seq::empty())
        } else if b == 98 && col + n <= i32::MAX {
            decode(s, i + 1, col + n, line, 0, false)
        } else if b == 111 && col + n <= i32::MAX {
            match decode(s, i + 1, col + n, line, 0, false) {
                Some(rest) => Some(run(col, line, n) + rest),
                None => None,
            }
        } else if b == 36 && line + n <= i32::MAX {
            decode(s, i + 1, 0, line + n, 0, false)
        } else {
            None
        }
    }
}

/// The body from index `k` on: nothing but spaces is an empty body.
pub open spec fn body(s: Seq<u8>, k: int) -> Option<Seq<Coord>> {
    let t = skip_spaces(s, k);
    if t >= s.len() {
        Some(Seq::empty())
    } else {
        decode(s, t, 0, 0, 0, false)
    }
}

/// A whole pattern: width, height and its live cells in the order of the
/// text.
pub open spec fn rle_pattern(s: Seq<u8>) -> Option<(int, int, Seq<Coord>)> {
    match header(s) {
        None => None,
        Some((x, y, k)) => match body(s, k) {
            None => None,
            Some(cells) => Some((x, y, cells)),
        },
    }
}

/// Prefixes `cells` to a decoding result.
pub open spec fn prepend(cells: Seq<Coord>, o: Option<Seq<Coord>>) -> Option<Seq<Coord>> {
    match o {
        Some(rest) => Some(cells + rest),
        None => None,
    }
}

/// A cell of a pattern: both components in `0..=i32::MAX`.
pub open spec fn in_pattern(c: Coord) -> bool {
    0 <= c.0 <= i32::MAX && 0 <= c.1 <= i32::MAX
}

/// The size that a pattern's header gives.
#[derive(Debug, Clone, Copy, PartialEq, Eq, Structural)]
pub struct LreLife {
    pub x: i32,
    pub y: i32,
}

/// The text is no well-formed pattern.
#[derive(Debug, Clone, Copy, PartialEq, Eq, Structural)]
pub struct RleError;

/// Something that takes the live cells of a pattern one at a time.
pub trait LifePlaceMaker {
    /// The cells it holds, in the order they came.
    spec fn placed(&self) -> Seq<Coord>;

    /// The cell that the pattern's cell `coord` becomes.
    spec fn cell_for(&self, coord: Coord) -> Coord;

    /// Whether it can take the pattern's cell `coord`.
    spec fn can_place(&self, coord: Coord) -> bool;

    fn make_cell_alive(&mut self, coord: Coord)
        requires
            old(self).can_place(coord),
        ensures
            final(self).placed() == old(self).placed().push(old(self).cell_for(coord)),
            forall|c: Coord| #[trigger] final(self).can_place(c) == old(self).can_place(c),
            forall|c: Coord| #[trigger] final(self).cell_for(c) == old(self).cell_for(c),
    ;
}

impl LifePlaceMaker for Coords {
    open spec fn placed(&self) -> Seq<Coord> {
        self@
    }

    open spec fn cell_for(&self, coord: Coord) -> Coord {
        coord
    }

    open spec fn can_place(&self, coord: Coord) -> bool {
        true
    }

    fn make_cell_alive(&mut self, coord: Coord) {
        self.push(coord);
    }
}

fn skip_blanks_exec(s: &[u8], i: usize) -> (r: usize)
    requires
        i <= s@.len(),
    ensures
        r == skip_blanks(s@, i as int),
        i <= r <= s@.len(),
{
    let mut j = i;
    while j < s.len() && (s[j] == 32 || s[j] == 9)
        invariant
            i <= j <= s@.len(),
            skip_blanks(s@, j as int) == skip_blanks(s@, i as int),
        decreases s@.len() - j,
    {
        j += 1;
    }
    j
}

fn skip_spaces_exec(s: &[u8], i: usize) -> (r: usize)
    requires
        i <= s@.len(),
    ensures
        r == skip_spaces(s@, i as int),
        i <= r <= s@.len(),
{
    let mut j = i;
    while j < s.len() && (s[j] == 32 || s[j] == 9 || s[j] == 10 || s[j] == 13)
        invariant
            i <= j <= s@.len(),
            skip_spaces(s@, j as int) == skip_spaces(s@, i as int),
        decreases s@.len() - j,
    {
        j += 1;
    }
    j
}

fn line_end_exec(s: &[u8], i: usize) -> (r: usize)
    requires
        i <= s@.len(),
    ensures
        r == line_end(s@, i as int),
        i <= r <= s@.len(),
{
    let mut j = i;
    while j < s.len() && s[j] != 10
        invariant
            i <= j <= s@.len(),
            line_end(s@, j as int) == line_end(s@, i as int),
        decreases s@.len() - j,
    {
        j += 1;
    }
    j
}

fn after_comments_exec(s: &[u8]) -> (r: usize)
    ensures
        r == after_comments(s@, 0, false),
        r <= s@.len(),
{
    let mut j: usize = 0;
    let mut in_comment = false;
    while j < s.len()
        invariant
            j <= s@.len(),
            after_comments(s@, j as int, in_comment) == after_comments(s@, 0, false),
        decreases s@.len() - j,
    {
        let b = s[j];
        if in_comment {
            in_comment = b != 10;
        } else if b == 32 || b == 9 || b == 10 || b == 13 {
        } else if b == 35 {
            in_comment = true;
        } else {
            return j;
        }
        j += 1;
    }
    j
}

/// Digits only make a number larger.
proof fn lemma_read_num_grows(s: Seq<u8>, i: int, acc: int)
    requires
        acc >= 0,
    ensures
        read_num(s, i, acc).0 >= acc,
        read_num(s, i, acc).1 >= i,
    decreases s.len() - i,
{
    if 0 <= i < s.len() && is_digit(s[i]) {
        lemma_read_num_grows(s, i + 1, acc * 10 + (s[i] - 48));
    }
}

/// Reads a number from `i` on: its value and the index after its digits,
/// or `None` where it exceeds `i32::MAX`.
fn read_num_exec(s: &[u8], i: usize) -> (r: Option<(i32, usize)>)
    requires
        i <= s@.len(),
    ensures
        match r {
            Some((v, e)) => read_num(s@, i as int, 0) == (v as int, e as int) && v >= 0 && e <= s@.len(),
            None => read_num(s@, i as int, 0).0 > i32::MAX,
        },
{
    let mut j = i;
    let mut acc: i64 = 0;
    while j < s.len() && s[j] >= 48 && s[j] <= 57
        invariant
            i <= j <= s@.len(),
            0 <= acc <= i32::MAX,
            read_num(s@, j as int, acc as int) == read_num(s@, i as int, 0),
        decreases s@.len() - j,
    {
        let next = acc * 10 + (s[j] - 48) as i64;
        if next > i32::MAX as i64 {
            proof {
                lemma_read_num_grows(s@, j + 1, next as int);
            }
            return None;
        }
        acc = next;
        j += 1;
    }
    Some((acc as i32, j))
}

/// Reads the header: width, height and the index where its line ends.
pub fn get_x_y(s: &[u8]) -> (r: Option<(i32, i32, usize)>)
    ensures
        match header(s@) {
            Some((x, y, k)) => match r {
                Some((rx, ry, rk)) => rx == x && ry == y && rk == k && k <= s@.len(),
                None => false,
            },
            None => r is None,
        },
{
    let h = after_comments_exec(s);
    if !(h < s.len() && s[h] == 120) {
        return None;
    }
    let a = skip_blanks_exec(s, h + 1);
    if !(a < s.len() && s[a] == 61) {
        return None;
    }
    let b = skip_blanks_exec(s, a + 1);
    let (x, e) = match read_num_exec(s, b) {
        Some(p) => p,
        None => return None,
    };
    let c = skip_blanks_exec(s, e);
    if e == b || !(c < s.len() && s[c] == 44) {
        return None;
    }
    let d = skip_blanks_exec(s, c + 1);
    if !(d < s.len() && s[d] == 121) {
        return None;
    }
    let f = skip_blanks_exec(s, d + 1);
    if !(f < s.len() && s[f] == 61) {
        return None;
    }
    let g = skip_blanks_exec(s, f + 1);
    let (y, e2) = match read_num_exec(s, g) {
        Some(p) => p,
        None => return None,
    };
    if e2 == g {
        return None;
    }
    let k = line_end_exec(s, e2);
    Some((x, y, k))
}

/// A count past `i32::MAX` spoils the pattern.
proof fn lemma_decode_overflow(s: Seq<u8>, i: int, col: int, line: int, pending: int)
    requires
        pending > i32::MAX,
        col >= 0,
        line >= 0,
    ensures
        decode(s, i, col, line, pending, true) is None,
    decreases s.len() - i,
{
    if 0 <= i < s.len() && is_digit(s[i]) {
        lemma_decode_overflow(s, i + 1, col, line, pending * 10 + (s[i] - 48));
    }
}

/// Decodes the body from index `k` on into its live cells, in the order of
/// the text.
pub fn get_body_contents(s: &[u8], k: usize) -> (r: Option<Vec<Coord>>)
    requires
        k <= s@.len(),
    ensures
        match r {
            Some(v) => body(s@, k as int) == Some(v@) && forall|i: int|
                0 <= i < v@.len() ==> in_pattern(#[trigger] v@[i]),
            None => body(s@, k as int) is None,
        },
{
    let t = skip_spaces_exec(s, k);
    if t >= s.len() {
        return Some(Vec::new());
    }
    let mut cells: Vec<Coord> = Vec::new();
    let mut i = t;
    let mut col: i64 = 0;
    let mut line: i64 = 0;
    let mut pending: i64 = 0;
    let mut counting = false;
    assert(cells@ + Seq::<Coord>::empty() =~= Seq::<Coord>::empty());
    assert forall|o: Option<Seq<Coord>>| prepend(Seq::<Coord>::empty(), o) == o by {
        if let Some(rest) = o {
            assert(Seq::<Coord>::empty() + rest =~= rest);
        }
    }
    while i < s.len()
        invariant
            t == skip_spaces(s@, k as int),
            t < s@.len(),
            t <= i <= s@.len(),
            0 <= col <= i32::MAX,
            0 <= line <= i32::MAX,
            0 <= pending <= i32::MAX,
            !counting ==> pending == 0,
            forall|j: int| 0 <= j < cells@.len() ==> in_pattern(#[trigger] cells@[j]),
            decode(s@, t as int, 0, 0, 0, false) == prepend(
                cells@,
                decode(s@, i as int, col as int, line as int, pending as int, counting),
            ),
        decreases s@.len() - i,
    {
        let b = s[i];
        let n: i64 = if counting {
            pending
        } else {
            1
        };
        if b >= 48 && b <= 57 {
            let next = pending * 10 + (b - 48) as i64;
            if next > i32::MAX as i64 {
                proof {
                    lemma_decode_overflow(s@, i + 1, col as int, line as int, next as int);
                }
                return None;
            }
            pending = next;
            counting = true;
        } else if !counting && (b == 32 || b == 9 || b == 10 || b == 13) {
        } else if !counting && b == 33 {
            assert(cells@ + Seq::<Coord>::empty() =~= cells@);
            return Some(cells);
        } else if b == 98 && col + n <= i32::MAX as i64 {
            col = col + n;
            pending = 0;
            counting = false;
        } else if b == 111 && col + n <= i32::MAX as i64 {
            let ghost before = cells@;
            let mut m: i64 = 0;
            while m < n
                invariant
                    0 <= m <= n,
                    0 <= col,
                    col + n <= i32::MAX,
                    0 <= line <= i32::MAX,
                    cells@ == before + run(col as int, line as int, m as int),
                    forall|j: int| 0 <= j < before.len() ==> in_pattern(#[trigger] before[j]),
                decreases n - m,
            {
                cells.push(Coord(col + m, line));
                assert(run(col as int, line as int, m + 1) =~= run(col as int, line as int, m as int).push(
                    Coord((col + m) as i64, line),
                ));
                m += 1;
            }
            proof {
                assert forall|j: int| 0 <= j < cells@.len() implies in_pattern(#[trigger] cells@[j]) by {
                    if j >= before.len() {
                        assert(cells@[j] == run(col as int, line as int, n as int)[j - before.len()]);
                    }
                }
                let ghost d = decode(s@, i + 1, (col + n) as int, line as int, 0, false);
                if let Some(rest) = d {
                    assert(before + (run(col as int, line as int, n as int) + rest) =~= cells@ + rest);
                }
            }
            col = col + n;
            pending = 0;
            counting = false;
        } else if b == 36 && line + n <= i32::MAX as i64 {
            line = line + n;
            col = 0;
            pending = 0;
            counting = false;
        } else {
            return None;
        }
        i += 1;
    }
    None
}

/// Reads a pattern and hands its live cells to `storage`, in the order of
/// the text. Nothing is handed over unless the whole text is well formed.
pub fn parse<P: LifePlaceMaker>(content: &str, storage: &mut P) -> (r: Result<LreLife, RleError>)
    requires
        forall|c: Coord| in_pattern(c) ==> #[trigger] old(storage).can_place(c),
    ensures
        match rle_pattern(content.spec_bytes()) {
            Some((x, y, cells)) => r == Ok::<LreLife, RleError>(LreLife { x: x as i32, y: y as i32 })
                && final(storage).placed() == old(storage).placed() + cells.map_values(
                |c: Coord| old(storage).cell_for(c),
            ),
            None => r == Err::<LreLife, RleError>(RleError) && *final(storage) == *old(storage),
        },
{
    let s = content.as_bytes();
    let hdr = get_x_y(s);
    let (x, y, k) = match hdr {
        Some(h) => h,
        None => return Err(RleError),
    };
    assert(s@ == content.spec_bytes());
    assert(header(s@) is Some);
    let cells = match get_body_contents(s, k) {
        Some(c) => c,
        None => return Err(RleError),
    };
    let ghost f = |c: Coord| old(storage).cell_for(c);
    let mut i: usize = 0;
    while i < cells.len()
        invariant
            i <= cells@.len(),
            forall|j: int| 0 <= j < cells@.len() ==> in_pattern(#[trigger] cells@[j]),
            forall|c: Coord| #[trigger] storage.can_place(c) == old(storage).can_place(c),
            forall|c: Coord| #[trigger] storage.cell_for(c) == old(storage).cell_for(c),
            forall|c: Coord| in_pattern(c) ==> #[trigger] old(storage).can_place(c),
            f == (|c: Coord| old(storage).cell_for(c)),
            storage.placed() == old(storage).placed() + cells@.subrange(0, i as int).map_values(f),
        decreases cells@.len() - i,
    {
        let c = cells[i];
        assert(storage.can_place(c));
        storage.make_cell_alive(c);
        assert(cells@.subrange(0, i + 1).map_values(f) =~= cells@.subrange(0, i as int).map_values(
            f,
        ).push(f(c)));
        i += 1;
    }
    assert(cells@.subrange(0, cells@.len() as int) =~= cells@);
    Ok(LreLife { x, y })
}

} // verus!
