//! Reading a processing-time matrix from comma-separated text.
//!
//! Lines are separated by `\n`; a final line ending adds no line. Blank
//! lines and lines starting with `#` (after trimming) are skipped, as are
//! lines whose cells are all empty. Every other line is a row: its cells,
//! separated by commas and trimmed of white space, are decimal `i32`
//! literals with an optional sign.

use vstd::prelude::*;

verus! {

/// Why a text was not read as a matrix.
#[derive(Debug, Clone, PartialEq, Eq)]
pub enum TableError {
    /// A cell of line `line` (counted from one) is not an `i32`.
    InvalidNumber { line: usize, cell: String },
    /// No line holds data.
    NoData,
}

/// The pieces of the first `i` characters of `s` between separators.
pub open spec fn split_to(s: Seq<char>, sep: char, i: int) -> Seq<Seq<char>>
    decreases i,
{
    if i <= 0 {
        seq![Seq::<char>::empty()]
    } else {
        let prev = split_to(s, sep, i - 1);
        if s[i - 1] == sep {
            prev.push(Seq::<char>::empty())
        } else {
            prev.drop_last().push(prev.last().push(s[i - 1]))
        }
    }
}

/// The pieces of `s` between separators.
pub open spec fn split_on(s: Seq<char>, sep: char) -> Seq<Seq<char>> {
    split_to(s, sep, s.len() as int)
}

/// The lines of `s`: a last empty piece (after a final line ending, or of
/// an empty text) is not a line.
pub open spec fn lines_of(s: Seq<char>) -> Seq<Seq<char>> {
    let pieces = split_on(s, '\n');
    if pieces.last().len() == 0 {
        pieces.drop_last()
    } else {
        pieces
    }
}

/// The characters that `str::trim` removes: Unicode white space.
pub open spec fn is_space(c: char) -> bool {
    c == ' ' || c == '\t' || c == '\n' || c == '\r' || c == '\x0B' || c == '\x0C' || c == '\u{85}' || c == '\u{A0}'
        || c == '\u{1680}' || ('\u{2000}' <= c && c <= '\u{200A}') || c == '\u{2028}' || c == '\u{2029}' || c
        == '\u{202F}' || c == '\u{205F}' || c == '\u{3000}'
}

pub open spec fn trim_start(t: Seq<char>) -> Seq<char>
    decreases t.len(),
{
    if t.len() > 0 && is_space(t[0]) {
        trim_start(t.subrange(1, t.len() as int))
    } else {
        t
    }
}

pub open spec fn trim_end(t: Seq<char>) -> Seq<char>
    decreases t.len(),
{
    if t.len() > 0 && is_space(t.last()) {
        trim_end(t.drop_last())
    } else {
        t
    }
}

/// `t` without leading and trailing white space.
pub open spec fn trim(t: Seq<char>) -> Seq<char> {
    trim_end(trim_start(t))
}

/// The trimmed cells of a line.
pub open spec fn cells_of(line: Seq<char>) -> Seq<Seq<char>> {
    split_on(line, ',').map_values(|c: Seq<char>| trim(c))
}

/// A line that holds a row: not blank, not a comment, not all empty cells.
pub open spec fn holds_row(line: Seq<char>) -> bool {
    &&& trim(line).len() > 0
    &&& trim(line)[0] != '#'
    &&& exists|j: int| 0 <= j < cells_of(line).len() && #[trigger] cells_of(line)[j].len() > 0
}

pub open spec fn is_digit(c: char) -> bool {
    '0' <= c && c <= '9'
}

/// Value of the decimal digits `t`.
pub open spec fn digits_value(t: Seq<char>) -> int
    decreases t.len(),
{
    if t.len() == 0 {
        0
    } else {
        digits_value(t.drop_last()) * 10 + (t.last() as int - '0' as int)
    }
}

pub open spec fn all_digits(t: Seq<char>) -> bool {
    t.len() > 0 && forall|k: int| 0 <= k < t.len() ==> is_digit(#[trigger] t[k])
}

/// The integer that a cell denotes: digits with an optional sign, when
/// they are well formed (the range is checked separately).
pub open spec fn literal_value(t: Seq<char>) -> Option<int> {
    if t.len() > 0 && t[0] == '-' && all_digits(t.subrange(1, t.len() as int)) {
        Some(-digits_value(t.subrange(1, t.len() as int)))
    } else if t.len() > 0 && t[0] == '+' && all_digits(t.subrange(1, t.len() as int)) {
        Some(digits_value(t.subrange(1, t.len() as int)))
    } else if all_digits(t) {
        Some(digits_value(t))
    } else {
        None
    }
}

/// A cell is an `i32` literal.
pub open spec fn cell_ok(t: Seq<char>) -> bool {
    match literal_value(t) {
        Some(v) => i32::MIN <= v <= i32::MAX,
        None => false,
    }
}

pub open spec fn cell_value(t: Seq<char>) -> int {
    literal_value(t).unwrap()
}

/// Index of the first cell from `j` on that is not an `i32` literal
/// (the number of cells when there is none).
pub open spec fn first_bad(cs: Seq<Seq<char>>, j: int) -> int
    decreases cs.len() - j,
{
    if j >= cs.len() {
        cs.len() as int
    } else if !cell_ok(cs[j]) {
        j
    } else {
        first_bad(cs, j + 1)
    }
}

/// The values of a row of good cells.
pub open spec fn row_values(cs: Seq<Seq<char>>) -> Seq<i32> {
    Seq::new(cs.len(), |j: int| cell_value(cs[j]) as i32)
}

/// The rows of the lines from `i` on, or the line number (counted from
/// one) and text of the first cell that is not an `i32`.
pub open spec fn rows_from(ls: Seq<Seq<char>>, i: int) -> Result<Seq<Seq<i32>>, (int, Seq<char>)>
    decreases ls.len() - i,
{
    if i >= ls.len() {
        Ok(Seq::empty())
    } else if !holds_row(ls[i]) {
        rows_from(ls, i + 1)
    } else {
        let cs = cells_of(ls[i]);
        let b = first_bad(cs, 0);
        if b < cs.len() {
            Err((i + 1, cs[b]))
        } else {
            match rows_from(ls, i + 1) {
                Ok(rest) => Ok(seq![row_values(cs)] + rest),
                Err(e) => Err(e),
            }
        }
    }
}

/// The rows of a text, as views.
pub open spec fn rows_view(t: Seq<Vec<i32>>) -> Seq<Seq<i32>> {
    t.map_values(|r: Vec<i32>| r@)
}

/// Relies on `String::push`: appends one character.
#[verifier::external_body]
fn push_char(s: &mut String, c: char)
    ensures
        final(s)@ == old(s)@.push(c),
{
    s.push(c);
}

/// The characters of `content`.
fn chars_of(content: &str) -> (r: Vec<char>)
    ensures
        r@ == content@,
{
    let n = content.unicode_len();
    let mut r: Vec<char> = Vec::new();
    let mut i: usize = 0;
    while i < n
        invariant
            0 <= i <= n,
            n == content@.len(),
            r@ =~= content@.take(i as int),
        decreases n - i,
    {
        r.push(content.get_char(i));
        i = i + 1;
    }
    assert(r@ =~= content@);
    r
}

/// The pieces of `t[from..to]` between separators.
fn split_chars(t: &Vec<char>, from: usize, to: usize, sep: char) -> (r: Vec<Vec<char>>)
    requires
        from <= to <= t@.len(),
    ensures
        r@.map_values(|v: Vec<char>| v@) == split_on(t@.subrange(from as int, to as int), sep),
        r@.len() >= 1,
{
    let ghost u = t@.subrange(from as int, to as int);
    let mut done: Vec<Vec<char>> = Vec::new();
    let mut current: Vec<char> = Vec::new();
    let mut i: usize = from;
    while i < to
        invariant
            from <= i <= to,
            to <= t@.len(),
            u == t@.subrange(from as int, to as int),
            done@.map_values(|v: Vec<char>| v@).push(current@) == split_to(u, sep, i - from),
        decreases to - i,
    {
        let c = t[i];
        let ghost prev = split_to(u, sep, i - from);
        assert(u[i - from] == c);
        if c == sep {
            let finished = current;
            done.push(finished);
            current = Vec::new();
            assert(done@.map_values(|v: Vec<char>| v@) =~= prev);
        } else {
            current.push(c);
            assert(done@.map_values(|v: Vec<char>| v@) =~= prev.drop_last());
        }
        i = i + 1;
        assert(done@.map_values(|v: Vec<char>| v@).push(current@) =~= split_to(u, sep, i - from));
    }
    done.push(current);
    assert(done@.map_values(|v: Vec<char>| v@) =~= split_to(u, sep, to - from));
    done
}

proof fn lemma_trim_start_suffix(t: Seq<char>, a: int)
    requires
        0 <= a <= t.len(),
        forall|k: int| 0 <= k < a ==> is_space(#[trigger] t[k]),
    ensures
        trim_start(t) == trim_start(t.subrange(a, t.len() as int)),
    decreases a,
{
    if a > 0 {
        let t1 = t.subrange(1, t.len() as int);
        assert forall|k: int| 0 <= k < a - 1 implies is_space(#[trigger] t1[k]) by {
            assert(t1[k] == t[k + 1]);
        }
        lemma_trim_start_suffix(t1, a - 1);
        assert(t1.subrange(a - 1, t1.len() as int) =~= t.subrange(a, t.len() as int));
        assert(is_space(t[0]));
        assert(trim_start(t) == trim_start(t1));
    } else {
        assert(t.subrange(0, t.len() as int) =~= t);
    }
}

proof fn lemma_trim_end_prefix(t: Seq<char>, b: int)
    requires
        0 <= b <= t.len(),
        forall|k: int| b <= k < t.len() ==> is_space(#[trigger] t[k]),
    ensures
        trim_end(t) == trim_end(t.subrange(0, b)),
    decreases t.len() - b,
{
    if b < t.len() {
        let t1 = t.drop_last();
        lemma_trim_end_prefix(t1, b);
        assert(t1.subrange(0, b) =~= t.subrange(0, b));
    } else {
        assert(t.subrange(0, b) =~= t);
    }
}

/// Bounds of `v` without leading and trailing white space.
fn trim_bounds(v: &Vec<char>) -> (r: (usize, usize))
    ensures
        r.0 <= r.1 <= v@.len(),
        v@.subrange(r.0 as int, r.1 as int) == trim(v@),
{
    let n = v.len();
    let mut a: usize = 0;
    while a < n && is_space_char(v[a])
        invariant
            0 <= a <= n,
            n == v@.len(),
            forall|k: int| 0 <= k < a ==> is_space(#[trigger] v@[k]),
        decreases n - a,
    {
        a = a + 1;
    }
    proof {
        lemma_trim_start_suffix(v@, a as int);
    }
    let ghost w = v@.subrange(a as int, n as int);
    assert(trim_start(w) == w);
    let mut b: usize = n;
    while b > a && is_space_char(v[b - 1])
        invariant
            a <= b <= n,
            n == v@.len(),
            forall|k: int| b <= k < n ==> is_space(#[trigger] v@[k]),
        decreases b,
    {
        b = b - 1;
    }
    proof {
        assert forall|k: int| b - a <= k < w.len() implies is_space(#[trigger] w[k]) by {
            assert(w[k] == v@[k + a]);
        }
        lemma_trim_end_prefix(w, b - a);
        assert(w.subrange(0, b - a) =~= v@.subrange(a as int, b as int));
        let x = v@.subrange(a as int, b as int);
        if x.len() > 0 {
            assert(x.last() == v@[b - 1]);
        }
    }
    (a, b)
}

fn is_space_char(c: char) -> (r: bool)
    ensures
        r == is_space(c),
{
    c == ' ' || c == '\t' || c == '\n' || c == '\r' || c == '\x0B' || c == '\x0C' || c == '\u{85}' || c == '\u{A0}'
        || c == '\u{1680}' || ('\u{2000}' <= c && c <= '\u{200A}') || c == '\u{2028}' || c == '\u{2029}' || c
        == '\u{202F}' || c == '\u{205F}' || c == '\u{3000}'
}

proof fn lemma_digits_grow(t: Seq<char>, k: int)
    requires
        0 <= k <= t.len(),
        forall|c: int| 0 <= c < t.len() ==> is_digit(#[trigger] t[c]),
    ensures
        0 <= digits_value(t.take(k)) <= digits_value(t),
    decreases t.len(),
{
    if t.len() > 0 {
        if k == t.len() {
            assert(t.take(k) =~= t);
            lemma_digits_grow(t.drop_last(), k - 1);
            assert(t.drop_last().take(k - 1) =~= t.drop_last());
        } else {
            lemma_digits_grow(t.drop_last(), k);
            assert(t.drop_last().take(k) =~= t.take(k));
            lemma_digits_grow(t.drop_last(), t.len() - 1);
            assert(t.drop_last().take(t.len() - 1) =~= t.drop_last());
        }
    } else {
        assert(t.take(k) =~= t);
    }
}

/// The value of the cell `v[a..b]` when it is an `i32` literal.
fn parse_cell(v: &Vec<char>, a: usize, b: usize) -> (r: Option<i32>)
    requires
        a <= b <= v@.len(),
    ensures
        r is Some <==> cell_ok(v@.subrange(a as int, b as int)),
        r matches Some(x) ==> x as int == cell_value(v@.subrange(a as int, b as int)),
{
    let ghost t = v@.subrange(a as int, b as int);
    if a == b {
        assert(!all_digits(t));
        return None;
    }
    let negative = v[a] == '-';
    let start: usize = if v[a] == '-' || v[a] == '+' { a + 1 } else { a };
    let ghost d = v@.subrange(start as int, b as int);
    proof {
        if start > a {
            assert(d =~= t.subrange(1, t.len() as int));
            assert(!is_digit(t[0]));
            assert(!all_digits(t));
        } else {
            assert(d =~= t);
        }
        assert(literal_value(t) == if all_digits(d) {
            Some(if negative { -digits_value(d) } else { digits_value(d) })
        } else {
            None::<int>
        });
    }
    if start == b {
        assert(!all_digits(d));
        return None;
    }
    let mut acc: i64 = 0;
    let mut k: usize = start;
    while k < b
        invariant
            start <= k <= b,
            b <= v@.len(),
            d == v@.subrange(start as int, b as int),
            forall|c: int| 0 <= c < k - start ==> is_digit(#[trigger] d[c]),
            acc as int == digits_value(d.take(k - start)),
            0 <= acc <= 2147483648,
            t == v@.subrange(a as int, b as int),
            literal_value(t) == if all_digits(d) {
                Some(if negative { -digits_value(d) } else { digits_value(d) })
            } else {
                None::<int>
            },
        decreases b - k,
    {
        let c = v[k];
        if !('0' <= c && c <= '9') {
            assert(!is_digit(d[k - start]));
            assert(!all_digits(d));
            return None;
        }
        assert(d.take(k - start + 1).drop_last() =~= d.take(k - start));
        acc = acc * 10 + (c as u32 - '0' as u32) as i64;
        k = k + 1;
        if acc > 2147483648 {
            proof {
                if all_digits(d) {
                    lemma_digits_grow(d, k - start);
                }
            }
            return None;
        }
    }
    assert(d.take(k - start) =~= d);
    assert(all_digits(d));
    if negative {
        Some((-acc) as i32)
    } else if acc > 2147483647 {
        None
    } else {
        Some(acc as i32)
    }
}

/// The rows before line `i`, followed by whatever the later lines give.
pub open spec fn combine(prefix: Seq<Seq<i32>>, rest: Result<Seq<Seq<i32>>, (int, Seq<char>)>) -> Result<
    Seq<Seq<i32>>,
    (int, Seq<char>),
> {
    match rest {
        Ok(r) => Ok(prefix + r),
        Err(e) => Err(e),
    }
}

proof fn lemma_first_bad_skip(cs: Seq<Seq<char>>, j: int)
    requires
        0 <= j <= cs.len(),
        forall|c: int| 0 <= c < j ==> cell_ok(#[trigger] cs[c]),
    ensures
        first_bad(cs, 0) == first_bad(cs, j),
    decreases j,
{
    if j > 0 {
        lemma_first_bad_skip(cs, j - 1);
    }
}

/// The text of `v[a..b]`.
fn text_of(v: &Vec<char>, a: usize, b: usize) -> (r: String)
    requires
        a <= b <= v@.len(),
    ensures
        r@ == v@.subrange(a as int, b as int),
{
    let mut r = String::new();
    let mut k: usize = a;
    while k < b
        invariant
            a <= k <= b,
            b <= v@.len(),
            r@ =~= v@.subrange(a as int, k as int),
        decreases b - k,
    {
        push_char(&mut r, v[k]);
        k = k + 1;
    }
    r
}

/// The row that a line holds, if it holds one, or the text of its first
/// cell that is not an `i32`.
fn parse_row(line: &Vec<char>) -> (r: Result<Option<Vec<i32>>, String>)
    ensures
        !holds_row(line@) ==> r matches Ok(None),
        holds_row(line@) && first_bad(cells_of(line@), 0) < cells_of(line@).len() ==> (r matches Err(cell) && cell@
            == cells_of(line@)[first_bad(cells_of(line@), 0)]),
        holds_row(line@) && first_bad(cells_of(line@), 0) >= cells_of(line@).len() ==> (r matches Ok(Some(row))
            && row@ == row_values(cells_of(line@))),
{
    let (a, b) = trim_bounds(line);
    if !(a < b && line[a] != '#') {
        proof {
            if a < b {
                assert(trim(line@)[0] == line@[a as int]);
            }
        }
        return Ok(None);
    }
    let cells = split_chars(line, 0, line.len(), ',');
    assert(line@.subrange(0, line@.len() as int) =~= line@);
    let ghost cs = cells_of(line@);
    let mut keep = false;
    let mut j: usize = 0;
    while j < cells.len()
        invariant
            0 <= j <= cells@.len(),
            cells@.map_values(|v: Vec<char>| v@) == split_on(line@, ','),
            cs == cells_of(line@),
            keep == exists|c: int| 0 <= c < j && #[trigger] cs[c].len() > 0,
        decreases cells@.len() - j,
    {
        let (ca, cb) = trim_bounds(&cells[j]);
        assert(cs[j as int] == trim(cells@[j as int]@));
        if ca < cb {
            keep = true;
        }
        j = j + 1;
    }
    if !keep {
        return Ok(None);
    }
    assert(holds_row(line@)) by {
        assert(trim(line@)[0] == line@[a as int]);
    }
    let mut row: Vec<i32> = Vec::new();
    let mut j: usize = 0;
    while j < cells.len()
        invariant
            0 <= j <= cells@.len(),
            holds_row(line@),
            cells@.map_values(|v: Vec<char>| v@) == split_on(line@, ','),
            cs == cells_of(line@),
            cs.len() == cells@.len(),
            forall|c: int| 0 <= c < j ==> cell_ok(#[trigger] cs[c]),
            row@ =~= row_values(cs).take(j as int),
        decreases cells@.len() - j,
    {
        let (ca, cb) = trim_bounds(&cells[j]);
        assert(cs[j as int] == cells@[j as int]@.subrange(ca as int, cb as int));
        match parse_cell(&cells[j], ca, cb) {
            Some(x) => {
                row.push(x);
            },
            None => {
                let cell = text_of(&cells[j], ca, cb);
                proof {
                    lemma_first_bad_skip(cs, j as int);
                }
                return Err(cell);
            },
        }
        j = j + 1;
    }
    proof {
        lemma_first_bad_skip(cs, cs.len() as int);
    }
    assert(row@ =~= row_values(cs));
    Ok(Some(row))
}

/// Reads the matrix that `content` holds: one row per line that holds
/// data, in order.
pub fn parse_table(content: &str) -> (r: Result<Vec<Vec<i32>>, TableError>)
    ensures
        r matches Ok(t) ==> rows_from(lines_of(content@), 0) == Ok::<Seq<Seq<i32>>, (int, Seq<char>)>(rows_view(t@))
            && t@.len() > 0,
        r matches Err(TableError::InvalidNumber { line, cell }) ==> rows_from(lines_of(content@), 0) == Err::<
            Seq<Seq<i32>>,
            (int, Seq<char>),
        >((line as int, cell@)),
        r matches Err(TableError::NoData) ==> rows_from(lines_of(content@), 0) == Ok::<
            Seq<Seq<i32>>,
            (int, Seq<char>),
        >(Seq::empty()),
{
    let chars = chars_of(content);
    let mut lines = split_chars(&chars, 0, chars.len(), '\n');
    assert(chars@.subrange(0, chars@.len() as int) =~= chars@);
    let last = lines.len() - 1;
    if lines[last].len() == 0 {
        lines.pop();
    }
    let ghost ls = lines_of(content@);
    assert(lines@.map_values(|v: Vec<char>| v@) =~= ls);
    let mut table: Vec<Vec<i32>> = Vec::new();
    let mut i: usize = 0;
    while i < lines.len()
        invariant
            0 <= i <= lines@.len(),
            lines@.map_values(|v: Vec<char>| v@) == ls,
            ls == lines_of(content@),
            rows_from(ls, 0) == combine(rows_view(table@), rows_from(ls, i as int)),
        decreases lines@.len() - i,
    {
        let line = &lines[i];
        assert(line@ == ls[i as int]);
        match parse_row(line) {
            Ok(Some(row)) => {
                proof {
                    assert(rows_view(table@.push(row)) =~= rows_view(table@) + seq![row@]);
                    let rest = rows_from(ls, i + 1);
                    if rest is Ok {
                        assert(rows_view(table@) + (seq![row@] + rest->Ok_0) =~= rows_view(table@) + seq![row@]
                            + rest->Ok_0);
                    }
                }
                table.push(row);
            },
            Ok(None) => {},
            Err(cell) => {
                proof {
                    let cs = cells_of(ls[i as int]);
                    assert(holds_row(ls[i as int]));
                    assert(first_bad(cs, 0) < cs.len());
                    assert(rows_from(ls, i as int) == Err::<Seq<Seq<i32>>, (int, Seq<char>)>((i + 1, cell@)));
                }
                return Err(TableError::InvalidNumber { line: i + 1, cell });
            },
        }
        i = i + 1;
    }
    if table.len() == 0 {
        assert(rows_view(table@) =~= Seq::<Seq<i32>>::empty());
        return Err(TableError::NoData);
    }
    assert(rows_view(table@) + Seq::<Seq<i32>>::empty() =~= rows_view(table@));
    Ok(table)
}

impl TableError {
    /// The message shown to a user.
    pub fn message(&self) -> (r: String)
        ensures
            r@ == match *self {
                TableError::InvalidNumber { line, cell } => "Ошибка в строке "@ + crate::report::dec(line as int)
                    + ": не удалось распарсить \""@ + cell@ + "\" как число"@,
                TableError::NoData => "Данные в файле не найдены"@,
            },
    {
        let mut out = String::new();
        match self {
            TableError::InvalidNumber { line, cell } => {
                out.append("Ошибка в строке ");
                crate::report::push_unsigned(&mut out, *line as u128);
                out.append(": не удалось распарсить \"");
                out.append(cell.as_str());
                out.append("\" как число");
            },
            TableError::NoData => {
                out.append("Данные в файле не найдены");
            },
        }
        out
    }
}

} // verus!
