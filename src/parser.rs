use vstd::prelude::*;
use crate::nonogram::{
    build_error, BuilderError, CellState, Constraint, Nonogram, NonogramBuilder,
};

verus! {

/// An ASCII whitespace byte: space, tab, line feed, vertical tab, form feed
/// or carriage return.
pub open spec fn is_ws(b: u8) -> bool {
    b == 32 || (9 <= b <= 13)
}

/// The UTF-8 encoding of a two-byte White_Space character: U+0085, U+00A0.
pub open spec fn is_ws2(a: u8, b: u8) -> bool {
    a == 0xC2 && (b == 0x85 || b == 0xA0)
}

/// The UTF-8 encoding of a three-byte White_Space character: U+1680,
/// U+2000 to U+200A, U+2028, U+2029, U+202F, U+205F, U+3000.
pub open spec fn is_ws3(a: u8, b: u8, c: u8) -> bool {
    ||| a == 0xE1 && b == 0x9A && c == 0x80
    ||| a == 0xE2 && b == 0x80 && ((0x80 <= c <= 0x8A) || c == 0xA8 || c == 0xA9 || c == 0xAF)
    ||| a == 0xE2 && b == 0x81 && c == 0x9F
    ||| a == 0xE3 && b == 0x80 && c == 0x80
}

/// Length of the whitespace character that `s` starts with, or 0.
pub open spec fn ws_len_start(s: Seq<u8>) -> int {
    if s.len() >= 1 && is_ws(s[0]) {
        1
    } else if s.len() >= 2 && is_ws2(s[0], s[1]) {
        2
    } else if s.len() >= 3 && is_ws3(s[0], s[1], s[2]) {
        3
    } else {
        0
    }
}

/// Length of the whitespace character that `s` ends with, or 0.
pub open spec fn ws_len_end(s: Seq<u8>) -> int {
    let n = s.len() as int;
    if n >= 1 && is_ws(s[n - 1]) {
        1
    } else if n >= 2 && is_ws2(s[n - 2], s[n - 1]) {
        2
    } else if n >= 3 && is_ws3(s[n - 3], s[n - 2], s[n - 1]) {
        3
    } else {
        0
    }
}

/// `s` without its leading whitespace.
pub open spec fn trim_start(s: Seq<u8>) -> Seq<u8>
    decreases s.len(),
{
    if ws_len_start(s) > 0 {
        trim_start(s.skip(ws_len_start(s)))
    } else {
        s
    }
}

/// `s` without its trailing whitespace.
pub open spec fn trim_end(s: Seq<u8>) -> Seq<u8>
    decreases s.len(),
{
    if ws_len_end(s) > 0 {
        trim_end(s.take(s.len() - ws_len_end(s)))
    } else {
        s
    }
}

/// `s` without leading or trailing whitespace.
pub open spec fn trim(s: Seq<u8>) -> Seq<u8> {
    trim_end(trim_start(s))
}

/// An ASCII decimal digit.
pub open spec fn is_digit(b: u8) -> bool {
    48 <= b <= 57
}

/// Every byte of `d` is a decimal digit.
pub open spec fn all_digits(d: Seq<u8>) -> bool {
    forall|i: int| 0 <= i < d.len() ==> is_digit(#[trigger] d[i])
}

/// The number that the decimal digits `s` write.
pub open spec fn digits_value(s: Seq<u8>) -> int
    decreases s.len(),
{
    if s.len() == 0 {
        0
    } else {
        digits_value(s.drop_last()) * 10 + (s.last() - 48)
    }
}

/// `s` without a leading `+`.
pub open spec fn unsigned_part(s: Seq<u8>) -> Seq<u8> {
    if s.len() > 0 && s[0] == 43 {
        s.drop_first()
    } else {
        s
    }
}

/// The `usize` that `s` writes in decimal, after an optional `+`; `None`
/// when there is no digit, a byte that is not one, or the value is too large.
pub open spec fn parse_usize_spec(s: Seq<u8>) -> Option<usize> {
    let d = unsigned_part(s);
    if d.len() == 0 || !all_digits(d) {
        None
    } else if digits_value(d) > usize::MAX {
        None
    } else {
        Some(digits_value(d) as usize)
    }
}

/// `s` split at each byte `sep`: one more piece than there are separators.
pub open spec fn pieces(s: Seq<u8>, sep: u8) -> Seq<Seq<u8>>
    decreases s.len(),
{
    if s.len() == 0 {
        seq![Seq::empty()]
    } else {
        let p = pieces(s.drop_last(), sep);
        if s.last() == sep {
            p.push(Seq::empty())
        } else {
            p.update(p.len() - 1, p.last().push(s.last()))
        }
    }
}

/// Length of the whitespace character that `s[a..b]` starts with, or 0.
fn lead_ws(s: &[u8], a: usize, b: usize) -> (r: usize)
    requires
        a <= b <= s@.len(),
    ensures
        r == ws_len_start(s@.subrange(a as int, b as int)),
{
    let n = b - a;
    if n >= 1 && (s[a] == 32 || (9 <= s[a] && s[a] <= 13)) {
        1
    } else if n >= 2 && s[a] == 0xC2 && (s[a + 1] == 0x85 || s[a + 1] == 0xA0) {
        2
    } else if n >= 3 && ((s[a] == 0xE1 && s[a + 1] == 0x9A && s[a + 2] == 0x80) || (s[a] == 0xE2
        && s[a + 1] == 0x80 && ((0x80 <= s[a + 2] && s[a + 2] <= 0x8A) || s[a + 2] == 0xA8 || s[a
        + 2] == 0xA9 || s[a + 2] == 0xAF)) || (s[a] == 0xE2 && s[a + 1] == 0x81 && s[a + 2] == 0x9F)
        || (s[a] == 0xE3 && s[a + 1] == 0x80 && s[a + 2] == 0x80)) {
        3
    } else {
        0
    }
}

/// Length of the whitespace character that `s[a..b]` ends with, or 0.
fn trail_ws(s: &[u8], a: usize, b: usize) -> (r: usize)
    requires
        a <= b <= s@.len(),
    ensures
        r == ws_len_end(s@.subrange(a as int, b as int)),
{
    let n = b - a;
    if n >= 1 && (s[b - 1] == 32 || (9 <= s[b - 1] && s[b - 1] <= 13)) {
        1
    } else if n >= 2 && s[b - 2] == 0xC2 && (s[b - 1] == 0x85 || s[b - 1] == 0xA0) {
        2
    } else if n >= 3 && ((s[b - 3] == 0xE1 && s[b - 2] == 0x9A && s[b - 1] == 0x80) || (s[b - 3]
        == 0xE2 && s[b - 2] == 0x80 && ((0x80 <= s[b - 1] && s[b - 1] <= 0x8A) || s[b - 1] == 0xA8
        || s[b - 1] == 0xA9 || s[b - 1] == 0xAF)) || (s[b - 3] == 0xE2 && s[b - 2] == 0x81 && s[b
        - 1] == 0x9F) || (s[b - 3] == 0xE3 && s[b - 2] == 0x80 && s[b - 1] == 0x80)) {
        3
    } else {
        0
    }
}

/// The bounds of `trim(s)` in `s`.
fn trim_bounds(s: &[u8]) -> (r: (usize, usize))
    ensures
        r.0 <= r.1 <= s@.len(),
        s@.subrange(r.0 as int, r.1 as int) == trim(s@),
{
    let n = s.len();
    let mut a: usize = 0;
    assert(s@.subrange(0, n as int) =~= s@);
    loop
        invariant
            n == s@.len(),
            a <= n,
            trim_start(s@) == trim_start(s@.subrange(a as int, n as int)),
        ensures
            a <= n,
            trim_start(s@) == s@.subrange(a as int, n as int),
        decreases n - a,
    {
        let k = lead_ws(s, a, n);
        if k == 0 {
            break;
        }
        assert(s@.subrange(a as int, n as int).skip(k as int) =~= s@.subrange(a + k, n as int));
        a = a + k;
    }
    assert(trim_start(s@) == s@.subrange(a as int, n as int));
    let mut b: usize = n;
    loop
        invariant
            n == s@.len(),
            a <= b <= n,
            trim(s@) == trim_end(s@.subrange(a as int, b as int)),
        ensures
            a <= b <= n,
            trim(s@) == s@.subrange(a as int, b as int),
        decreases b,
    {
        let k = trail_ws(s, a, b);
        if k == 0 {
            break;
        }
        assert(s@.subrange(a as int, b as int).take(b - a - k) =~= s@.subrange(a as int, b - k));
        b = b - k;
    }
    (a, b)
}

/// `s` without leading or trailing whitespace.
pub fn trim_bytes(s: &[u8]) -> (r: &[u8])
    ensures
        r@ == trim(s@),
{
    let (a, b) = trim_bounds(s);
    &s[a..b]
}

proof fn lemma_digits_prefix(s: Seq<u8>, j: int)
    requires
        0 <= j <= s.len(),
        forall|i: int| 0 <= i < s.len() ==> is_digit(s[i]),
    ensures
        digits_value(s.take(j)) <= digits_value(s),
        digits_value(s) >= 0,
    decreases s.len(),
{
    if s.len() > 0 {
        if j == s.len() {
            assert(s.take(j) =~= s);
            lemma_digits_prefix(s.drop_last(), 0);
        } else {
            lemma_digits_prefix(s.drop_last(), j);
            assert(s.drop_last().take(j) =~= s.take(j));
        }
    } else {
        assert(s.take(j) =~= s);
    }
}

/// The `usize` that `s` writes in decimal, after an optional `+`.
pub fn parse_usize(s: &[u8]) -> (r: Option<usize>)
    ensures
        r == parse_usize_spec(s@),
{
    let start: usize = if s.len() > 0 && s[0] == 43 {
        1
    } else {
        0
    };
    let ghost d = unsigned_part(s@);
    assert(d =~= s@.subrange(start as int, s@.len() as int));
    if start == s.len() {
        assert(d.len() == 0);
        return None;
    }
    let mut i: usize = start;
    while i < s.len()
        invariant
            start <= i <= s@.len(),
            d == s@.subrange(start as int, s@.len() as int),
            d == unsigned_part(s@),
            forall|k: int| start <= k < i ==> is_digit(s@[k]),
        decreases s@.len() - i,
    {
        if s[i] < 48 || s[i] > 57 {
            assert(!is_digit(d[i - start]));
            assert(!all_digits(d));
            return None;
        }
        i = i + 1;
    }
    let mut v: usize = 0;
    let mut i: usize = start;
    while i < s.len()
        invariant
            start <= i <= s@.len(),
            d == s@.subrange(start as int, s@.len() as int),
            d == unsigned_part(s@),
            forall|k: int| 0 <= k < d.len() ==> is_digit(d[k]),
            v == digits_value(d.take(i - start)),
        decreases s@.len() - i,
    {
        assert(d.take(i - start + 1).drop_last() =~= d.take(i - start));
        assert(is_digit(d[i - start]));
        let digit = (s[i] - 48) as usize;
        if v > (usize::MAX - digit) / 10 {
            proof {
                lemma_digits_prefix(d, i - start + 1);
                let m = usize::MAX as int;
                assert(v * 10 + digit > m) by (nonlinear_arith)
                    requires
                        v > (m - digit) / 10,
                        0 <= digit <= 9,
                ;
            }
            return None;
        }
        assert(v * 10 + digit <= usize::MAX) by (nonlinear_arith)
            requires
                v <= (usize::MAX - digit) / 10,
                0 <= digit <= 9,
        ;
        v = v * 10 + digit;
        i = i + 1;
    }
    assert(d.take(d.len() as int) =~= d);
    Some(v)
}

/// `s` without one trailing carriage return.
pub open spec fn strip_cr(s: Seq<u8>) -> Seq<u8> {
    if s.len() > 0 && s.last() == 13 {
        s.drop_last()
    } else {
        s
    }
}

/// The lines of `src`: split at line feeds, a carriage return before a line
/// feed dropped, and no empty last line after a final line feed.
pub open spec fn lines_of(src: Seq<u8>) -> Seq<Seq<u8>> {
    let p = pieces(src, 10);
    let body = p.drop_last().map_values(|l: Seq<u8>| strip_cr(l));
    if p.last().len() == 0 {
        body
    } else {
        body.push(p.last())
    }
}

/// Position of the first space in `s`, or its length when it has none.
pub open spec fn space_at(s: Seq<u8>) -> int
    decreases s.len(),
{
    if s.len() == 0 || s[0] == 32 {
        0
    } else {
        1 + space_at(s.drop_first())
    }
}

/// The numbers of a comma-separated list whose fields are `fs`, each field
/// trimmed; `None` when a field is not a number.
pub open spec fn parse_fields(fs: Seq<Seq<u8>>) -> Option<Seq<usize>>
    decreases fs.len(),
{
    if fs.len() == 0 {
        Some(Seq::empty())
    } else {
        match (parse_fields(fs.drop_last()), parse_usize_spec(trim(fs.last()))) {
            (Some(v), Some(x)) => Some(v.push(x)),
            _ => None,
        }
    }
}

/// The run lengths written in `t` as a comma-separated list.
pub open spec fn parse_list_spec(t: Seq<u8>) -> Option<Seq<usize>> {
    parse_fields(pieces(t, 44))
}

pub open spec fn kw_columns() -> Seq<u8> {
    seq![99u8, 111, 108, 117, 109, 110, 115]
}

pub open spec fn kw_rows() -> Seq<u8> {
    seq![114u8, 111, 119, 115]
}

pub open spec fn kw_width() -> Seq<u8> {
    seq![119u8, 105, 100, 116, 104]
}

pub open spec fn kw_height() -> Seq<u8> {
    seq![104u8, 101, 105, 103, 104, 116]
}

/// What the parser reads next: header lines, or the constraints of the
/// columns or of the rows.
#[derive(Copy, Clone, Debug, PartialEq, Eq, Structural)]
pub enum ParserMode {
    Main,
    Cols,
    Rows,
}

impl Default for ParserMode {
    fn default() -> (r: Self)
        ensures
            r == ParserMode::Main,
    {
        ParserMode::Main
    }
}

/// Why a puzzle description was refused.
#[derive(Copy, Clone, Debug, PartialEq, Eq, Structural)]
pub enum ParserError {
    InternalError,
    ParseIntError,
    BuilderError(BuilderError),
}

/// The state of a parse as plain values.
pub struct ParseModel {
    pub mode: ParserMode,
    pub width: Option<usize>,
    pub height: Option<usize>,
    pub rows: Seq<Seq<usize>>,
    pub cols: Seq<Seq<usize>>,
}

/// Effect of a header line: `columns` and `rows` start a constraint block,
/// `width` and `height` set a dimension once, anything else is skipped.
pub open spec fn header_step(m: ParseModel, line: Seq<u8>) -> Result<ParseModel, ParserError> {
    let k = space_at(line);
    let cmd = line.take(k);
    let args = line.skip(k);
    if cmd == kw_columns() {
        Ok(ParseModel { mode: ParserMode::Cols, ..m })
    } else if cmd == kw_rows() {
        Ok(ParseModel { mode: ParserMode::Rows, ..m })
    } else if cmd == kw_height() {
        match parse_usize_spec(trim(args)) {
            None => Err(ParserError::ParseIntError),
            Some(v) => if m.height.is_some() {
                Err(ParserError::BuilderError(BuilderError::HeightAlreadySet))
            } else {
                Ok(ParseModel { height: Some(v), ..m })
            },
        }
    } else if cmd == kw_width() {
        match parse_usize_spec(trim(args)) {
            None => Err(ParserError::ParseIntError),
            Some(v) => if m.width.is_some() {
                Err(ParserError::BuilderError(BuilderError::WidthAlreadySet))
            } else {
                Ok(ParseModel { width: Some(v), ..m })
            },
        }
    } else {
        Ok(m)
    }
}

/// Effect of a line inside a constraint block: a blank line ends the block,
/// a list of numbers is the next constraint, anything else ends the block
/// and is read as a header line.
pub open spec fn constraint_step(m: ParseModel, line: Seq<u8>) -> Result<ParseModel, ParserError> {
    let t = trim(line);
    if t.len() == 0 {
        Ok(ParseModel { mode: ParserMode::Main, ..m })
    } else {
        match parse_list_spec(t) {
            Some(v) => match m.mode {
                ParserMode::Rows => Ok(ParseModel { rows: m.rows.push(v), ..m }),
                ParserMode::Cols => Ok(ParseModel { cols: m.cols.push(v), ..m }),
                ParserMode::Main => Err(ParserError::InternalError),
            },
            None => header_step(ParseModel { mode: ParserMode::Main, ..m }, t),
        }
    }
}

/// Effect of one line.
pub open spec fn line_step(m: ParseModel, line: Seq<u8>) -> Result<ParseModel, ParserError> {
    match m.mode {
        ParserMode::Main => header_step(m, line),
        _ => constraint_step(m, line),
    }
}

/// Effect of the lines `lines` from the state `m`, stopping at the first error.
pub open spec fn parse_from(m: ParseModel, lines: Seq<Seq<u8>>) -> Result<ParseModel, ParserError>
    decreases lines.len(),
{
    if lines.len() == 0 {
        Ok(m)
    } else {
        match parse_from(m, lines.drop_last()) {
            Ok(m2) => line_step(m2, lines.last()),
            Err(e) => Err(e),
        }
    }
}

/// The constraints as plain sequences.
pub open spec fn constraint_views(cs: Seq<Constraint>) -> Seq<Seq<usize>> {
    cs.map_values(|c: Constraint| c@)
}

/// Position of the first space in `s`, or its length when it has none.
fn space_index(s: &[u8]) -> (r: usize)
    ensures
        r == space_at(s@),
        r <= s@.len(),
{
    let mut i: usize = 0;
    assert(s@.subrange(0, s@.len() as int) =~= s@);
    while i < s.len() && s[i] != 32
        invariant
            i <= s@.len(),
            space_at(s@) == i + space_at(s@.subrange(i as int, s@.len() as int)),
        decreases s@.len() - i,
    {
        assert(s@.subrange(i as int, s@.len() as int).drop_first() =~= s@.subrange(
            i + 1,
            s@.len() as int,
        ));
        i = i + 1;
    }
    i
}

/// Whether `s` and `w` hold the same bytes.
fn is_word(s: &[u8], w: &[u8]) -> (r: bool)
    ensures
        r == (s@ == w@),
{
    if s.len() != w.len() {
        return false;
    }
    let mut i: usize = 0;
    while i < s.len()
        invariant
            s@.len() == w@.len(),
            i <= s@.len(),
            forall|k: int| 0 <= k < i ==> s@[k] == w@[k],
        decreases s@.len() - i,
    {
        if s[i] != w[i] {
            return false;
        }
        i = i + 1;
    }
    assert(s@ =~= w@);
    true
}

/// The run lengths written in `t` as a comma-separated list of numbers, each
/// with optional surrounding whitespace; `None` when a field is no number.
pub fn parse_list(t: &[u8]) -> (r: Option<Vec<usize>>)
    ensures
        r.is_some() == parse_list_spec(t@).is_some(),
        r.is_some() ==> r.unwrap()@ == parse_list_spec(t@).unwrap(),
{
    let mut out: Vec<usize> = Vec::new();
    let mut ok = true;
    let mut start: usize = 0;
    let mut i: usize = 0;
    let ghost mut done: Seq<Seq<u8>> = Seq::empty();
    assert(t@.take(0) =~= Seq::<u8>::empty());
    assert(t@.subrange(0, 0) =~= Seq::<u8>::empty());
    while i < t.len()
        invariant
            start <= i <= t@.len(),
            pieces(t@.take(i as int), 44) == done.push(t@.subrange(start as int, i as int)),
            ok ==> parse_fields(done) == Some(out@),
            !ok ==> parse_fields(done).is_none(),
        decreases t@.len() - i,
    {
        assert(t@.take(i + 1).drop_last() =~= t@.take(i as int));
        let ghost cur = t@.subrange(start as int, i as int);
        if t[i] == 44 {
            if ok {
                match parse_usize(trim_bytes(&t[start..i])) {
                    Some(x) => out.push(x),
                    None => ok = false,
                }
            }
            proof {
                assert(done.push(cur).drop_last() =~= done);
                done = done.push(cur);
            }
            start = i + 1;
            assert(t@.subrange(start as int, i + 1) =~= Seq::<u8>::empty());
        } else {
            assert(t@.subrange(start as int, i + 1) =~= cur.push(t@[i as int]));
            assert(done.push(cur).update(done.len() as int, cur.push(t@[i as int])) =~= done.push(
                t@.subrange(start as int, i + 1),
            ));
        }
        i = i + 1;
    }
    assert(t@.take(t@.len() as int) =~= t@);
    let ghost cur = t@.subrange(start as int, t@.len() as int);
    if ok {
        match parse_usize(trim_bytes(&t[start..t.len()])) {
            Some(x) => out.push(x),
            None => ok = false,
        }
    }
    assert(done.push(cur).drop_last() =~= done);
    if ok {
        Some(out)
    } else {
        None
    }
}

/// Removes one pair of surrounding double quotes, if `s` has them.
pub fn unquote(s: &[u8]) -> (r: Vec<u8>)
    ensures
        s@.len() >= 2 && s@[0] == 34 && s@.last() == 34 ==> r@ == s@.subrange(1, s@.len() - 1),
        !(s@.len() >= 2 && s@[0] == 34 && s@.last() == 34) ==> r@ == s@,
{
    let (a, b) = if s.len() >= 2 && s[0] == 34 && s[s.len() - 1] == 34 {
        (1, s.len() - 1)
    } else {
        (0, s.len())
    };
    let mut r: Vec<u8> = Vec::new();
    let mut i: usize = a;
    while i < b
        invariant
            a <= i <= b <= s@.len(),
            r@ == s@.subrange(a as int, i as int),
        decreases b - i,
    {
        r.push(s[i]);
        i = i + 1;
        assert(r@ =~= s@.subrange(a as int, i as int));
    }
    assert(s@.subrange(0, s@.len() as int) =~= s@);
    r
}

impl Default for Parser {
    fn default() -> (r: Self)
        ensures
            r.model() == (ParseModel {
                mode: ParserMode::Main,
                width: None,
                height: None,
                rows: Seq::empty(),
                cols: Seq::empty(),
            }),
    {
        Parser::new()
    }
}

/// Reads a puzzle description: header lines `width <n>` and `height <n>`,
/// and blocks of comma-separated run lengths after `columns` and `rows`.
pub struct Parser {
    builder: NonogramBuilder,
    mode: ParserMode,
}

impl Parser {
    /// The parse so far as plain values.
    pub closed spec fn model(&self) -> ParseModel {
        ParseModel {
            mode: self.mode,
            width: self.builder.width,
            height: self.builder.height,
            rows: constraint_views(self.builder.rows@),
            cols: constraint_views(self.builder.cols@),
        }
    }

    pub fn new() -> (r: Parser)
        ensures
            r.model() == (ParseModel {
                mode: ParserMode::Main,
                width: None,
                height: None,
                rows: Seq::empty(),
                cols: Seq::empty(),
            }),
    {
        let r = Parser { builder: NonogramBuilder::new(), mode: ParserMode::Main };
        assert(constraint_views(r.builder.rows@) =~= Seq::empty());
        assert(constraint_views(r.builder.cols@) =~= Seq::empty());
        r
    }

    fn parse_header_line(&mut self, line: &[u8]) -> (r: Result<(), ParserError>)
        ensures
            header_step(old(self).model(), line@) matches Ok(m) ==> r.is_ok() && final(self).model() == m,
            header_step(old(self).model(), line@) matches Err(e) ==> r == Err::<(), ParserError>(e),
    {
        let k = space_index(line);
        let cmd = &line[0..k];
        let args = &line[k..line.len()];
        assert(cmd@ == line@.take(k as int));
        assert(args@ == line@.skip(k as int));
        let word_columns: Vec<u8> = vec![99u8, 111, 108, 117, 109, 110, 115];
        let word_rows: Vec<u8> = vec![114u8, 111, 119, 115];
        let word_height: Vec<u8> = vec![104u8, 101, 105, 103, 104, 116];
        let word_width: Vec<u8> = vec![119u8, 105, 100, 116, 104];
        assert(word_columns@ =~= kw_columns());
        assert(word_rows@ =~= kw_rows());
        assert(word_height@ =~= kw_height());
        assert(word_width@ =~= kw_width());
        if is_word(cmd, word_columns.as_slice()) {
            self.mode = ParserMode::Cols;
        } else if is_word(cmd, word_rows.as_slice()) {
            self.mode = ParserMode::Rows;
        } else if is_word(cmd, word_height.as_slice()) {
            match parse_usize(trim_bytes(args)) {
                None => {
                    return Err(ParserError::ParseIntError);
                },
                Some(v) => match self.builder.height(v) {
                    Ok(_) => {},
                    Err(e) => {
                        return Err(ParserError::BuilderError(e));
                    },
                },
            }
        } else if is_word(cmd, word_width.as_slice()) {
            match parse_usize(trim_bytes(args)) {
                None => {
                    return Err(ParserError::ParseIntError);
                },
                Some(v) => match self.builder.width(v) {
                    Ok(_) => {},
                    Err(e) => {
                        return Err(ParserError::BuilderError(e));
                    },
                },
            }
        }
        Ok(())
    }

    fn parse_constraint_line(&mut self, line: &[u8]) -> (r: Result<(), ParserError>)
        ensures
            constraint_step(old(self).model(), line@) matches Ok(m) ==> r.is_ok() && final(self).model()
                == m,
            constraint_step(old(self).model(), line@) matches Err(e) ==> r == Err::<(), ParserError>(
                e,
            ),
    {
        let t = trim_bytes(line);
        if t.len() == 0 {
            self.mode = ParserMode::Main;
            return Ok(());
        }
        match parse_list(t) {
            Some(v) => match self.mode {
                ParserMode::Rows => {
                    let ghost before = self.builder.rows@;
                    self.builder.push_row_constraint(v);
                    assert(constraint_views(self.builder.rows@) =~= constraint_views(before).push(v@));
                    Ok(())
                },
                ParserMode::Cols => {
                    let ghost before = self.builder.cols@;
                    self.builder.push_col_constraint(v);
                    assert(constraint_views(self.builder.cols@) =~= constraint_views(before).push(v@));
                    Ok(())
                },
                ParserMode::Main => Err(ParserError::InternalError),
            },
            None => {
                self.mode = ParserMode::Main;
                self.parse_header_line(t)
            },
        }
    }

    fn parse_line(&mut self, line: &[u8]) -> (r: Result<(), ParserError>)
        ensures
            line_step(old(self).model(), line@) matches Ok(m) ==> r.is_ok() && final(self).model() == m,
            line_step(old(self).model(), line@) matches Err(e) ==> r == Err::<(), ParserError>(e),
    {
        match self.mode {
            ParserMode::Main => self.parse_header_line(line),
            _ => self.parse_constraint_line(line),
        }
    }

    /// Reads the puzzle that `source` describes, line by line, and builds
    /// it. Fails with the first line's error, or when the dimensions are
    /// missing or disagree with the number of row and column constraints.
    pub fn parse(self, source: &[u8]) -> (r: Result<Nonogram, ParserError>)
        ensures
            parse_from(self.model(), lines_of(source@)) matches Err(e) ==> r == Err::<
                Nonogram,
                ParserError,
            >(e),
            parse_from(self.model(), lines_of(source@)) matches Ok(m) ==> {
                &&& build_error(m.width, m.height, m.rows.len(), m.cols.len()) matches Some(e)
                    ==> r == Err::<Nonogram, ParserError>(ParserError::BuilderError(e))
                &&& build_error(m.width, m.height, m.rows.len(), m.cols.len()) is None ==> r.is_ok() && r.unwrap().wf() && r.unwrap().width
                    == m.width.unwrap() && r.unwrap().height == m.height.unwrap()
                    && constraint_views(r.unwrap().rows@) == m.rows && constraint_views(
                    r.unwrap().cols@,
                ) == m.cols && r.unwrap().cells@ == Seq::new(
                    r.unwrap().cells@.len(),
                    |i: int| CellState::Undecided,
                )
            },
    {
        let ghost m0 = self.model();
        let mut p = self;
        let mut err: Option<ParserError> = None;
        let mut start: usize = 0;
        let mut i: usize = 0;
        let ghost mut done: Seq<Seq<u8>> = Seq::empty();
        assert(source@.take(0) =~= Seq::<u8>::empty());
        assert(source@.subrange(0, 0) =~= Seq::<u8>::empty());
        assert(done.map_values(|l: Seq<u8>| strip_cr(l)) =~= Seq::empty());
        while i < source.len()
            invariant
                start <= i <= source@.len(),
                pieces(source@.take(i as int), 10) == done.push(
                    source@.subrange(start as int, i as int),
                ),
                err.is_none() ==> parse_from(m0, done.map_values(|l: Seq<u8>| strip_cr(l))) == Ok::<
                    ParseModel,
                    ParserError,
                >(p.model()),
                err.is_some() ==> parse_from(m0, done.map_values(|l: Seq<u8>| strip_cr(l))) == Err::<
                    ParseModel,
                    ParserError,
                >(err.unwrap()),
            decreases source@.len() - i,
        {
            assert(source@.take(i + 1).drop_last() =~= source@.take(i as int));
            let ghost cur = source@.subrange(start as int, i as int);
            if source[i] == 10 {
                let ghost lines = done.map_values(|l: Seq<u8>| strip_cr(l));
                let ghost next = done.push(cur);
                assert(next.map_values(|l: Seq<u8>| strip_cr(l)) =~= lines.push(strip_cr(cur)));
                assert(lines.push(strip_cr(cur)).drop_last() =~= lines);
                if err.is_none() {
                    let end: usize = if i > start && source[i - 1] == 13 {
                        i - 1
                    } else {
                        i
                    };
                    let line = &source[start..end];
                    assert(line@ =~= strip_cr(cur));
                    match p.parse_line(line) {
                        Ok(()) => {},
                        Err(e) => {
                            err = Some(e);
                        },
                    }
                }
                proof {
                    assert(next.drop_last() =~= done);
                    done = next;
                }
                start = i + 1;
                assert(source@.subrange(start as int, i + 1) =~= Seq::<u8>::empty());
            } else {
                assert(source@.subrange(start as int, i + 1) =~= cur.push(source@[i as int]));
                assert(done.push(cur).update(done.len() as int, cur.push(source@[i as int]))
                    =~= done.push(source@.subrange(start as int, i + 1)));
            }
            i = i + 1;
        }
        assert(source@.take(source@.len() as int) =~= source@);
        let ghost cur = source@.subrange(start as int, source@.len() as int);
        let ghost lines = done.map_values(|l: Seq<u8>| strip_cr(l));
        assert(done.push(cur).drop_last() =~= done);
        assert(lines_of(source@) == if cur.len() == 0 {
            lines
        } else {
            lines.push(cur)
        });
        if err.is_none() && start < source.len() {
            assert(lines.push(cur).drop_last() =~= lines);
            match p.parse_line(&source[start..source.len()]) {
                Ok(()) => {},
                Err(e) => {
                    err = Some(e);
                },
            }
        } else if start < source.len() {
            assert(lines.push(cur).drop_last() =~= lines);
        }
        match err {
            Some(e) => Err(e),
            None => match p.builder.build() {
                Ok(n) => Ok(n),
                Err(e) => Err(ParserError::BuilderError(e)),
            },
        }
    }
}

} // verus!
