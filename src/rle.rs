//! Decoding run-length encoded patterns: header lines `#N name`, `#O author`
//! and `x = W, y = H`, then runs `<count><tag>` where `b` is a run of dead
//! cells, `o` a run of live cells, `$` ends rows and `!` ends the pattern.
use vstd::prelude::*;

verus! {

/// A decoded pattern: its live cells as `(col, row)`, the size the header
/// gives, and its name and author.
pub struct Pattern {
    pub pattern: Vec<(usize, usize)>,
    pub width: usize,
    pub height: usize,
    pub name: String,
    pub author: String,
}

/// What the text the bytes `b` encode is, invalid sequences replaced.
pub uninterp spec fn utf8_text(b: Seq<u8>) -> Seq<char>;

/// Relies on std's `String::from_utf8_lossy`: the text the bytes encode,
/// each invalid sequence replaced by U+FFFD; no bytes give no text.
#[verifier::external_body]
fn text_of(b: &Vec<u8>) -> (r: String)
    ensures
        r@ == utf8_text(b@),
        b@.len() == 0 ==> r@.len() == 0,
{
    String::from_utf8_lossy(b.as_slice()).into_owned()
}

pub open spec fn is_ws(c: u8) -> bool {
    c == 0x20 || c == 0x09 || c == 0x0a || c == 0x0b || c == 0x0c || c == 0x0d
}

pub open spec fn is_digit(c: u8) -> bool {
    0x30 <= c <= 0x39
}

/// The whitespace bytes.
pub open spec fn ws_set() -> Seq<u8> {
    seq![0x20u8, 0x09u8, 0x0au8, 0x0bu8, 0x0cu8, 0x0du8]
}

/// `s` without the bytes of `set` at its start.
pub open spec fn trim_start_by(s: Seq<u8>, set: Seq<u8>) -> Seq<u8>
    decreases s.len(),
{
    if s.len() > 0 && set.contains(s[0]) {
        trim_start_by(s.drop_first(), set)
    } else {
        s
    }
}

/// `s` without the bytes of `set` at its end.
pub open spec fn trim_end_by(s: Seq<u8>, set: Seq<u8>) -> Seq<u8>
    decreases s.len(),
{
    if s.len() > 0 && set.contains(s.last()) {
        trim_end_by(s.drop_last(), set)
    } else {
        s
    }
}

/// `s` without the bytes of `set` at either end.
pub open spec fn trim_by(s: Seq<u8>, set: Seq<u8>) -> Seq<u8> {
    trim_end_by(trim_start_by(s, set), set)
}

/// `s` without any whitespace.
pub open spec fn strip_ws(s: Seq<u8>) -> Seq<u8>
    decreases s.len(),
{
    if s.len() == 0 {
        s
    } else if is_ws(s.last()) {
        strip_ws(s.drop_last())
    } else {
        strip_ws(s.drop_last()).push(s.last())
    }
}

/// The first two comma-separated fields of `s`, and how many commas it has
/// (counting at most two).
pub open spec fn fields(s: Seq<u8>) -> (Seq<u8>, Seq<u8>, nat)
    decreases s.len(),
{
    if s.len() == 0 {
        (Seq::empty(), Seq::empty(), 0)
    } else {
        let (f0, f1, n) = fields(s.drop_last());
        let c = s.last();
        if c == 0x2c {
            (f0, f1, if n < 2 { n + 1 } else { n })
        } else if n == 0 {
            (f0.push(c), f1, n)
        } else if n == 1 {
            (f0, f1.push(c), n)
        } else {
            (f0, f1, n)
        }
    }
}

/// The value of the decimal digits `s`.
pub open spec fn digits_value(s: Seq<u8>) -> nat
    decreases s.len(),
{
    if s.len() == 0 {
        0
    } else {
        digits_value(s.drop_last()) * 10 + (s.last() - 0x30) as nat
    }
}

/// The value of `d` if it is one or more decimal digits whose value fits in
/// `usize`.
pub open spec fn digits_number(d: Seq<u8>) -> Option<usize> {
    if d.len() > 0 && (forall|i: int| 0 <= i < d.len() ==> is_digit(#[trigger] d[i]))
        && digits_value(d) <= usize::MAX {
        Some(digits_value(d) as usize)
    } else {
        None
    }
}

/// The unsigned integer `s` spells: one or more decimal digits, after an
/// optional `+`, with a value that fits in `usize`.
pub open spec fn parse_usize(s: Seq<u8>) -> Option<usize> {
    if s.len() > 0 && s[0] == 0x2b {
        digits_number(s.drop_first())
    } else {
        digits_number(s)
    }
}

/// The state of decoding after some lines.
pub struct RleModel {
    pub cells: Seq<(usize, usize)>,
    pub width: usize,
    pub height: usize,
    pub name: Seq<u8>,
    pub author: Seq<u8>,
    pub header_done: bool,
    pub done: bool,
    pub col: usize,
    pub row: usize,
}

pub open spec fn initial_model() -> RleModel {
    RleModel {
        cells: Seq::empty(),
        width: 0,
        height: 0,
        name: Seq::empty(),
        author: Seq::empty(),
        header_done: false,
        done: false,
        col: 0,
        row: 0,
    }
}

/// One header line, already trimmed: `#O` gives the author, `#N` the name,
/// and a line starting with `x` the size, which ends the header. Other
/// lines, and lines shorter than two bytes, are skipped.
pub open spec fn header_line(m: RleModel, t: Seq<u8>) -> Option<RleModel> {
    if t.len() < 2 {
        Some(m)
    } else if t[0] == 0x23 && t[1] == 0x4f {
        Some(RleModel { author: t.subrange(2, t.len() as int), ..m })
    } else if t[0] == 0x23 && t[1] == 0x4e {
        Some(RleModel { name: t.subrange(2, t.len() as int), ..m })
    } else if t[0] == 0x78 {
        let (f0, f1, n) = fields(strip_ws(t));
        let w = parse_usize(trim_by(f0, seq![0x78u8, 0x3du8]));
        let h = parse_usize(trim_by(f1, seq![0x79u8, 0x3du8]));
        if n >= 1 && w is Some && h is Some {
            Some(RleModel { width: w->0, height: h->0, header_done: true, ..m })
        } else {
            None
        }
    } else {
        Some(m)
    }
}

/// One byte of the body, with the count read so far on this line.
pub open spec fn body_byte(m: RleModel, count: Option<usize>, c: u8) -> Option<(RleModel, Option<usize>)> {
    let n: usize = match count {
        Some(k) => k,
        None => 1,
    };
    if m.done || is_ws(c) {
        Some((m, count))
    } else if is_digit(c) {
        let k: usize = match count {
            Some(k) => k,
            None => 0,
        };
        if k * 10 + (c - 0x30) <= usize::MAX {
            Some((m, Some((k * 10 + (c - 0x30)) as usize)))
        } else {
            None
        }
    } else if c == 0x24 {
        if m.row + n <= usize::MAX {
            Some((RleModel { row: (m.row + n) as usize, col: 0, ..m }, None))
        } else {
            None
        }
    } else if c == 0x6f {
        if m.col + n <= usize::MAX {
            let cells = m.cells + Seq::new(n as nat, |k: int| ((m.col + k) as usize, m.row));
            Some((RleModel { cells, col: (m.col + n) as usize, ..m }, None))
        } else {
            None
        }
    } else if c == 0x62 {
        if m.col + n <= usize::MAX {
            Some((RleModel { col: (m.col + n) as usize, ..m }, None))
        } else {
            None
        }
    } else if c == 0x21 {
        Some((RleModel { done: true, ..m }, count))
    } else {
        None
    }
}

/// The bytes of one body line, a count starting afresh on each line.
pub open spec fn body_bytes(m: RleModel, count: Option<usize>, s: Seq<u8>) -> Option<(RleModel, Option<usize>)>
    decreases s.len(),
{
    if s.len() == 0 {
        Some((m, count))
    } else {
        match body_bytes(m, count, s.drop_last()) {
            Some((m1, c1)) => body_byte(m1, c1, s.last()),
            None => None,
        }
    }
}

/// One line of the file.
pub open spec fn line_step(m: RleModel, line: Seq<u8>) -> Option<RleModel> {
    if m.done {
        Some(m)
    } else if !m.header_done {
        header_line(m, trim_by(line, ws_set()))
    } else {
        match body_bytes(m, None, line) {
            Some((m1, _)) => Some(m1),
            None => None,
        }
    }
}

/// The decoding of the lines `lines`, or `None` where one is malformed.
pub open spec fn rle_model(lines: Seq<Seq<u8>>) -> Option<RleModel>
    decreases lines.len(),
{
    if lines.len() == 0 {
        Some(initial_model())
    } else {
        match rle_model(lines.drop_last()) {
            Some(m) => line_step(m, lines.last()),
            None => None,
        }
    }
}

fn contains_byte(set: &Vec<u8>, c: u8) -> (r: bool)
    ensures
        r == set@.contains(c),
{
    let mut i: usize = 0;
    while i < set.len()
        invariant
            i <= set@.len(),
            forall|j: int| 0 <= j < i ==> set@[j] != c,
        decreases set@.len() - i,
    {
        if set[i] == c {
            return true;
        }
        i = i + 1;
    }
    false
}

/// Copies `s[a..b]`.
fn copy_range(s: &Vec<u8>, a: usize, b: usize) -> (r: Vec<u8>)
    requires
        a <= b <= s@.len(),
    ensures
        r@ == s@.subrange(a as int, b as int),
{
    let mut r: Vec<u8> = Vec::new();
    let mut i: usize = a;
    while i < b
        invariant
            a <= i <= b,
            b <= s@.len(),
            r@ == s@.subrange(a as int, i as int),
        decreases b - i,
    {
        r.push(s[i]);
        i = i + 1;
        assert(r@ =~= s@.subrange(a as int, i as int));
    }
    r
}

/// `s` without the bytes of `set` at either end.
fn trim_set(s: &Vec<u8>, set: &Vec<u8>) -> (r: Vec<u8>)
    ensures
        r@ == trim_by(s@, set@),
{
    let n = s.len();
    assert(s@.subrange(0, n as int) =~= s@);
    let mut a: usize = 0;
    while a < n && contains_byte(set, s[a])
        invariant
            a <= n,
            n == s@.len(),
            trim_start_by(s@, set@) == trim_start_by(s@.subrange(a as int, n as int), set@),
        decreases n - a,
    {
        assert(s@.subrange(a as int, n as int).drop_first() =~= s@.subrange(a + 1, n as int));
        a = a + 1;
    }
    assert(s@.subrange(0, n as int) =~= s@);
    let mut b: usize = n;
    while b > a && contains_byte(set, s[b - 1])
        invariant
            a <= b <= n,
            n == s@.len(),
            trim_start_by(s@, set@) == s@.subrange(a as int, n as int),
            trim_by(s@, set@) == trim_end_by(s@.subrange(a as int, b as int), set@),
        decreases b - a,
    {
        assert(s@.subrange(a as int, b as int).drop_last() =~= s@.subrange(a as int, b - 1));
        b = b - 1;
    }
    copy_range(s, a, b)
}

/// `s` without any whitespace.
fn strip_whitespace(s: &Vec<u8>) -> (r: Vec<u8>)
    ensures
        r@ == strip_ws(s@),
{
    let mut r: Vec<u8> = Vec::new();
    let mut i: usize = 0;
    while i < s.len()
        invariant
            i <= s@.len(),
            r@ == strip_ws(s@.subrange(0, i as int)),
        decreases s@.len() - i,
    {
        let c = s[i];
        assert(s@.subrange(0, i + 1).drop_last() =~= s@.subrange(0, i as int));
        if !(c == 0x20 || c == 0x09 || c == 0x0a || c == 0x0b || c == 0x0c || c == 0x0d) {
            r.push(c);
        }
        i = i + 1;
    }
    assert(s@.subrange(0, s@.len() as int) =~= s@);
    r
}

/// The first two comma-separated fields of `s` and the number of commas,
/// counting at most two.
fn split_fields(s: &Vec<u8>) -> (r: (Vec<u8>, Vec<u8>, usize))
    ensures
        (r.0@, r.1@, r.2 as nat) == fields(s@),
{
    let mut f0: Vec<u8> = Vec::new();
    let mut f1: Vec<u8> = Vec::new();
    let mut n: usize = 0;
    let mut i: usize = 0;
    while i < s.len()
        invariant
            i <= s@.len(),
            n <= 2,
            (f0@, f1@, n as nat) == fields(s@.subrange(0, i as int)),
        decreases s@.len() - i,
    {
        let c = s[i];
        assert(s@.subrange(0, i + 1).drop_last() =~= s@.subrange(0, i as int));
        if c == 0x2c {
            if n < 2 {
                n = n + 1;
            }
        } else if n == 0 {
            f0.push(c);
        } else if n == 1 {
            f1.push(c);
        }
        i = i + 1;
    }
    assert(s@.subrange(0, s@.len() as int) =~= s@);
    (f0, f1, n)
}

proof fn lemma_digits_grow(s: Seq<u8>, i: int)
    requires
        0 <= i <= s.len(),
        forall|k: int| 0 <= k < s.len() ==> is_digit(#[trigger] s[k]),
    ensures
        digits_value(s.subrange(0, i)) <= digits_value(s),
    decreases s.len() - i,
{
    if i < s.len() {
        lemma_digits_grow(s, i + 1);
        assert(s.subrange(0, i + 1).drop_last() =~= s.subrange(0, i));
    } else {
        assert(s.subrange(0, i) =~= s);
    }
}

/// The unsigned integer `s` spells, if it spells one that fits.
fn parse_number(s: &Vec<u8>) -> (r: Option<usize>)
    ensures
        r == parse_usize(s@),
{
    let start: usize = if s.len() > 0 && s[0] == 0x2b {
        1
    } else {
        0
    };
    let ghost d = if s@.len() > 0 && s@[0] == 0x2b {
        s@.drop_first()
    } else {
        s@
    };
    assert(d =~= s@.subrange(start as int, s@.len() as int));
    assert(parse_usize(s@) == digits_number(d));
    if start == s.len() {
        assert(d.len() == 0);
        return None;
    }
    let mut i: usize = start;
    while i < s.len()
        invariant
            start <= i <= s@.len(),
            d =~= s@.subrange(start as int, s@.len() as int),
            parse_usize(s@) == digits_number(d),
            forall|k: int| 0 <= k < i - start ==> is_digit(#[trigger] d[k]),
        decreases s@.len() - i,
    {
        if !(0x30 <= s[i] && s[i] <= 0x39) {
            assert(d[i - start] == s@[i as int]);
            assert(!is_digit(d[i - start]));
            return None;
        }
        i = i + 1;
    }
    let mut v: usize = 0;
    let mut i: usize = start;
    while i < s.len()
        invariant
            start <= i <= s@.len(),
            d =~= s@.subrange(start as int, s@.len() as int),
            parse_usize(s@) == digits_number(d),
            forall|k: int| 0 <= k < d.len() ==> is_digit(#[trigger] d[k]),
            v == digits_value(d.subrange(0, i - start)),
        decreases s@.len() - i,
    {
        let ghost j = i - start;
        assert(d.subrange(0, j + 1).drop_last() =~= d.subrange(0, j));
        assert(d[j] == s@[i as int]);
        assert(is_digit(d[j]));
        let digit = (s[i] - 0x30) as usize;
        assert(digits_value(d.subrange(0, j + 1)) == v * 10 + digit);
        if v > (usize::MAX - digit) / 10 {
            proof {
                lemma_digits_grow(d, j + 1);
                assert(v * 10 + digit > usize::MAX) by (nonlinear_arith)
                    requires v > (usize::MAX - digit) / 10, digit <= 9;
            }
            return None;
        }
        v = v * 10 + digit;
        i = i + 1;
    }
    assert(d.subrange(0, d.len() as int) =~= d);
    Some(v)
}

/// Bytes of a literal, spelled out.
fn bytes2(a: u8, b: u8) -> (r: Vec<u8>)
    ensures
        r@ == seq![a, b],
{
    let mut r: Vec<u8> = Vec::new();
    r.push(a);
    r.push(b);
    assert(r@ =~= seq![a, b]);
    r
}

fn whitespace() -> (r: Vec<u8>)
    ensures
        r@ == ws_set(),
{
    let mut r: Vec<u8> = Vec::new();
    r.push(0x20);
    r.push(0x09);
    r.push(0x0a);
    r.push(0x0b);
    r.push(0x0c);
    r.push(0x0d);
    assert(r@ =~= ws_set());
    r
}

/// The decoder's state between lines.
struct Decoder {
    cells: Vec<(usize, usize)>,
    width: usize,
    height: usize,
    name: Vec<u8>,
    author: Vec<u8>,
    header_done: bool,
    done: bool,
    col: usize,
    row: usize,
}

impl Decoder {
    spec fn model(&self) -> RleModel {
        RleModel {
            cells: self.cells@,
            width: self.width,
            height: self.height,
            name: self.name@,
            author: self.author@,
            header_done: self.header_done,
            done: self.done,
            col: self.col,
            row: self.row,
        }
    }

    /// Reads one trimmed header line; `false` where it is malformed.
    fn header_line(&mut self, t: &Vec<u8>) -> (ok: bool)
        ensures
            ok == (header_line(old(self).model(), t@) is Some),
            ok ==> Some(final(self).model()) == header_line(old(self).model(), t@),
    {
        if t.len() < 2 {
            return true;
        }
        if t[0] == 0x23 && t[1] == 0x4f {
            self.author = copy_range(t, 2, t.len());
            return true;
        }
        if t[0] == 0x23 && t[1] == 0x4e {
            self.name = copy_range(t, 2, t.len());
            return true;
        }
        if t[0] != 0x78 {
            return true;
        }
        let (f0, f1, n) = split_fields(&strip_whitespace(t));
        let w = parse_number(&trim_set(&f0, &bytes2(0x78, 0x3d)));
        let h = parse_number(&trim_set(&f1, &bytes2(0x79, 0x3d)));
        match (w, h) {
            (Some(w), Some(h)) => {
                if n >= 1 {
                    self.width = w;
                    self.height = h;
                    self.header_done = true;
                    true
                } else {
                    false
                }
            },
            _ => false,
        }
    }

    /// Reads one body byte; `false` where it is malformed.
    fn body_byte(&mut self, count: &mut Option<usize>, c: u8) -> (ok: bool)
        ensures
            ok == (body_byte(old(self).model(), *old(count), c) is Some),
            ok ==> Some((final(self).model(), *final(count))) == body_byte(old(self).model(), *old(count), c),
    {
        let n: usize = match *count {
            Some(k) => k,
            None => 1,
        };
        if self.done || c == 0x20 || c == 0x09 || c == 0x0a || c == 0x0b || c == 0x0c || c == 0x0d {
            return true;
        }
        if 0x30 <= c && c <= 0x39 {
            let k: usize = match *count {
                Some(k) => k,
                None => 0,
            };
            let d = (c - 0x30) as usize;
            if k > (usize::MAX - d) / 10 {
                return false;
            }
            *count = Some(k * 10 + d);
            return true;
        }
        if c == 0x24 {
            if self.row > usize::MAX - n {
                return false;
            }
            self.row = self.row + n;
            self.col = 0;
            *count = None;
            return true;
        }
        if c == 0x6f {
            if self.col > usize::MAX - n {
                return false;
            }
            let ghost before = self.cells@;
            let ghost m0 = self.model();
            let mut k: usize = 0;
            while k < n
                invariant
                    k <= n,
                    self.col + n <= usize::MAX,
                    self.col == m0.col,
                    self.row == m0.row,
                    self.width == m0.width,
                    self.height == m0.height,
                    self.name == old(self).name,
                    self.author == old(self).author,
                    self.header_done == m0.header_done,
                    self.done == m0.done,
                    self.cells@ == before + Seq::new(k as nat, |j: int| ((m0.col + j) as usize, m0.row)),
                decreases n - k,
            {
                self.cells.push((self.col + k, self.row));
                k = k + 1;
                assert(self.cells@ =~= before + Seq::new(k as nat, |j: int| ((m0.col + j) as usize, m0.row)));
            }
            self.col = self.col + n;
            *count = None;
            return true;
        }
        if c == 0x62 {
            if self.col > usize::MAX - n {
                return false;
            }
            self.col = self.col + n;
            *count = None;
            return true;
        }
        if c == 0x21 {
            self.done = true;
            return true;
        }
        false
    }

    /// Reads one line of the file; `false` where it is malformed.
    fn line(&mut self, line: &Vec<u8>) -> (ok: bool)
        ensures
            ok == (line_step(old(self).model(), line@) is Some),
            ok ==> Some(final(self).model()) == line_step(old(self).model(), line@),
    {
        if self.done {
            return true;
        }
        if !self.header_done {
            let t = trim_set(line, &whitespace());
            return self.header_line(&t);
        }
        let ghost m0 = self.model();
        let mut count: Option<usize> = None;
        let mut i: usize = 0;
        while i < line.len()
            invariant
                i <= line@.len(),
                m0 == old(self).model(),
                !m0.done,
                m0.header_done,
                body_bytes(m0, None, line@.subrange(0, i as int)) == Some((self.model(), count)),
            decreases line@.len() - i,
        {
            assert(line@.subrange(0, i + 1).drop_last() =~= line@.subrange(0, i as int));
            assert(line@.subrange(0, i + 1).last() == line@[i as int]);
            if !self.body_byte(&mut count, line[i]) {
                proof {
                    lemma_body_fails(m0, line@, i as int + 1);
                    assert(body_bytes(m0, None, line@) is None);
                }
                return false;
            }
            i = i + 1;
        }
        assert(line@.subrange(0, line@.len() as int) =~= line@);
        true
    }
}

/// Once a prefix of a body line is malformed, so is the line.
proof fn lemma_body_fails(m: RleModel, s: Seq<u8>, i: int)
    requires
        0 <= i <= s.len(),
        body_bytes(m, None, s.subrange(0, i)) is None,
    ensures
        body_bytes(m, None, s) is None,
    decreases s.len() - i,
{
    if i < s.len() {
        assert(s.subrange(0, i + 1).drop_last() =~= s.subrange(0, i));
        lemma_body_fails(m, s, i + 1);
    } else {
        assert(s.subrange(0, i) =~= s);
    }
}

/// Once a prefix of the lines is malformed, so is the file.
proof fn lemma_lines_fail(lines: Seq<Seq<u8>>, i: int)
    requires
        0 <= i <= lines.len(),
        rle_model(lines.subrange(0, i)) is None,
    ensures
        rle_model(lines) is None,
    decreases lines.len() - i,
{
    if i < lines.len() {
        assert(lines.subrange(0, i + 1).drop_last() =~= lines.subrange(0, i));
        lemma_lines_fail(lines, i + 1);
    } else {
        assert(lines.subrange(0, i) =~= lines);
    }
}

/// The byte strings of `lines`.
pub open spec fn lines_view(lines: Seq<Vec<u8>>) -> Seq<Seq<u8>> {
    lines.map_values(|l: Vec<u8>| l@)
}

/// Decodes a pattern from the lines of its file, each without its line
/// break. `None` where a line is malformed: a header line starting with `x`
/// that does not give both sizes, a body byte that is none of the tags,
/// digits or whitespace, or a count or position past the range of `usize`.
pub fn parse_rle(lines: &Vec<Vec<u8>>) -> (r: Option<Pattern>)
    ensures
        match rle_model(lines_view(lines@)) {
            Some(m) => r is Some && {
                let p = r->0;
                &&& p.pattern@ == m.cells
                &&& p.width == m.width
                &&& p.height == m.height
                &&& p.name@ == utf8_text(m.name)
                &&& p.author@ == utf8_text(m.author)
                &&& m.name.len() == 0 ==> p.name@.len() == 0
                &&& m.author.len() == 0 ==> p.author@.len() == 0
            },
            None => r is None,
        },
{
    let ghost ls = lines_view(lines@);
    let mut d = Decoder {
        cells: Vec::new(),
        width: 0,
        height: 0,
        name: Vec::new(),
        author: Vec::new(),
        header_done: false,
        done: false,
        col: 0,
        row: 0,
    };
    assert(d.cells@ =~= Seq::<(usize, usize)>::empty());
    assert(d.name@ =~= Seq::<u8>::empty());
    assert(d.author@ =~= Seq::<u8>::empty());
    assert(ls.subrange(0, 0) =~= Seq::<Seq<u8>>::empty());
    let mut i: usize = 0;
    while i < lines.len()
        invariant
            i <= lines@.len(),
            ls == lines_view(lines@),
            ls.len() == lines@.len(),
            rle_model(ls.subrange(0, i as int)) == Some(d.model()),
        decreases lines@.len() - i,
    {
        assert(ls.subrange(0, i + 1).drop_last() =~= ls.subrange(0, i as int));
        assert(ls[i as int] == lines@[i as int]@);
        if !d.line(&lines[i]) {
            proof {
                lemma_lines_fail(ls, i as int + 1);
            }
            return None;
        }
        i = i + 1;
    }
    assert(ls.subrange(0, ls.len() as int) =~= ls);
    let name = text_of(&d.name);
    let author = text_of(&d.author);
    Some(Pattern { pattern: d.cells, width: d.width, height: d.height, name, author })
}

} // verus!
