//! CDP offsets and JS source-map columns count UTF-16 code units, not UTF-8 bytes.
use vstd::prelude::*;
use vstd::utf8::*;

verus! {

/// UTF-8 width of one character.
pub open spec fn utf8_width(c: char) -> nat {
    if (c as u32) < 0x80 {
        1
    } else if (c as u32) < 0x800 {
        2
    } else if (c as u32) < 0x10000 {
        3
    } else {
        4
    }
}

/// UTF-16 width of one character: two code units outside the basic plane.
pub open spec fn utf16_width(c: char) -> nat {
    if (c as u32) < 0x10000 {
        1
    } else {
        2
    }
}

/// UTF-8 byte offset of the boundary before character `k`.
pub open spec fn byte_at(s: Seq<char>, k: int) -> nat
    decreases k,
{
    if k <= 0 || k > s.len() {
        0
    } else {
        byte_at(s, k - 1) + utf8_width(s[k - 1])
    }
}

/// UTF-16 offset of the boundary before character `k`.
pub open spec fn unit_at(s: Seq<char>, k: int) -> nat
    decreases k,
{
    if k <= 0 || k > s.len() {
        0
    } else {
        unit_at(s, k - 1) + utf16_width(s[k - 1])
    }
}

/// `b` is the UTF-8 offset of some character boundary.
pub open spec fn is_byte_boundary(s: Seq<char>, b: int) -> bool {
    exists|k: int| 0 <= k <= s.len() && byte_at(s, k) == b
}

/// `u` is the UTF-16 offset of some character boundary (never inside a surrogate pair).
pub open spec fn is_unit_boundary(s: Seq<char>, u: int) -> bool {
    exists|k: int| 0 <= k <= s.len() && unit_at(s, k) == u
}

/// A JavaScript line terminator starts at character `k`: CR, LF (unless it
/// completes a CRLF), U+2028 or U+2029.
pub open spec fn is_line_break(s: Seq<char>, k: int) -> bool {
    &&& 0 <= k < s.len()
    &&& {
        ||| s[k] == '\r'
        ||| s[k] == '\n' && !(k > 0 && s[k - 1] == '\r')
        ||| s[k] == '\u{2028}'
        ||| s[k] == '\u{2029}'
    }
}

/// Characters taken by the terminator at `k` (CRLF counts as one terminator).
pub open spec fn break_len(s: Seq<char>, k: int) -> int {
    if s[k] == '\r' && k + 1 < s.len() && s[k + 1] == '\n' {
        2
    } else {
        1
    }
}

/// `t` lists every line as a half-open range of character indices: lines are
/// separated by terminators and contain none.
pub open spec fn is_line_table(s: Seq<char>, t: Seq<(int, int)>) -> bool {
    &&& t.len() >= 1
    &&& t[0].0 == 0
    &&& t.last().1 == s.len()
    &&& forall|i: int| 0 <= i < t.len() ==> 0 <= #[trigger] t[i].0 <= t[i].1 <= s.len()
    &&& forall|i: int|
        0 <= i < t.len() - 1 ==> is_line_break(s, #[trigger] t[i].1) && t[i + 1].0 == t[i].1
            + break_len(s, t[i].1)
    &&& forall|i: int, k: int|
        0 <= i < t.len() && #[trigger] t[i].0 <= k < t[i].1 ==> !#[trigger] is_line_break(s, k)
}

pub proof fn lemma_offsets_grow(s: Seq<char>, i: int, j: int)
    requires
        0 <= i <= j <= s.len(),
    ensures
        byte_at(s, i) <= byte_at(s, j),
        unit_at(s, i) <= unit_at(s, j),
        i < j ==> byte_at(s, i) < byte_at(s, j),
        i < j ==> unit_at(s, i) < unit_at(s, j),
        unit_at(s, j) <= byte_at(s, j),
        unit_at(s, j) - unit_at(s, i) <= byte_at(s, j) - byte_at(s, i),
    decreases j,
{
    if j > 0 {
        lemma_offsets_grow(s, if i == j { j - 1 } else { i }, j - 1);
        if i == j {
            lemma_offsets_grow(s, i - 1, i - 1);
        }
    }
}

/// Two characters never share a boundary offset.
pub proof fn lemma_offsets_injective(s: Seq<char>)
    ensures
        forall|i: int, j: int|
            0 <= i <= s.len() && 0 <= j <= s.len() && #[trigger] byte_at(s, i) == #[trigger] byte_at(
                s,
                j,
            ) ==> i == j,
        forall|i: int, j: int|
            0 <= i <= s.len() && 0 <= j <= s.len() && #[trigger] unit_at(s, i) == #[trigger] unit_at(
                s,
                j,
            ) ==> i == j,
{
    assert forall|i: int, j: int|
        0 <= i <= s.len() && 0 <= j <= s.len() && #[trigger] byte_at(s, i) == #[trigger] byte_at(
            s,
            j,
        ) implies i == j by {
        if i < j {
            lemma_offsets_grow(s, i, j);
        } else if j < i {
            lemma_offsets_grow(s, j, i);
        }
    }
    assert forall|i: int, j: int|
        0 <= i <= s.len() && 0 <= j <= s.len() && #[trigger] unit_at(s, i) == #[trigger] unit_at(
            s,
            j,
        ) implies i == j by {
        if i < j {
            lemma_offsets_grow(s, i, j);
        } else if j < i {
            lemma_offsets_grow(s, j, i);
        }
    }
}

proof fn lemma_byte_at_first(s: Seq<char>, k: int)
    requires
        1 <= k <= s.len(),
    ensures
        byte_at(s, k) == utf8_width(s[0]) + byte_at(s.drop_first(), k - 1),
    decreases k,
{
    if k > 1 {
        lemma_byte_at_first(s, k - 1);
        assert(s.drop_first()[k - 2] == s[k - 1]);
    } else {
        assert(byte_at(s, 0) == 0);
        assert(byte_at(s.drop_first(), 0) == 0);
    }
}

proof fn lemma_scalar_width(c: char)
    ensures
        encode_scalar(c as u32).len() == utf8_width(c),
{
    char_is_scalar(c);
}

/// The UTF-8 length of a text is the offset of its final boundary.
pub proof fn lemma_total_bytes(s: Seq<char>)
    ensures
        encode_utf8(s).len() == byte_at(s, s.len() as int),
    decreases s.len(),
{
    if s.len() > 0 {
        lemma_total_bytes(s.drop_first());
        lemma_byte_at_first(s, s.len() as int);
        lemma_scalar_width(s[0]);
    }
}

pub fn char_utf8_width(c: char) -> (w: usize)
    ensures
        w == utf8_width(c),
{
    let v = c as u32;
    if v < 0x80 {
        1
    } else if v < 0x800 {
        2
    } else if v < 0x10000 {
        3
    } else {
        4
    }
}

pub fn char_utf16_width(c: char) -> (w: usize)
    ensures
        w == utf16_width(c),
{
    if (c as u32) < 0x10000 {
        1
    } else {
        2
    }
}

/// Errors of offset conversions, with the offending value.
#[derive(Debug, Clone, Copy, PartialEq, Eq)]
pub enum TextError {
    /// A UTF-8 offset past the text or inside a character.
    InvalidUtf8Boundary(usize),
    /// A UTF-16 offset past the text or inside a surrogate pair.
    InvalidUtf16Offset(usize),
    /// A zero-based line past the last line.
    LineOutsideSource(u32),
    /// A column past the end of its line (column, line).
    ColumnExceedsLine(u32, u32),
}

/// Offsets of every character boundary plus the line table of a text.
pub struct TextIndex {
    bytes_at: Vec<usize>,
    units_at: Vec<usize>,
    units: usize,
    bytes: usize,
    lines: Vec<(usize, usize)>,
    text: Ghost<Seq<char>>,
    line_chars: Ghost<Seq<(int, int)>>,
}

impl View for TextIndex {
    type V = Seq<char>;

    closed spec fn view(&self) -> Seq<char> {
        self.text@
    }
}

/// Strictly increasing sequence.
pub open spec fn increasing(v: Seq<usize>) -> bool {
    forall|i: int, j: int| 0 <= i < j < v.len() ==> v[i] < v[j]
}

/// Exact-match binary search in a strictly increasing vector.
fn find_sorted(v: &Vec<usize>, x: usize) -> (r: Option<usize>)
    requires
        increasing(v@),
    ensures
        r matches Some(k) ==> k < v.len() && v@[k as int] == x,
        r is None ==> forall|k: int| 0 <= k < v.len() ==> v@[k] != x,
{
    let mut lo: usize = 0;
    let mut hi: usize = v.len();
    while lo < hi
        invariant
            0 <= lo <= hi <= v.len(),
            increasing(v@),
            forall|k: int| 0 <= k < lo ==> v@[k] < x,
            forall|k: int| hi <= k < v.len() ==> v@[k] > x,
        decreases hi - lo,
    {
        let mid = lo + (hi - lo) / 2;
        if v[mid] == x {
            return Some(mid);
        } else if v[mid] < x {
            lo = mid + 1;
        } else {
            hi = mid;
        }
    }
    None
}

impl TextIndex {
    /// The offset tables and the line table agree with the text.
    pub closed spec fn wf(&self) -> bool {
        let s = self.text@;
        let n = s.len() as int;
        &&& self.bytes_at@.len() == n + 1
        &&& self.units_at@.len() == n + 1
        &&& forall|k: int| 0 <= k <= n ==> #[trigger] self.bytes_at@[k] == byte_at(s, k)
        &&& forall|k: int| 0 <= k <= n ==> #[trigger] self.units_at@[k] == unit_at(s, k)
        &&& self.units == unit_at(s, n)
        &&& self.bytes == byte_at(s, n)
        &&& is_line_table(s, self.line_chars@)
        &&& self.lines@.len() == self.line_chars@.len()
        &&& forall|i: int|
            0 <= i < self.lines@.len() ==> #[trigger] self.lines@[i] == (
                unit_at(s, self.line_chars@[i].0) as usize,
                unit_at(s, self.line_chars@[i].1) as usize,
            )
    }

    #[verifier::spinoff_prover]
    pub fn new(text: &str) -> (r: Self)
        ensures
            r.wf(),
            r@ == text@,
    {
        let chars = crate::strings::chars_of(text);
        let total = text.as_bytes().len();
        let ghost s = text@;
        proof {
            lemma_total_bytes(s);
        }
        let n = chars.len();
        let mut bytes_at: Vec<usize> = Vec::new();
        let mut units_at: Vec<usize> = Vec::new();
        bytes_at.push(0);
        units_at.push(0);
        let mut bytes: usize = 0;
        let mut units: usize = 0;
        let mut lines: Vec<(usize, usize)> = Vec::new();
        let ghost mut table: Seq<(int, int)> = Seq::empty();
        let mut line_start: usize = 0;
        let ghost mut start_char: int = 0;
        let mut k: usize = 0;
        while k < n
            invariant
                chars@ == s,
                n == s.len(),
                total == byte_at(s, n as int),
                0 <= k <= n,
                bytes_at@.len() == k + 1,
                units_at@.len() == k + 1,
                forall|j: int| 0 <= j <= k ==> #[trigger] bytes_at@[j] == byte_at(s, j),
                forall|j: int| 0 <= j <= k ==> #[trigger] units_at@[j] == unit_at(s, j),
                bytes == byte_at(s, k as int),
                units == unit_at(s, k as int),
                lines@.len() == table.len(),
                forall|i: int|
                    0 <= i < lines@.len() ==> #[trigger] lines@[i] == (
                        unit_at(s, table[i].0) as usize,
                        unit_at(s, table[i].1) as usize,
                    ),
                table.len() == 0 ==> start_char == 0,
                table.len() > 0 ==> table[0].0 == 0,
                table.len() > 0 ==> start_char == table.last().1 + break_len(s, table.last().1),
                forall|i: int| 0 <= i < table.len() ==> 0 <= #[trigger] table[i].0 <= table[i].1 < k,
                forall|i: int|
                    0 <= i < table.len() ==> is_line_break(s, #[trigger] table[i].1),
                forall|i: int|
                    0 <= i < table.len() - 1 ==> #[trigger] table[i + 1].0 == table[i].1 + break_len(
                        s,
                        table[i].1,
                    ),
                forall|i: int, j: int|
                    0 <= i < table.len() && #[trigger] table[i].0 <= j < table[i].1
                        ==> !#[trigger] is_line_break(s, j),
                forall|j: int| start_char <= j < k ==> !#[trigger] is_line_break(s, j),
                start_char <= k || (start_char == k + 1 && k < n && s[k as int] == '\n' && k > 0
                    && s[k - 1] == '\r'),
                start_char <= n,
                line_start == unit_at(s, start_char),
            decreases n - k,
        {
            let ch = chars[k];
            proof {
                lemma_offsets_grow(s, k as int, k + 1);
                lemma_offsets_grow(s, k + 1, n as int);
            }
            let position = units;
            bytes = bytes + char_utf8_width(ch);
            units = units + char_utf16_width(ch);
            bytes_at.push(bytes);
            units_at.push(units);
            let ghost old_table = table;
            let ghost old_start_char = start_char;
            proof {
                assert(ch == s[k as int]);
                if k > 0 {
                    assert(chars@[k - 1] == s[k - 1]);
                }
            }
            if ch == '\r' {
                lines.push((line_start, position));
                proof {
                    table = table.push((start_char, k as int));
                }
                if k + 1 < n && chars[k + 1] == '\n' {
                    proof {
                        lemma_offsets_grow(s, k + 2, n as int);
                    }
                    line_start = units + 1;
                    proof {
                        start_char = k + 2;
                    }
                } else {
                    line_start = units;
                    proof {
                        start_char = k + 1;
                    }
                }
            } else if (ch == '\n' && !(k > 0 && chars[k - 1] == '\r')) || ch == '\u{2028}' || ch
                == '\u{2029}' {
                lines.push((line_start, position));
                proof {
                    table = table.push((start_char, k as int));
                }
                line_start = units;
                proof {
                    start_char = k + 1;
                }
            }
            proof {
                assert(forall|i: int| 0 <= i < old_table.len() ==> table[i] == old_table[i]);
                assert forall|i: int| 0 <= i < table.len() implies 0 <= #[trigger] table[i].0 <= table[i].1 < k + 1 by {
                    if i < old_table.len() {
                        assert(table[i] == old_table[i]);
                    } else {
                        assert(table[i] == (old_start_char, k as int));
                        assert(old_start_char <= k);
                    }
                }
                assert forall|i: int, j: int|
                    0 <= i < table.len() && #[trigger] table[i].0 <= j < table[i].1
                        implies !#[trigger] is_line_break(s, j) by {
                    if i < old_table.len() {
                        assert(table[i] == old_table[i]);
                    }
                }
            }
            k = k + 1;
        }
        lines.push((line_start, units));
        proof {
            table = table.push((start_char, n as int));
        }
        let r = TextIndex {
            bytes_at,
            units_at,
            units,
            bytes,
            lines,
            text: Ghost(s),
            line_chars: Ghost(table),
        };
        r
    }

    proof fn lemma_tables_increasing(&self)
        requires
            self.wf(),
        ensures
            increasing(self.bytes_at@),
            increasing(self.units_at@),
    {
        let s = self.text@;
        assert forall|i: int, j: int| 0 <= i < j < self.bytes_at@.len() implies self.bytes_at@[i]
            < self.bytes_at@[j] by {
            lemma_offsets_grow(s, i, j);
        }
        assert forall|i: int, j: int| 0 <= i < j < self.units_at@.len() implies self.units_at@[i]
            < self.units_at@[j] by {
            lemma_offsets_grow(s, i, j);
        }
    }

    /// The lines as half-open ranges of character indices, terminators
    /// excluded.
    pub closed spec fn line_table(&self) -> Seq<(int, int)> {
        self.line_chars@
    }

    /// A well-formed index holds the text's lines (`is_line_table`), and
    /// each line's UTF-16 range and end byte are the offsets of its
    /// character range.
    pub proof fn lemma_line_table(&self)
        requires
            self.wf(),
        ensures
            is_line_table(self@, self.line_table()),
            self.line_count() == self.line_table().len(),
            forall|i: int|
                0 <= i < self.line_count() ==> #[trigger] self.line_units(i) == (
                    unit_at(self@, self.line_table()[i].0) as int,
                    unit_at(self@, self.line_table()[i].1) as int,
                ) && self.line_end_byte(i) == byte_at(self@, self.line_table()[i].1) as int,
    {
    }

    /// Number of lines (terminators plus one).
    pub closed spec fn line_count(&self) -> int {
        self.line_chars@.len() as int
    }

    /// UTF-16 range `[start, end)` of line `i`, terminator excluded.
    pub closed spec fn line_units(&self, i: int) -> (int, int) {
        (unit_at(self.text@, self.line_chars@[i].0) as int, unit_at(self.text@, self.line_chars@[i].1) as int)
    }

    /// UTF-8 offset of the end of line `i`, terminator excluded.
    pub closed spec fn line_end_byte(&self, i: int) -> int {
        byte_at(self.text@, self.line_chars@[i].1) as int
    }

    /// A zero-based line and UTF-16 column inside that line, at a character boundary.
    pub open spec fn valid_position(&self, line: int, column: int) -> bool {
        &&& 0 <= line < self.line_count()
        &&& 0 <= column <= self.line_units(line).1 - self.line_units(line).0
        &&& is_unit_boundary(self@, self.line_units(line).0 + column)
    }

    /// UTF-8 offset of a valid position.
    pub open spec fn position_byte(&self, line: int, column: int) -> int {
        let u = self.line_units(line).0 + column;
        byte_at(self@, choose|k: int| 0 <= k <= self@.len() && unit_at(self@, k) == u) as int
    }

    proof fn lemma_lines_ordered(&self, a: int, b: int)
        requires
            self.wf(),
            0 <= a < b < self.line_count(),
        ensures
            self.line_chars@[a].1 < self.line_chars@[b].0,
        decreases b - a,
    {
        let t = self.line_chars@;
        assert(t[a + 1].0 == t[a].1 + break_len(self.text@, t[a].1));
        if b > a + 1 {
            self.lemma_lines_ordered(a + 1, b);
            assert(0 <= t[a + 1].0 <= t[a + 1].1);
        }
    }

    /// Character index of a valid position.
    proof fn lemma_position_char(&self, line: int, column: int) -> (k: int)
        requires
            self.wf(),
            self.valid_position(line, column),
        ensures
            0 <= k <= self@.len(),
            unit_at(self@, k) == self.line_units(line).0 + column,
            self.position_byte(line, column) == byte_at(self@, k),
            self.line_chars@[line].0 <= k <= self.line_chars@[line].1,
    {
        let s = self.text@;
        let u = self.line_units(line).0 + column;
        let k = choose|k: int| 0 <= k <= s.len() && unit_at(s, k) == u;
        let t = self.line_chars@;
        assert(0 <= t[line].0 <= t[line].1 <= s.len());
        if k < t[line].0 {
            lemma_offsets_grow(s, k, t[line].0);
        }
        if k > t[line].1 {
            lemma_offsets_grow(s, t[line].1, k);
        }
        k
    }

    /// Positions in order have increasing offsets, and a line ends before the next begins.
    pub proof fn lemma_position_order(&self, l1: int, c1: int, l2: int, c2: int)
        requires
            self.wf(),
            self.valid_position(l1, c1),
            self.valid_position(l2, c2),
        ensures
            self.position_byte(l1, c1) <= self.line_end_byte(l1),
            self.line_end_byte(l1) <= byte_at(self@, self@.len() as int),
            l1 == l2 && c1 < c2 ==> self.position_byte(l1, c1) < self.position_byte(l2, c2),
            l1 < l2 ==> self.line_end_byte(l1) < self.position_byte(l2, c2),
    {
        let s = self.text@;
        let t = self.line_chars@;
        let k1 = self.lemma_position_char(l1, c1);
        let k2 = self.lemma_position_char(l2, c2);
        assert(0 <= t[l1].0 <= t[l1].1 <= s.len());
        lemma_offsets_grow(s, k1, t[l1].1);
        lemma_offsets_grow(s, t[l1].1, s.len() as int);
        if l1 == l2 && c1 < c2 {
            if k2 <= k1 {
                lemma_offsets_grow(s, k2, k1);
            }
            lemma_offsets_grow(s, k1, k2);
        }
        if l1 < l2 {
            self.lemma_lines_ordered(l1, l2);
            lemma_offsets_grow(s, t[l1].1, k2);
        }
    }

    /// UTF-16 offset of a UTF-8 character boundary.
    pub fn utf16(&self, byte: usize) -> (r: Result<usize, TextError>)
        requires
            self.wf(),
        ensures
            r is Ok <==> is_byte_boundary(self@, byte as int),
            r matches Ok(u) ==> forall|k: int|
                0 <= k <= self@.len() && byte_at(self@, k) == byte ==> u == unit_at(self@, k),
            r matches Err(e) ==> e == TextError::InvalidUtf8Boundary(byte),
    {
        proof {
            self.lemma_tables_increasing();
            lemma_offsets_injective(self.text@);
        }
        match find_sorted(&self.bytes_at, byte) {
            Some(k) => {
                assert(byte_at(self.text@, k as int) == byte);
                Ok(self.units_at[k])
            },
            None => {
                assert forall|k: int| 0 <= k <= self.text@.len() implies byte_at(self.text@, k)
                    != byte by {
                    assert(self.bytes_at@[k] == byte_at(self.text@, k));
                }
                Err(TextError::InvalidUtf8Boundary(byte))
            },
        }
    }

    /// Length of the text in UTF-16 code units.
    pub fn utf16_len(&self) -> (r: usize)
        requires
            self.wf(),
        ensures
            r == unit_at(self@, self@.len() as int),
    {
        self.units
    }

    /// UTF-8 offset of a UTF-16 boundary; fails past the end or inside a surrogate pair.
    pub fn byte(&self, offset: usize) -> (r: Result<usize, TextError>)
        requires
            self.wf(),
        ensures
            r is Ok <==> is_unit_boundary(self@, offset as int),
            r matches Ok(b) ==> forall|k: int|
                0 <= k <= self@.len() && unit_at(self@, k) == offset ==> b == byte_at(self@, k),
            r matches Err(e) ==> e == TextError::InvalidUtf16Offset(offset),
    {
        proof {
            self.lemma_tables_increasing();
            lemma_offsets_injective(self.text@);
        }
        match find_sorted(&self.units_at, offset) {
            Some(k) => {
                assert(unit_at(self.text@, k as int) == offset);
                Ok(self.bytes_at[k])
            },
            None => {
                assert forall|k: int| 0 <= k <= self.text@.len() implies unit_at(self.text@, k)
                    != offset by {
                    assert(self.units_at@[k] == unit_at(self.text@, k));
                }
                Err(TextError::InvalidUtf16Offset(offset))
            },
        }
    }

    /// UTF-8 offset of a zero-based source-map line and UTF-16 column.
    pub fn position(&self, line: u32, column: u32) -> (r: Result<usize, TextError>)
        requires
            self.wf(),
        ensures
            r is Ok <==> self.valid_position(line as int, column as int),
            r matches Ok(b) ==> b == self.position_byte(line as int, column as int),
            r is Ok <==> line < self.line_count() && column <= self.line_units(line as int).1
                - self.line_units(line as int).0 && is_unit_boundary(
                self@,
                self.line_units(line as int).0 + column,
            ),
            r matches Ok(b) ==> forall|k: int|
                0 <= k <= self@.len() && unit_at(self@, k) == self.line_units(line as int).0
                    + column ==> b == byte_at(self@, k),
            r matches Err(e) ==> (if line >= self.line_count() {
                e == TextError::LineOutsideSource(line)
            } else if column > self.line_units(line as int).1 - self.line_units(line as int).0 {
                e == TextError::ColumnExceedsLine(column, line)
            } else {
                e == TextError::InvalidUtf16Offset(
                    (self.line_units(line as int).0 + column) as usize,
                )
            }),
    {
        let index = line as usize;
        if index >= self.lines.len() {
            return Err(TextError::LineOutsideSource(line));
        }
        let (start, end) = self.lines[index];
        proof {
            let t = self.line_chars@;
            assert(0 <= t[line as int].0 <= t[line as int].1 <= self.text@.len());
            lemma_offsets_grow(self.text@, t[line as int].0, t[line as int].1);
            lemma_offsets_grow(self.text@, t[line as int].1, self.text@.len() as int);
            assert(start == self.line_units(line as int).0);
            assert(end == self.line_units(line as int).1);
        }
        if (column as usize) > end - start {
            return Err(TextError::ColumnExceedsLine(column, line));
        }
        self.byte(start + column as usize)
    }

    /// UTF-8 offset of the end of a zero-based line (before its terminator).
    pub fn line_end(&self, line: u32) -> (r: Result<usize, TextError>)
        requires
            self.wf(),
        ensures
            r is Ok <==> line < self.line_count(),
            r matches Ok(b) ==> b == self.line_end_byte(line as int),
            r matches Err(e) ==> e == TextError::LineOutsideSource(line),
    {
        let index = line as usize;
        if index >= self.lines.len() {
            return Err(TextError::LineOutsideSource(line));
        }
        let (_, end) = self.lines[index];
        let r = self.byte(end);
        proof {
            let t = self.line_chars@;
            lemma_offsets_grow(self.text@, t[line as int].1, self.text@.len() as int);
            assert(unit_at(self.text@, t[line as int].1) == end);
            assert(is_unit_boundary(self.text@, end as int));
        }
        r
    }
}

} // verus!
