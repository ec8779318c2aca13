//! Plain-text renderings of a report.
use vstd::prelude::*;

use crate::analysis::{Report, SourceRow};
use crate::strings::{chars_of, extend_chars, string_of};

verus! {

/// The decimal digits of `n`.
pub open spec fn decimal(n: nat) -> Seq<char>
    decreases n,
{
    if n < 10 {
        seq![digit(n)]
    } else {
        decimal(n / 10) + seq![digit(n % 10)]
    }
}

pub open spec fn digit(d: nat) -> char {
    if d == 0 { '0' }
    else if d == 1 { '1' }
    else if d == 2 { '2' }
    else if d == 3 { '3' }
    else if d == 4 { '4' }
    else if d == 5 { '5' }
    else if d == 6 { '6' }
    else if d == 7 { '7' }
    else if d == 8 { '8' }
    else { '9' }
}

fn digit_char(d: usize) -> (c: char)
    requires
        d < 10,
    ensures
        c == digit(d as nat),
{
    if d == 0 { '0' }
    else if d == 1 { '1' }
    else if d == 2 { '2' }
    else if d == 3 { '3' }
    else if d == 4 { '4' }
    else if d == 5 { '5' }
    else if d == 6 { '6' }
    else if d == 7 { '7' }
    else if d == 8 { '8' }
    else { '9' }
}

/// Appends the decimal digits of `n`.
pub fn push_decimal(out: &mut Vec<char>, n: usize)
    ensures
        final(out)@ == old(out)@ + decimal(n as nat),
    decreases n,
{
    if n >= 10 {
        push_decimal(out, n / 10);
    }
    out.push(digit_char(n % 10));
    proof {
        if n >= 10 {
            assert(final(out)@ =~= old(out)@ + (decimal((n / 10) as nat) + seq![digit((n % 10) as nat)]));
        } else {
            assert(final(out)@ =~= old(out)@ + seq![digit(n as nat)]);
        }
    }
}

/// A character as a TSV field writes it: backslash, tab and line breaks escaped.
pub open spec fn tsv_char(c: char) -> Seq<char> {
    if c == '\\' {
        seq!['\\', '\\']
    } else if c == '\t' {
        seq!['\\', 't']
    } else if c == '\r' {
        seq!['\\', 'r']
    } else if c == '\n' {
        seq!['\\', 'n']
    } else {
        seq![c]
    }
}

/// A TSV field.
pub open spec fn tsv_field(s: Seq<char>) -> Seq<char>
    decreases s.len(),
{
    if s.len() == 0 {
        Seq::empty()
    } else {
        tsv_field(s.drop_last()) + tsv_char(s.last())
    }
}

/// A character of JSON embedded in HTML: `&`, `<`, `>`, U+2028 and U+2029 as `\u` escapes.
pub open spec fn json_char(c: char) -> Seq<char> {
    if c == '&' {
        seq!['\\', 'u', '0', '0', '2', '6']
    } else if c == '<' {
        seq!['\\', 'u', '0', '0', '3', 'c']
    } else if c == '>' {
        seq!['\\', 'u', '0', '0', '3', 'e']
    } else if c == '\u{2028}' {
        seq!['\\', 'u', '2', '0', '2', '8']
    } else if c == '\u{2029}' {
        seq!['\\', 'u', '2', '0', '2', '9']
    } else {
        seq![c]
    }
}

/// JSON text escaped for an HTML raw-text element.
pub open spec fn json_text(s: Seq<char>) -> Seq<char>
    decreases s.len(),
{
    if s.len() == 0 {
        Seq::empty()
    } else {
        json_text(s.drop_last()) + json_char(s.last())
    }
}

/// One row of the TSV table.
pub open spec fn tsv_line(row: SourceRow) -> Seq<char> {
    tsv_field(row.source@) + seq!['\t'] + decimal(row.counts.bytes as nat) + seq!['\t'] + decimal(
        row.counts.observed_bytes as nat,
    ) + seq!['\t'] + decimal(row.counts.unobserved_bytes as nat) + seq!['\t'] + decimal(
        row.counts.unmeasured_bytes as nat,
    ) + seq!['\n']
}

/// The header and the first `n` rows.
pub open spec fn tsv_text(rows: Seq<SourceRow>, n: int) -> Seq<char>
    decreases n,
{
    if n <= 0 {
        "Source\tBytes\tObserved\tUnobserved\tUnmeasured\n"@
    } else {
        tsv_text(rows, n - 1) + tsv_line(rows[n - 1])
    }
}

fn push_json_char(out: &mut Vec<char>, c: char)
    ensures
        final(out)@ == old(out)@ + json_char(c),
{
    if c == '&' {
        out.push('\\'); out.push('u'); out.push('0'); out.push('0'); out.push('2'); out.push('6');
    } else if c == '<' {
        out.push('\\'); out.push('u'); out.push('0'); out.push('0'); out.push('3'); out.push('c');
    } else if c == '>' {
        out.push('\\'); out.push('u'); out.push('0'); out.push('0'); out.push('3'); out.push('e');
    } else if c == '\u{2028}' {
        out.push('\\'); out.push('u'); out.push('2'); out.push('0'); out.push('2'); out.push('8');
    } else if c == '\u{2029}' {
        out.push('\\'); out.push('u'); out.push('2'); out.push('0'); out.push('2'); out.push('9');
    } else {
        out.push(c);
    }
    proof {
        assert(final(out)@ =~= old(out)@ + json_char(c));
    }
}

fn push_tsv_char(out: &mut Vec<char>, c: char)
    ensures
        final(out)@ == old(out)@ + tsv_char(c),
{
    if c == '\\' {
        out.push('\\'); out.push('\\');
    } else if c == '\t' {
        out.push('\\'); out.push('t');
    } else if c == '\r' {
        out.push('\\'); out.push('r');
    } else if c == '\n' {
        out.push('\\'); out.push('n');
    } else {
        out.push(c);
    }
    proof {
        assert(final(out)@ =~= old(out)@ + tsv_char(c));
    }
}

fn push_escaped(out: &mut Vec<char>, s: &str, json: bool)
    ensures
        final(out)@ == old(out)@ + if json { json_text(s@) } else { tsv_field(s@) },
{
    let chars = chars_of(s);
    for i in 0..chars.len()
        invariant
            chars@ == s@,
            out@ == old(out)@ + if json { json_text(s@.take(i as int)) } else { tsv_field(s@.take(i as int)) },
    {
        let c = chars[i];
        let ghost before = out@;
        if json {
            push_json_char(out, c);
        } else {
            push_tsv_char(out, c);
        }
        proof {
            assert(s@.take(i + 1).drop_last() =~= s@.take(i as int));
            assert(s@.take(i + 1).last() == c);
            if json {
                assert(out@ =~= before + json_char(c));
                assert(json_text(s@.take(i + 1)) == json_text(s@.take(i as int)) + json_char(c));
            } else {
                assert(out@ =~= before + tsv_char(c));
                assert(tsv_field(s@.take(i + 1)) == tsv_field(s@.take(i as int)) + tsv_char(c));
            }
        }
    }
    proof {
        assert(s@.take(s@.len() as int) =~= s@);
    }
}

/// JSON text made safe to embed in an HTML script element.
pub fn escaped_json(json: &str) -> (r: String)
    ensures
        r@ == json_text(json@),
{
    let mut out: Vec<char> = Vec::new();
    push_escaped(&mut out, json, true);
    proof {
        assert(out@ =~= json_text(json@));
    }
    string_of(&out)
}

/// The source table as tab-separated values: a header, then one line per
/// source with its bytes, observed, unobserved and unmeasured bytes.
pub fn tsv(report: &Report) -> (r: String)
    ensures
        r@ == tsv_text(report.sources@, report.sources@.len() as int),
{
    let mut out = chars_of("Source\tBytes\tObserved\tUnobserved\tUnmeasured\n");
    for i in 0..report.sources.len()
        invariant
            out@ == tsv_text(report.sources@, i as int),
    {
        let row = &report.sources[i];
        let ghost before = out@;
        push_escaped(&mut out, row.source.as_str(), false);
        out.push('\t');
        push_decimal(&mut out, row.counts.bytes);
        out.push('\t');
        push_decimal(&mut out, row.counts.observed_bytes);
        out.push('\t');
        push_decimal(&mut out, row.counts.unobserved_bytes);
        out.push('\t');
        push_decimal(&mut out, row.counts.unmeasured_bytes);
        out.push('\n');
        proof {
            assert(out@ =~= before + tsv_line(*row));
        }
    }
    string_of(&out)
}

} // verus!
