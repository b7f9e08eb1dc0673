//! Reader for the row-ingestion text format: an array of objects, each with
//! exactly the fields `id` (non-negative integer up to `u32::MAX`),
//! `category` (string), `sales` (integer), `region` (string), in that order.
//! Numbers are decimal with an optional leading `-` and at most 18 digits;
//! strings are quote-delimited and may hold any character but `"`. Whitespace
//! is allowed between tokens. A text that does not follow this shape is
//! malformed; the reader accepts a text if and only if it follows it.

use vstd::prelude::*;
use crate::row::DataRow;
use crate::text::{chars_of, match_at, string_from_chars};

verus! {

/// Abstract value of one parsed row.
pub struct RowModel {
    pub id: int,
    pub category: Seq<char>,
    pub sales: int,
    pub region: Seq<char>,
}

/// `r` carries exactly the values of `m`.
pub open spec fn row_matches(r: DataRow, m: RowModel) -> bool {
    &&& r.id == m.id
    &&& r.category@ == m.category
    &&& r.sales == m.sales
    &&& r.region@ == m.region
}

/// `rs` carries exactly the values of `ms`, row for row.
pub open spec fn rows_match(rs: Seq<DataRow>, ms: Seq<RowModel>) -> bool {
    &&& rs.len() == ms.len()
    &&& forall|i: int| 0 <= i < ms.len() ==> row_matches(#[trigger] rs[i], ms[i])
}

/// Whitespace accepted between tokens.
pub open spec fn is_ws(c: char) -> bool {
    c == ' ' || c == '\t' || c == '\n' || c == '\r'
}

/// A decimal digit.
pub open spec fn is_digit(c: char) -> bool {
    '0' <= c && c <= '9'
}

/// Numeric value of a digit.
pub open spec fn digit_val(c: char) -> int {
    (c as int) - ('0' as int)
}

/// First index at or after `i` holding a non-whitespace character.
pub open spec fn ws_end(s: Seq<char>, i: int) -> int
    decreases s.len() - i,
{
    if 0 <= i < s.len() && is_ws(s[i]) {
        ws_end(s, i + 1)
    } else {
        i
    }
}

/// First index at or after `i` holding a non-digit character.
pub open spec fn digits_end(s: Seq<char>, i: int) -> int
    decreases s.len() - i,
{
    if 0 <= i < s.len() && is_digit(s[i]) {
        digits_end(s, i + 1)
    } else {
        i
    }
}

/// First index at or after `i` holding `"`, or the length of `s`.
pub open spec fn string_close(s: Seq<char>, i: int) -> int
    decreases s.len() - i,
{
    if 0 <= i < s.len() {
        if s[i] == '"' {
            i
        } else {
            string_close(s, i + 1)
        }
    } else {
        s.len() as int
    }
}

/// Value of the digit run `s[i..j)`.
pub open spec fn uint_value(s: Seq<char>, i: int, j: int) -> int
    decreases j - i,
{
    if 0 <= i && i < j && j <= s.len() {
        uint_value(s, i, j - 1) * 10 + digit_val(s[j - 1])
    } else {
        0
    }
}

/// Parses an unsigned decimal number at `i`: one to eighteen digits.
pub open spec fn parse_uint_at(s: Seq<char>, i: int) -> Option<(int, int)> {
    let e = digits_end(s, i);
    if i < e && e - i <= 18 {
        Some((uint_value(s, i, e), e))
    } else {
        None
    }
}

/// Parses a possibly negated decimal number at `i`.
pub open spec fn parse_int_at(s: Seq<char>, i: int) -> Option<(int, int)> {
    if 0 <= i < s.len() && s[i] == '-' {
        match parse_uint_at(s, i + 1) {
            Some((v, e)) => Some((-v, e)),
            None => None,
        }
    } else {
        parse_uint_at(s, i)
    }
}

/// Parses a quote-delimited string at `i`; yields its contents and the index
/// after the closing quote.
pub open spec fn parse_string_at(s: Seq<char>, i: int) -> Option<(Seq<char>, int)> {
    if 0 <= i < s.len() && s[i] == '"' {
        let e = string_close(s, i + 1);
        if e < s.len() {
            Some((s.subrange(i + 1, e), e + 1))
        } else {
            None
        }
    } else {
        None
    }
}

/// Position after a field label: optional whitespace, the quoted label,
/// optional whitespace, `:`, optional whitespace; `-1` when the label is not
/// there.
pub open spec fn after_label(s: Seq<char>, i: int, label: Seq<char>) -> int {
    let j = ws_end(s, i);
    if match_at(s, j, label) {
        let j2 = ws_end(s, j + label.len());
        if j2 < s.len() && s[j2] == ':' {
            ws_end(s, j2 + 1)
        } else {
            -1
        }
    } else {
        -1
    }
}

/// Parses one row object at `i` (after optional whitespace): the four fields
/// in canonical order, with `id` within `u32` range.
pub open spec fn parse_row_at(s: Seq<char>, i: int) -> Option<(RowModel, int)> {
    let j = ws_end(s, i);
    if j < s.len() && s[j] == '{' {
        let a1 = after_label(s, j + 1, "\"id\""@);
        if a1 >= 0 {
            match parse_int_at(s, a1) {
                Some((idv, p1)) => if 0 <= idv <= u32::MAX {
                    let c1 = ws_end(s, p1);
                    if c1 < s.len() && s[c1] == ',' {
                        let a2 = after_label(s, c1 + 1, "\"category\""@);
                        if a2 >= 0 {
                            match parse_string_at(s, a2) {
                                Some((cat, p2)) => {
                                    let c2 = ws_end(s, p2);
                                    if c2 < s.len() && s[c2] == ',' {
                                        let a3 = after_label(s, c2 + 1, "\"sales\""@);
                                        if a3 >= 0 {
                                            match parse_int_at(s, a3) {
                                                Some((salev, p3)) => {
                                                    let c3 = ws_end(s, p3);
                                                    if c3 < s.len() && s[c3] == ',' {
                                                        let a4 = after_label(s, c3 + 1, "\"region\""@);
                                                        if a4 >= 0 {
                                                            match parse_string_at(s, a4) {
                                                                Some((reg, p4)) => {
                                                                    let e = ws_end(s, p4);
                                                                    if e < s.len() && s[e] == '}' {
                                                                        Some((
                                                                            RowModel {
                                                                                id: idv,
                                                                                category: cat,
                                                                                sales: salev,
                                                                                region: reg,
                                                                            },
                                                                            e + 1,
                                                                        ))
                                                                    } else {
                                                                        None
                                                                    }
                                                                },
                                                                None => None,
                                                            }
                                                        } else {
                                                            None
                                                        }
                                                    } else {
                                                        None
                                                    }
                                                },
                                                None => None,
                                            }
                                        } else {
                                            None
                                        }
                                    } else {
                                        None
                                    }
                                },
                                None => None,
                            }
                        } else {
                            None
                        }
                    } else {
                        None
                    }
                } else {
                    None
                },
                None => None,
            }
        } else {
            None
        }
    } else {
        None
    }
}

/// Parses the remainder of the array after `acc` rows: either `]` and the end
/// of the text, or `,`, one more row, and the rest.
pub open spec fn rows_from(s: Seq<char>, i: int, acc: Seq<RowModel>) -> Option<Seq<RowModel>>
    decreases s.len() - i,
{
    let j = ws_end(s, i);
    if j < s.len() && s[j] == ']' {
        if ws_end(s, j + 1) == s.len() {
            Some(acc)
        } else {
            None
        }
    } else if j < s.len() && s[j] == ',' {
        match parse_row_at(s, j + 1) {
            Some((r, p)) => if i < p && p <= s.len() {
                rows_from(s, p, acc.push(r))
            } else {
                None
            },
            None => None,
        }
    } else {
        None
    }
}

/// Parses a whole ingestion text: `[`, zero or more comma-separated row
/// objects, `]`, with nothing but whitespace around them.
pub open spec fn parse_rows_text(s: Seq<char>) -> Option<Seq<RowModel>> {
    let j = ws_end(s, 0);
    if j < s.len() && s[j] == '[' {
        let j2 = ws_end(s, j + 1);
        if j2 < s.len() && s[j2] == ']' {
            if ws_end(s, j2 + 1) == s.len() {
                Some(Seq::empty())
            } else {
                None
            }
        } else {
            match parse_row_at(s, j + 1) {
                Some((r, p)) => if j + 1 < p && p <= s.len() {
                    rows_from(s, p, seq![r])
                } else {
                    None
                },
                None => None,
            }
        }
    } else {
        None
    }
}

/// Powers of ten, for bounding digit runs.
pub open spec fn pow10(n: int) -> int
    decreases n,
{
    if n <= 0 {
        1
    } else {
        10 * pow10(n - 1)
    }
}

proof fn lemma_uint_value_bound(s: Seq<char>, i: int, j: int)
    requires
        0 <= i <= j <= s.len(),
        forall|q: int| i <= q < j ==> is_digit(#[trigger] s[q]),
    ensures
        0 <= uint_value(s, i, j) < pow10(j - i),
    decreases j - i,
{
    if i < j {
        lemma_uint_value_bound(s, i, j - 1);
    }
}

proof fn lemma_pow10_pos(n: int)
    ensures
        pow10(n) >= 1,
    decreases n,
{
    if n > 0 {
        lemma_pow10_pos(n - 1);
    }
}

proof fn lemma_pow10_mono(a: int, b: int)
    requires
        a <= b,
    ensures
        pow10(a) <= pow10(b),
    decreases b - a,
{
    if a < b {
        lemma_pow10_mono(a, b - 1);
        lemma_pow10_pos(b - 1);
    }
}

proof fn lemma_digits_are_digits(s: Seq<char>, i: int, q: int)
    requires
        0 <= i <= q,
        q < digits_end(s, i),
    ensures
        q < s.len() && is_digit(s[q]),
    decreases q - i,
{
    if i < q {
        lemma_digits_are_digits(s, i + 1, q)
    }
}

/// Skips whitespace starting at `i`.
pub(crate) fn scan_ws(s: &Vec<char>, i: usize) -> (r: usize)
    requires
        i <= s@.len(),
    ensures
        r == ws_end(s@, i as int),
        i <= r <= s@.len(),
{
    let mut cur = i;
    while cur < s.len() && (s[cur] == ' ' || s[cur] == '\t' || s[cur] == '\n' || s[cur] == '\r')
        invariant
            i <= cur <= s@.len(),
            ws_end(s@, i as int) == ws_end(s@, cur as int),
        decreases s@.len() - cur,
    {
        cur = cur + 1;
    }
    cur
}

/// Skips digits starting at `i`.
fn scan_digits(s: &Vec<char>, i: usize) -> (r: usize)
    requires
        i <= s@.len(),
    ensures
        r == digits_end(s@, i as int),
        i <= r <= s@.len(),
{
    let mut cur = i;
    while cur < s.len() && '0' <= s[cur] && s[cur] <= '9'
        invariant
            i <= cur <= s@.len(),
            digits_end(s@, i as int) == digits_end(s@, cur as int),
        decreases s@.len() - cur,
    {
        cur = cur + 1;
    }
    cur
}

/// Reads an unsigned number at `i` per `parse_uint_at`.
pub(crate) fn read_uint(s: &Vec<char>, i: usize) -> (r: Option<(i64, usize)>)
    requires
        i <= s@.len(),
    ensures
        r is Some <==> parse_uint_at(s@, i as int) is Some,
        r matches Some(p) ==> parse_uint_at(s@, i as int) == Some((p.0 as int, p.1 as int))
            && 0 <= p.0 && i < p.1 <= s@.len(),
{
    let e = scan_digits(s, i);
    if e == i || e - i > 18 {
        return None;
    }
    proof {
        assert forall|q: int| i <= q < e implies is_digit(#[trigger] s@[q]) by {
            lemma_digits_are_digits(s@, i as int, q);
        }
        lemma_uint_value_bound(s@, i as int, e as int);
        lemma_pow10_mono(e - i, 18);
        assert(pow10(18) == 1000000000000000000) by {
            reveal_with_fuel(pow10, 19);
        }
    }
    let mut acc: u64 = 0;
    let mut k = i;
    while k < e
        invariant
            i <= k <= e <= s@.len(),
            e - i <= 18,
            forall|q: int| i <= q < e ==> is_digit(#[trigger] s@[q]),
            acc == uint_value(s@, i as int, k as int),
            acc < pow10(k - i),
            pow10(18) == 1000000000000000000,
        decreases e - k,
    {
        proof {
            lemma_pow10_mono(k - i + 1, 18);
        }
        let d = (s[k] as u32) - ('0' as u32);
        acc = acc * 10 + (d as u64);
        k = k + 1;
    }
    proof {
        lemma_pow10_mono(e - i, 18);
    }
    Some((acc as i64, e))
}

/// Reads a possibly negated number at `i` per `parse_int_at`.
fn read_int(s: &Vec<char>, i: usize) -> (r: Option<(i64, usize)>)
    requires
        i <= s@.len(),
    ensures
        r is Some <==> parse_int_at(s@, i as int) is Some,
        r matches Some(p) ==> parse_int_at(s@, i as int) == Some((p.0 as int, p.1 as int))
            && i < p.1 <= s@.len(),
{
    if i < s.len() && s[i] == '-' {
        match read_uint(s, i + 1) {
            Some((v, e)) => Some((-v, e)),
            None => None,
        }
    } else {
        read_uint(s, i)
    }
}

/// Reads a quote-delimited string at `i` per `parse_string_at`.
fn read_string(s: &Vec<char>, i: usize) -> (r: Option<(String, usize)>)
    requires
        i <= s@.len(),
    ensures
        r is Some <==> parse_string_at(s@, i as int) is Some,
        r matches Some(p) ==> {
            &&& parse_string_at(s@, i as int) matches Some(q)
            &&& p.0@ == q.0
            &&& p.1 == q.1
            &&& i < p.1 <= s@.len()
        },
{
    if !(i < s.len() && s[i] == '"') {
        return None;
    }
    let mut cur = i + 1;
    let mut content: Vec<char> = Vec::new();
    while cur < s.len() && s[cur] != '"'
        invariant
            i + 1 <= cur <= s@.len(),
            string_close(s@, i + 1) == string_close(s@, cur as int),
            content@ == s@.subrange(i + 1, cur as int),
        decreases s@.len() - cur,
    {
        content.push(s[cur]);
        proof {
            assert(content@ =~= s@.subrange(i + 1, cur + 1));
        }
        cur = cur + 1;
    }
    if cur == s.len() {
        return None;
    }
    let text = string_from_chars(&content);
    Some((text, cur + 1))
}

/// Reads a field label at `i` per `after_label`; `label` holds the quoted
/// label characters.
fn read_after_label(s: &Vec<char>, i: usize, label: &Vec<char>) -> (r: Option<usize>)
    requires
        i <= s@.len(),
    ensures
        r is Some <==> after_label(s@, i as int, label@) >= 0,
        r matches Some(p) ==> p == after_label(s@, i as int, label@) && i <= p <= s@.len(),
{
    let j = scan_ws(s, i);
    if label.len() > s.len() - j {
        proof {
            assert(!match_at(s@, j as int, label@));
        }
        return None;
    }
    if !crate::text::matches_at(s, label, j) {
        return None;
    }
    let j2 = scan_ws(s, j + label.len());
    if j2 < s.len() && s[j2] == ':' {
        Some(scan_ws(s, j2 + 1))
    } else {
        None
    }
}

/// Reads one row object at `i` per `parse_row_at`.
fn read_row(s: &Vec<char>, i: usize) -> (r: Option<(DataRow, usize)>)
    requires
        i <= s@.len(),
    ensures
        r is Some <==> parse_row_at(s@, i as int) is Some,
        r matches Some(p) ==> {
            &&& parse_row_at(s@, i as int) matches Some(q)
            &&& row_matches(p.0, q.0)
            &&& p.1 == q.1
            &&& i < p.1 <= s@.len()
        },
{
    let j = scan_ws(s, i);
    if !(j < s.len() && s[j] == '{') {
        return None;
    }
    let label_id = chars_of("\"id\"");
    let a1 = match read_after_label(s, j + 1, &label_id) {
        Some(a) => a,
        None => { return None; },
    };
    let (idv, p1) = match read_int(s, a1) {
        Some(p) => p,
        None => { return None; },
    };
    if !(0 <= idv && idv <= u32::MAX as i64) {
        return None;
    }
    let c1 = scan_ws(s, p1);
    if !(c1 < s.len() && s[c1] == ',') {
        return None;
    }
    let label_cat = chars_of("\"category\"");
    let a2 = match read_after_label(s, c1 + 1, &label_cat) {
        Some(a) => a,
        None => { return None; },
    };
    let (cat, p2) = match read_string(s, a2) {
        Some(p) => p,
        None => { return None; },
    };
    let c2 = scan_ws(s, p2);
    if !(c2 < s.len() && s[c2] == ',') {
        return None;
    }
    let label_sales = chars_of("\"sales\"");
    let a3 = match read_after_label(s, c2 + 1, &label_sales) {
        Some(a) => a,
        None => { return None; },
    };
    let (salev, p3) = match read_int(s, a3) {
        Some(p) => p,
        None => { return None; },
    };
    let c3 = scan_ws(s, p3);
    if !(c3 < s.len() && s[c3] == ',') {
        return None;
    }
    let label_region = chars_of("\"region\"");
    let a4 = match read_after_label(s, c3 + 1, &label_region) {
        Some(a) => a,
        None => { return None; },
    };
    let (reg, p4) = match read_string(s, a4) {
        Some(p) => p,
        None => { return None; },
    };
    let e = scan_ws(s, p4);
    if !(e < s.len() && s[e] == '}') {
        return None;
    }
    Some((DataRow { id: idv as u32, category: cat, sales: salev, region: reg }, e + 1))
}

/// Why a load was rejected.
#[derive(Clone, Copy, Debug, PartialEq, Eq, Structural)]
pub enum LoadError {
    /// The text does not follow the row-ingestion format.
    MalformedInput,
}

/// Parses a whole ingestion text into rows. Succeeds exactly on the texts the
/// format accepts (`parse_rows_text`), and then yields exactly the parsed
/// rows.
pub fn parse_rows(text: &str) -> (r: Result<Vec<DataRow>, LoadError>)
    ensures
        r is Ok <==> parse_rows_text(text@) is Some,
        r matches Ok(v) ==> rows_match(v@, parse_rows_text(text@).unwrap()),
{
    let s = chars_of(text);
    let j = scan_ws(&s, 0);
    if !(j < s.len() && s[j] == '[') {
        return Err(LoadError::MalformedInput);
    }
    let j2 = scan_ws(&s, j + 1);
    if j2 < s.len() && s[j2] == ']' {
        if scan_ws(&s, j2 + 1) == s.len() {
            let out: Vec<DataRow> = Vec::new();
            return Ok(out);
        } else {
            return Err(LoadError::MalformedInput);
        }
    }
    let (row0, p0) = match read_row(&s, j + 1) {
        Some(p) => p,
        None => { return Err(LoadError::MalformedInput); },
    };
    let mut acc: Vec<DataRow> = Vec::new();
    let ghost mut macc: Seq<RowModel> = seq![parse_row_at(s@, j + 1).unwrap().0];
    acc.push(row0);
    let mut cur = p0;
    loop
        invariant
            cur <= s@.len(),
            text@ == s@,
            rows_match(acc@, macc),
            parse_rows_text(text@) == rows_from(s@, cur as int, macc),
        decreases s@.len() - cur,
    {
        let j3 = scan_ws(&s, cur);
        if j3 < s.len() && s[j3] == ']' {
            if scan_ws(&s, j3 + 1) == s.len() {
                return Ok(acc);
            } else {
                return Err(LoadError::MalformedInput);
            }
        }
        if !(j3 < s.len() && s[j3] == ',') {
            return Err(LoadError::MalformedInput);
        }
        let (row, p) = match read_row(&s, j3 + 1) {
            Some(p) => p,
            None => { return Err(LoadError::MalformedInput); },
        };
        acc.push(row);
        proof {
            macc = macc.push(parse_row_at(s@, j3 + 1).unwrap().0);
        }
        cur = p;
    }
}

} // verus!
