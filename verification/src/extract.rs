//! Line classification and fixed-width record extraction.
//!
//! A line qualifies as a data record when its first six characters are
//! ASCII letters or digits. A qualifying line is sliced at fixed character
//! offsets into seven named fields; each field is trimmed of surrounding
//! whitespace, and the trailing field is reformatted by the time-delta
//! formatter. A line narrower than the fixed layout is rejected with a
//! typed error instead of an out-of-range access.

use crate::time_format::{format_spec, format_time, time_ok};
use vstd::prelude::*;

verus! {

/// An ASCII letter or digit.
pub open spec fn is_alnum(c: char) -> bool {
    ('a' <= c && c <= 'z') || ('A' <= c && c <= 'Z') || ('0' <= c && c <= '9')
}

/// A line is a data record exactly when its first six characters are
/// ASCII letters or digits.
pub open spec fn data_line(s: Seq<char>) -> bool {
    s.len() >= 6 && forall|i: int| 0 <= i < 6 ==> is_alnum(#[trigger] s[i])
}

/// Decides whether a raw line is a data record: true exactly when the
/// line has at least six characters and they are all ASCII alphanumeric.
pub fn should_process(line: &str) -> (r: bool)
    ensures
        r == data_line(line@),
{
    let n = line.unicode_len();
    if n < 6 {
        return false;
    }
    let mut i: usize = 0;
    while i < 6
        invariant
            0 <= i <= 6,
            line@.len() >= 6,
            forall|j: int| 0 <= j < i ==> is_alnum(#[trigger] line@[j]),
        decreases 6 - i,
    {
        let c = line.get_char(i);
        let ok = ('a' <= c && c <= 'z') || ('A' <= c && c <= 'Z') || ('0' <= c && c <= '9');
        if !ok {
            return false;
        }
        i = i + 1;
    }
    true
}

/// ASCII whitespace, as trimmed from the edges of a field.
pub open spec fn is_ws(c: char) -> bool {
    c == ' ' || c == '\t' || c == '\n' || c == '\r'
}

pub open spec fn trim_front(s: Seq<char>) -> Seq<char>
    decreases s.len(),
{
    if s.len() > 0 && is_ws(s[0]) {
        trim_front(s.skip(1))
    } else {
        s
    }
}

pub open spec fn trim_back(s: Seq<char>) -> Seq<char>
    decreases s.len(),
{
    if s.len() > 0 && is_ws(s.last()) {
        trim_back(s.drop_last())
    } else {
        s
    }
}

/// `s` without leading and trailing whitespace.
pub open spec fn trim_spec(s: Seq<char>) -> Seq<char> {
    trim_back(trim_front(s))
}

fn is_ws_char(c: char) -> (r: bool)
    ensures
        r == is_ws(c),
{
    c == ' ' || c == '\t' || c == '\n' || c == '\r'
}

/// Copies `s` without its leading and trailing whitespace.
pub fn trim_str(s: &str) -> (r: String)
    ensures
        r@ == trim_spec(s@),
{
    let n = s.unicode_len();
    let mut i: usize = 0;
    proof {
        assert(s@.skip(0) =~= s@);
    }
    while i < n && is_ws_char(s.get_char(i))
        invariant
            i <= n,
            n == s@.len(),
            trim_front(s@) == trim_front(s@.skip(i as int)),
        decreases n - i,
    {
        proof {
            assert(s@.skip(i as int).skip(1) =~= s@.skip(i as int + 1));
        }
        i = i + 1;
    }
    proof {
        if i < n {
            assert(trim_front(s@.skip(i as int)) == s@.skip(i as int));
        } else {
            assert(s@.skip(i as int) =~= Seq::<char>::empty());
        }
        assert(trim_front(s@) == s@.skip(i as int));
        assert(s@.skip(i as int) =~= s@.subrange(i as int, n as int));
    }
    let mut j: usize = n;
    while j > i && is_ws_char(s.get_char(j - 1))
        invariant
            i <= j <= n,
            n == s@.len(),
            trim_front(s@) == s@.subrange(i as int, n as int),
            trim_back(s@.subrange(i as int, n as int)) == trim_back(
                s@.subrange(i as int, j as int),
            ),
        decreases j,
    {
        proof {
            assert(s@.subrange(i as int, j as int).drop_last() =~= s@.subrange(
                i as int,
                j as int - 1,
            ));
        }
        j = j - 1;
    }
    proof {
        if j > i {
            assert(trim_back(s@.subrange(i as int, j as int)) == s@.subrange(i as int, j as int));
        } else {
            assert(s@.subrange(i as int, j as int) =~= Seq::<char>::empty());
        }
        assert(trim_spec(s@) == s@.subrange(i as int, j as int));
    }
    let piece = s.substring_char(i, j);
    String::from_str(piece)
}

/// A trimmed field carries no whitespace at either edge.
pub proof fn lemma_trim_no_edge_ws(s: Seq<char>)
    ensures
        trim_spec(s).len() > 0 ==> !is_ws(trim_spec(s)[0]),
        trim_spec(s).len() > 0 ==> !is_ws(trim_spec(s).last()),
{
    lemma_trim_front_no_lead(s);
    lemma_trim_back_keeps_first(trim_front(s));
}

proof fn lemma_trim_front_no_lead(s: Seq<char>)
    ensures
        trim_front(s).len() > 0 ==> !is_ws(trim_front(s)[0]),
    decreases s.len(),
{
    if s.len() > 0 && is_ws(s[0]) {
        lemma_trim_front_no_lead(s.skip(1));
    }
}

proof fn lemma_trim_back_keeps_first(s: Seq<char>)
    ensures
        trim_back(s).len() > 0 ==> trim_back(s)[0] == s[0],
        trim_back(s).len() > 0 ==> !is_ws(trim_back(s).last()),
    decreases s.len(),
{
    if s.len() > 0 && is_ws(s.last()) {
        lemma_trim_back_keeps_first(s.drop_last());
    }
}

/// One extracted record: the seven named fields of a qualifying line.
#[derive(Clone, Debug)]
pub struct Record {
    pub personnel_number: String,
    pub payroll_run_number: String,
    pub last_name: String,
    pub first_name: String,
    pub date: String,
    pub pay_code_description: String,
    pub value_change: String,
}

/// The mathematical image of a `Record`: its fields as character sequences.
pub struct RecordModel {
    pub personnel_number: Seq<char>,
    pub payroll_run_number: Seq<char>,
    pub last_name: Seq<char>,
    pub first_name: Seq<char>,
    pub date: Seq<char>,
    pub pay_code_description: Seq<char>,
    pub value_change: Seq<char>,
}

impl View for Record {
    type V = RecordModel;

    open spec fn view(&self) -> RecordModel {
        RecordModel {
            personnel_number: self.personnel_number@,
            payroll_run_number: self.payroll_run_number@,
            last_name: self.last_name@,
            first_name: self.first_name@,
            date: self.date@,
            pay_code_description: self.pay_code_description@,
            value_change: self.value_change@,
        }
    }
}

impl DeepView for Record {
    type V = RecordModel;

    open spec fn deep_view(&self) -> RecordModel {
        self.view()
    }
}

/// Failure of record extraction.
#[derive(Clone, Copy, Debug, PartialEq, Eq, Structural)]
pub enum ParseError {
    /// The line is narrower than the fixed column layout.
    LineTooShort,
    /// The trailing time field is not a readable decimal number.
    InvalidTimeValue,
}

/// Width of the fixed column layout up to the trailing time field.
pub const LINE_WIDTH: usize = 159;

/// What extraction returns for a given line: either the seven fields, each
/// trimmed (the trailing one reformatted), or the error owed to the line.
pub open spec fn extract_model(line: Seq<char>) -> Result<RecordModel, ParseError> {
    if line.len() < LINE_WIDTH {
        Err(ParseError::LineTooShort)
    } else if !time_ok(line.skip(LINE_WIDTH as int)) {
        Err(ParseError::InvalidTimeValue)
    } else {
        Ok(
            RecordModel {
                personnel_number: trim_spec(line.subrange(0, 12)),
                payroll_run_number: trim_spec(line.subrange(12, 26)),
                last_name: trim_spec(line.subrange(26, 58)),
                first_name: trim_spec(line.subrange(58, 82)),
                date: trim_spec(line.subrange(82, 92)),
                pay_code_description: trim_spec(line.subrange(92, 159)),
                value_change: format_spec(line.skip(LINE_WIDTH as int)),
            },
        )
    }
}

/// Slices a line at the fixed character offsets into a `Record`.
///
/// A line narrower than the layout is rejected as `LineTooShort`; a line
/// whose trailing field the time-delta formatter rejects is rejected as
/// `InvalidTimeValue`. Every other line of full width extracts.
pub fn line_to_map(line: &str) -> (r: Result<Record, ParseError>)
    ensures
        r is Ok <==> extract_model(line@) is Ok,
        r is Ok ==> r->Ok_0@ == extract_model(line@)->Ok_0,
        r is Err ==> r->Err_0 == extract_model(line@)->Err_0,
        line@.len() < LINE_WIDTH ==> r == Err::<Record, ParseError>(ParseError::LineTooShort),
{
    let n = line.unicode_len();
    if n < LINE_WIDTH {
        return Err(ParseError::LineTooShort);
    }
    let tail = line.substring_char(LINE_WIDTH, n);
    let value_change = match format_time(tail) {
        Ok(v) => v,
        Err(_) => {
            return Err(ParseError::InvalidTimeValue);
        },
    };
    let personnel_number = trim_str(line.substring_char(0, 12));
    let payroll_run_number = trim_str(line.substring_char(12, 26));
    let last_name = trim_str(line.substring_char(26, 58));
    let first_name = trim_str(line.substring_char(58, 82));
    let date = trim_str(line.substring_char(82, 92));
    let pay_code_description = trim_str(line.substring_char(92, 159));
    Ok(
        Record {
            personnel_number,
            payroll_run_number,
            last_name,
            first_name,
            date,
            pay_code_description,
            value_change,
        },
    )
}

/// Any line of full width whose trailing field the formatter accepts
/// extracts successfully, and every trimmed field is free of whitespace at
/// both edges.
pub proof fn lemma_extract_total(line: Seq<char>)
    requires
        line.len() >= LINE_WIDTH,
        time_ok(line.skip(LINE_WIDTH as int)),
    ensures
        extract_model(line) is Ok,
        trimmed_clean(extract_model(line)->Ok_0.personnel_number),
        trimmed_clean(extract_model(line)->Ok_0.payroll_run_number),
        trimmed_clean(extract_model(line)->Ok_0.last_name),
        trimmed_clean(extract_model(line)->Ok_0.first_name),
        trimmed_clean(extract_model(line)->Ok_0.date),
        trimmed_clean(extract_model(line)->Ok_0.pay_code_description),
{
    lemma_trim_no_edge_ws(line.subrange(0, 12));
    lemma_trim_no_edge_ws(line.subrange(12, 26));
    lemma_trim_no_edge_ws(line.subrange(26, 58));
    lemma_trim_no_edge_ws(line.subrange(58, 82));
    lemma_trim_no_edge_ws(line.subrange(82, 92));
    lemma_trim_no_edge_ws(line.subrange(92, 159));
}

/// A field with no whitespace at either edge.
pub open spec fn trimmed_clean(s: Seq<char>) -> bool {
    s.len() > 0 ==> !is_ws(s[0]) && !is_ws(s.last())
}

/// What a whole file's worth of lines yields: the records of the
/// qualifying lines in source order, or the error of the first qualifying
/// line that fails to extract.
pub open spec fn rows_model(lines: Seq<Seq<char>>) -> Result<Seq<RecordModel>, ParseError>
    decreases lines.len(),
{
    if lines.len() == 0 {
        Ok(Seq::empty())
    } else {
        let prefix = rows_model(lines.drop_last());
        if prefix is Err {
            prefix
        } else if !data_line(lines.last()) {
            prefix
        } else {
            match extract_model(lines.last()) {
                Ok(m) => Ok(prefix->Ok_0.push(m)),
                Err(e) => Err(e),
            }
        }
    }
}

proof fn lemma_rows_err_persists(lines: Seq<Seq<char>>, k: int)
    requires
        0 <= k <= lines.len(),
        rows_model(lines.take(k)) is Err,
    ensures
        rows_model(lines) == rows_model(lines.take(k)),
    decreases lines.len() - k,
{
    if k < lines.len() {
        assert(lines.take(k + 1).drop_last() =~= lines.take(k));
        assert(rows_model(lines.take(k + 1)) == rows_model(lines.take(k)));
        lemma_rows_err_persists(lines, k + 1);
        assert(lines.take(lines.len() as int) =~= lines);
    } else {
        assert(lines.take(k) =~= lines);
    }
}

/// Builds the record collection for one file's lines: non-qualifying lines
/// are skipped, qualifying lines are extracted in order, and the first
/// extraction failure aborts the file with its error.
pub fn rows_from_lines(lines: &Vec<String>) -> (r: Result<Vec<Record>, ParseError>)
    ensures
        r is Ok <==> rows_model(lines.deep_view()) is Ok,
        r is Ok ==> r->Ok_0.deep_view() == rows_model(lines.deep_view())->Ok_0,
        r is Err ==> r->Err_0 == rows_model(lines.deep_view())->Err_0,
{
    let ghost ls = lines.deep_view();
    let n = lines.len();
    let mut rows: Vec<Record> = Vec::new();
    let mut i: usize = 0;
    while i < n
        invariant
            i <= n,
            n == lines.len(),
            ls == lines.deep_view(),
            rows_model(ls.take(i as int)) is Ok,
            rows.deep_view() == rows_model(ls.take(i as int))->Ok_0,
        decreases n - i,
    {
        proof {
            assert(ls.take(i as int + 1).drop_last() =~= ls.take(i as int));
            assert(ls.take(i as int + 1).last() == lines@[i as int]@);
        }
        let line = &lines[i];
        if should_process(line.as_str()) {
            match line_to_map(line.as_str()) {
                Ok(rec) => {
                    rows.push(rec);
                    proof {
                        assert(rows.deep_view() =~= rows_model(ls.take(i as int + 1))->Ok_0);
                    }
                },
                Err(e) => {
                    proof {
                        lemma_rows_err_persists(ls, i as int + 1);
                    }
                    return Err(e);
                },
            }
        }
        i = i + 1;
    }
    proof {
        assert(ls.take(n as int) =~= ls);
    }
    Ok(rows)
}

/// The qualifying lines of a file, in source order.
pub open spec fn qualifying(lines: Seq<Seq<char>>) -> Seq<Seq<char>> {
    lines.filter(|l: Seq<char>| data_line(l))
}

/// A successfully built collection holds exactly one record per qualifying
/// line, in source order; non-qualifying lines contribute nothing.
pub proof fn lemma_rows_in_order(lines: Seq<Seq<char>>)
    requires
        rows_model(lines) is Ok,
    ensures
        rows_model(lines)->Ok_0.len() == qualifying(lines).len(),
        forall|i: int|
            0 <= i < qualifying(lines).len() ==> extract_model(#[trigger] qualifying(lines)[i])
                is Ok && rows_model(lines)->Ok_0[i] == extract_model(qualifying(lines)[i])->Ok_0,
    decreases lines.len(),
{
    reveal(Seq::filter);
    if lines.len() > 0 {
        lemma_rows_in_order(lines.drop_last());
    }
}

} // verus!
