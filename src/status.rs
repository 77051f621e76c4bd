//! The status record of one process: its model, and the parser that reads
//! `Pid`, `Name` and `VmSwap` out of its `Label: value` lines.

use vstd::prelude::*;
use crate::text::{
    chars_of, digits_value_upto, find_char, index_of, parse_i32, parse_usize, trim, trim_bounds,
};

verus! {

/// The error type of `std::io`, carried unchanged as the cause of a failure.
#[verifier::external_type_specification]
#[verifier::external_body]
pub struct ExIoError(std::io::Error);

/// Why one process could not be reported.
#[derive(Debug)]
pub enum ReadError {
    /// The record could not be opened or read.
    IoError(std::io::Error),
    /// A `Pid` or `VmSwap` value is not in the expected form.
    InvalidValue,
}

impl From<std::io::Error> for ReadError {
    fn from(e: std::io::Error) -> Self {
        ReadError::IoError(e)
    }
}

impl vstd::std_specs::convert::FromSpecImpl<std::io::Error> for ReadError {
    open spec fn obeys_from_spec() -> bool {
        true
    }

    open spec fn from_spec(e: std::io::Error) -> Self {
        ReadError::IoError(e)
    }
}

/// The fields read out of one status record.
#[derive(Debug)]
pub struct ProcessStatus {
    pub pid: i32,
    pub process_name: String,
    /// `None` where the record has no `VmSwap` line.
    pub vm_swap: Option<usize>,
}

/// The abstract content of a `ProcessStatus`.
pub struct StatusView {
    pub pid: i32,
    pub name: Seq<char>,
    pub swap: Option<usize>,
}

impl View for ProcessStatus {
    type V = StatusView;

    open spec fn view(&self) -> StatusView {
        StatusView { pid: self.pid, name: self.process_name@, swap: self.vm_swap }
    }
}

/// The state before any line is read: pid 0, empty name, no swap line.
pub open spec fn empty_status() -> StatusView {
    StatusView { pid: 0, name: Seq::empty(), swap: None }
}

/// The labels of the three fields, and the unit of the swap amount.
pub open spec fn pid_label() -> Seq<char> {
    seq!['P', 'i', 'd']
}

pub open spec fn name_label() -> Seq<char> {
    seq!['N', 'a', 'm', 'e']
}

pub open spec fn swap_label() -> Seq<char> {
    seq!['V', 'm', 'S', 'w', 'a', 'p']
}

pub open spec fn kb_suffix() -> Seq<char> {
    seq![' ', 'k', 'B']
}

/// The amount of a `VmSwap` value: a number followed by exactly " kB".
pub open spec fn parse_kb(value: Seq<char>) -> Option<usize> {
    if value.len() >= 3 && value.subrange(value.len() - 3, value.len() as int) == kb_suffix() {
        parse_usize(value.subrange(0, value.len() - 3))
    } else {
        None
    }
}

/// The effect of one line on the fields read so far; `None` where the line
/// makes the record invalid. The label is what precedes the first colon, the
/// value what follows it, trimmed.
pub open spec fn apply_line(st: StatusView, line: Seq<char>) -> Option<StatusView> {
    let k = index_of(line, ':');
    if k < 0 {
        Some(st)
    } else {
        let label = line.subrange(0, k);
        let value = trim(line.subrange(k + 1, line.len() as int));
        if label == pid_label() {
            match parse_i32(value) {
                Some(p) => Some(StatusView { pid: p, name: st.name, swap: st.swap }),
                None => None,
            }
        } else if label == name_label() {
            Some(StatusView { pid: st.pid, name: st.name + value, swap: st.swap })
        } else if label == swap_label() {
            match parse_kb(value) {
                Some(n) => Some(StatusView { pid: st.pid, name: st.name, swap: Some(n) }),
                None => None,
            }
        } else {
            Some(st)
        }
    }
}

/// The fields of a record made of `lines`, read in order, or `None` where one
/// of them is invalid.
pub open spec fn parse_status(lines: Seq<Seq<char>>) -> Option<StatusView>
    decreases lines.len(),
{
    if lines.len() == 0 {
        Some(empty_status())
    } else {
        match parse_status(lines.drop_last()) {
            Some(st) => apply_line(st, lines.last()),
            None => None,
        }
    }
}

/// The outcome of parsing, with the record's fields in abstract form.
pub open spec fn outcome_view(r: Result<ProcessStatus, ReadError>) -> Result<StatusView, ReadError> {
    match r {
        Ok(s) => Ok(s@),
        Err(e) => Err(e),
    }
}

/// The outcome that a record made of `lines` must give.
pub open spec fn expected_outcome(lines: Seq<Seq<char>>) -> Result<StatusView, ReadError> {
    match parse_status(lines) {
        Some(v) => Ok(v),
        None => Err(ReadError::InvalidValue),
    }
}

/// The text of each line.
pub open spec fn lines_view(lines: Seq<String>) -> Seq<Seq<char>> {
    lines.map_values(|l: String| l@)
}

impl Default for ProcessStatus {
    fn default() -> (r: Self)
        ensures
            r@ == empty_status(),
    {
        ProcessStatus { pid: 0, process_name: String::new(), vm_swap: None }
    }
}

fn label_is_pid(cs: &Vec<char>, k: usize) -> (r: bool)
    requires
        k <= cs@.len(),
    ensures
        r == (cs@.subrange(0, k as int) == pid_label()),
{
    let r = k == 3 && cs[0] == 'P' && cs[1] == 'i' && cs[2] == 'd';
    if r {
        assert(cs@.subrange(0, k as int) =~= pid_label());
    } else {
        assert(cs@.subrange(0, k as int) != pid_label()) by {
            let l = cs@.subrange(0, k as int);
            assert(pid_label().len() == 3);
            assert(pid_label()[0] == 'P' && pid_label()[1] == 'i' && pid_label()[2] == 'd');
            if k == 3 {
                assert(l[0] != 'P' || l[1] != 'i' || l[2] != 'd');
            }
        }
    }
    r
}

fn label_is_name(cs: &Vec<char>, k: usize) -> (r: bool)
    requires
        k <= cs@.len(),
    ensures
        r == (cs@.subrange(0, k as int) == name_label()),
{
    let r = k == 4 && cs[0] == 'N' && cs[1] == 'a' && cs[2] == 'm' && cs[3] == 'e';
    if r {
        assert(cs@.subrange(0, k as int) =~= name_label());
    } else {
        assert(cs@.subrange(0, k as int) != name_label()) by {
            let l = cs@.subrange(0, k as int);
            assert(name_label().len() == 4);
            assert(name_label()[0] == 'N' && name_label()[1] == 'a' && name_label()[2] == 'm' && name_label()[3] == 'e');
            if k == 4 {
                assert(l[0] != 'N' || l[1] != 'a' || l[2] != 'm' || l[3] != 'e');
            }
        }
    }
    r
}

fn label_is_swap(cs: &Vec<char>, k: usize) -> (r: bool)
    requires
        k <= cs@.len(),
    ensures
        r == (cs@.subrange(0, k as int) == swap_label()),
{
    let r = k == 6 && cs[0] == 'V' && cs[1] == 'm' && cs[2] == 'S' && cs[3] == 'w' && cs[4] == 'a'
        && cs[5] == 'p';
    if r {
        assert(cs@.subrange(0, k as int) =~= swap_label());
    } else {
        assert(cs@.subrange(0, k as int) != swap_label()) by {
            let l = cs@.subrange(0, k as int);
            assert(swap_label().len() == 6);
            assert(swap_label()[0] == 'V' && swap_label()[1] == 'm' && swap_label()[2] == 'S' && swap_label()[3] == 'w' && swap_label()[4] == 'a' && swap_label()[5] == 'p');
            if k == 6 {
                assert(l[0] != 'V' || l[1] != 'm' || l[2] != 'S' || l[3] != 'w' || l[4] != 'a' || l[5]
                    != 'p');
            }
        }
    }
    r
}

/// `cs[lo..hi]` read as an `i32`, as `str::parse` reads it.
pub fn parse_i32_range(cs: &Vec<char>, lo: usize, hi: usize) -> (r: Option<i32>)
    requires
        lo <= hi <= cs@.len(),
    ensures
        r == parse_i32(cs@.subrange(lo as int, hi as int)),
{
    let ghost s = cs@.subrange(lo as int, hi as int);
    if lo < hi && cs[lo] == '-' {
        assert(s.drop_first() =~= cs@.subrange(lo + 1, hi as int));
        if lo + 1 == hi {
            return None;
        }
        match digits_value_upto(cs, lo + 1, hi, 0x8000_0000) {
            Some(v) => Some((-(v as i64)) as i32),
            None => None,
        }
    } else {
        let start: usize = if lo < hi && cs[lo] == '+' {
            assert(s.drop_first() =~= cs@.subrange(lo + 1, hi as int));
            lo + 1
        } else {
            lo
        };
        if start == hi {
            return None;
        }
        match digits_value_upto(cs, start, hi, 0x7fff_ffff) {
            Some(v) => Some(v as i32),
            None => None,
        }
    }
}

/// `cs[lo..hi]` read as a `usize`, as `str::parse` reads it.
pub fn parse_usize_range(cs: &Vec<char>, lo: usize, hi: usize) -> (r: Option<usize>)
    requires
        lo <= hi <= cs@.len(),
    ensures
        r == parse_usize(cs@.subrange(lo as int, hi as int)),
{
    let ghost s = cs@.subrange(lo as int, hi as int);
    let start: usize = if lo < hi && cs[lo] == '+' {
        assert(s.drop_first() =~= cs@.subrange(lo + 1, hi as int));
        lo + 1
    } else {
        lo
    };
    if start == hi {
        return None;
    }
    match digits_value_upto(cs, start, hi, usize::MAX as u64) {
        Some(v) => Some(v as usize),
        None => None,
    }
}

/// The swap amount that a record reports, with no `VmSwap` line counted as 0.
pub open spec fn reported_swap(st: StatusView) -> nat {
    match st.swap {
        Some(n) => n as nat,
        None => 0,
    }
}

impl ProcessStatus {
    /// The swap amount in kB, 0 where the record has no `VmSwap` line.
    pub fn swap_kb(&self) -> (r: usize)
        ensures
            r == reported_swap(self@),
    {
        match self.vm_swap {
            Some(n) => n,
            None => 0,
        }
    }

    /// `total` with this process's swap amount added, or `None` where the sum
    /// does not fit in a `usize`.
    pub fn add_swap_to(&self, total: usize) -> (r: Option<usize>)
        ensures
            total + reported_swap(self@) <= usize::MAX ==> r == Some(
                (total + reported_swap(self@)) as usize,
            ),
            total + reported_swap(self@) > usize::MAX ==> r is None,
    {
        total.checked_add(self.swap_kb())
    }

    /// Takes one line of the record into account. On an invalid value the
    /// fields are left as they were.
    pub fn apply_line(&mut self, line: &str) -> (r: Result<(), ReadError>)
        ensures
            match apply_line(old(self)@, line@) {
                Some(v) => r is Ok && final(self)@ == v,
                None => r == Err::<(), ReadError>(ReadError::InvalidValue) && final(self)@ == old(self)@,
            },
    {
        let cs = chars_of(line);
        let k = match find_char(&cs, ':') {
            None => {
                return Ok(());
            },
            Some(k) => k,
        };
        let (a, b) = trim_bounds(&cs, k + 1, cs.len());
        let ghost value = cs@.subrange(a as int, b as int);
        if label_is_pid(&cs, k) {
            match parse_i32_range(&cs, a, b) {
                Some(p) => {
                    self.pid = p;
                    Ok(())
                },
                None => Err(ReadError::InvalidValue),
            }
        } else if label_is_name(&cs, k) {
            let v = line.substring_char(a, b);
            self.process_name.append(v);
            Ok(())
        } else if label_is_swap(&cs, k) {
            if b - a >= 3 && cs[b - 3] == ' ' && cs[b - 2] == 'k' && cs[b - 1] == 'B' {
                assert(value.subrange(value.len() - 3, value.len() as int) =~= kb_suffix());
                assert(value.subrange(0, value.len() - 3) =~= cs@.subrange(a as int, b - 3));
                match parse_usize_range(&cs, a, b - 3) {
                    Some(n) => {
                        self.vm_swap = Some(n);
                        Ok(())
                    },
                    None => Err(ReadError::InvalidValue),
                }
            } else {
                assert(parse_kb(value) is None) by {
                    if value.len() >= 3 {
                        let t = value.subrange(value.len() - 3, value.len() as int);
                        assert(t[0] == cs@[b - 3] && t[1] == cs@[b - 2] && t[2] == cs@[b - 1]);
                        assert(t != kb_suffix());
                    }
                }
                Err(ReadError::InvalidValue)
            }
        } else {
            Ok(())
        }
    }
}

/// Once a line has made the record invalid, no later line makes it valid.
pub proof fn lemma_invalid_prefix(lines: Seq<Seq<char>>, k: int)
    requires
        0 <= k <= lines.len(),
        parse_status(lines.subrange(0, k)) is None,
    ensures
        parse_status(lines) is None,
    decreases lines.len(),
{
    if k < lines.len() {
        assert(lines.drop_last().subrange(0, k) =~= lines.subrange(0, k));
        lemma_invalid_prefix(lines.drop_last(), k);
    } else {
        assert(lines.subrange(0, k) =~= lines);
    }
}

/// Parses a whole status record given as its lines, in order.
pub fn parse_status_lines(lines: &Vec<String>) -> (r: Result<ProcessStatus, ReadError>)
    ensures
        outcome_view(r) == expected_outcome(lines_view(lines@)),
{
    let ghost all = lines_view(lines@);
    let mut status = ProcessStatus::default();
    let mut i: usize = 0;
    assert(all.subrange(0, 0) =~= Seq::<Seq<char>>::empty());
    while i < lines.len()
        invariant
            i <= lines@.len(),
            all == lines_view(lines@),
            parse_status(all.subrange(0, i as int)) == Some(status@),
        decreases lines@.len() - i,
    {
        assert(all.subrange(0, i + 1).drop_last() =~= all.subrange(0, i as int));
        match status.apply_line(lines[i].as_str()) {
            Ok(()) => {},
            Err(e) => {
                proof {
                    lemma_invalid_prefix(all, i + 1);
                }
                return Err(e);
            },
        }
        i = i + 1;
    }
    assert(all.subrange(0, i as int) =~= all);
    Ok(status)
}

/// Parsing depends on the record's lines alone: two parses of the same
/// lines give the same outcome.
pub proof fn lemma_parse_repeatable(
    lines: Seq<Seq<char>>,
    first: Result<ProcessStatus, ReadError>,
    second: Result<ProcessStatus, ReadError>,
)
    requires
        outcome_view(first) == expected_outcome(lines),
        outcome_view(second) == expected_outcome(lines),
    ensures
        outcome_view(first) == outcome_view(second),
{
}

} // verus!
