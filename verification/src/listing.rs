//! The socket listing: one record for each well-formed line of the listing
//! tool's output.

use vstd::prelude::*;
use crate::number::{number_or_zero, parse_number};
use crate::text::{
    after_last_colon, all_numeric, is_all_numeric, lines, split_lines, split_words, tail_after_colon,
    texts, words,
};

verus! {

/// The least number of fields of a line that describes a socket.
pub const MIN_FIELDS: usize = 9;

/// One listening socket, as one line of the listing describes it.
#[derive(Debug, Clone, PartialEq, Eq)]
pub struct RawSocketRecord {
    pub process_name: String,
    pub pid: u32,
    pub protocol: String,
    pub address: String,
}

/// The mathematical content of a `RawSocketRecord`.
pub ghost struct RecordView {
    pub process_name: Seq<char>,
    pub pid: u32,
    pub protocol: Seq<char>,
    pub address: Seq<char>,
}

impl View for RawSocketRecord {
    type V = RecordView;

    open spec fn view(&self) -> RecordView {
        RecordView {
            process_name: self.process_name@,
            pid: self.pid,
            protocol: self.protocol@,
            address: self.address@,
        }
    }
}

impl RecordView {
    /// The port: the part of the address after its last colon.
    pub open spec fn port(self) -> Seq<char> {
        after_last_colon(self.address)
    }
}

/// The views of a sequence of records.
pub open spec fn record_views(v: Seq<RawSocketRecord>) -> Seq<RecordView> {
    v.map_values(|r: RawSocketRecord| r@)
}

/// The record that a line with these fields describes, given whether its
/// port is numeric: none where the fields are too few or the port is not
/// numeric. A process id that is no number counts as zero.
pub open spec fn record_of_fields(fields: Seq<Seq<char>>, port_numeric: bool) -> Option<RecordView> {
    if fields.len() >= MIN_FIELDS && port_numeric {
        Some(
            RecordView {
                process_name: fields[0],
                pid: number_or_zero(fields[1]),
                protocol: fields[7],
                address: fields[8],
            },
        )
    } else {
        None
    }
}

/// Whether a line has enough fields and a numeric port.
pub open spec fn describes_socket(line: Seq<char>) -> bool {
    words(line).len() >= MIN_FIELDS && all_numeric(after_last_colon(words(line)[8]))
}

/// The record that a line describes, if any.
pub open spec fn parse_line(line: Seq<char>) -> Option<RecordView> {
    record_of_fields(words(line), describes_socket(line))
}

/// The records of a sequence of lines, in the order of the lines; a line
/// that describes no socket contributes nothing.
pub open spec fn records_of_lines(ls: Seq<Seq<char>>) -> Seq<RecordView>
    decreases ls.len(),
{
    if ls.len() == 0 {
        Seq::empty()
    } else {
        match parse_line(ls.last()) {
            Some(r) => records_of_lines(ls.drop_last()).push(r),
            None => records_of_lines(ls.drop_last()),
        }
    }
}

/// The records of a listing: those of its lines after the header line.
pub open spec fn listing_records(text: Seq<char>) -> Seq<RecordView> {
    records_of_lines(lines(text).skip(1))
}

impl RawSocketRecord {
    /// Builds the record of a line from its fields and from whether its port
    /// is numeric.
    pub fn from_fields(fields: &Vec<String>, port_numeric: bool) -> (r: Option<RawSocketRecord>)
        ensures
            match r {
                Some(rec) => record_of_fields(texts(fields@), port_numeric) == Some(rec@),
                None => record_of_fields(texts(fields@), port_numeric) is None,
            },
    {
        if fields.len() < MIN_FIELDS || !port_numeric {
            return None;
        }
        let pid = match parse_number(fields[1].as_str()) {
            Some(n) => n,
            None => 0,
        };
        Some(
            RawSocketRecord {
                process_name: fields[0].clone(),
                pid,
                protocol: fields[7].clone(),
                address: fields[8].clone(),
            },
        )
    }

    /// The port of the record.
    pub fn port(&self) -> (p: String)
        ensures
            p@ == self@.port(),
    {
        tail_after_colon(self.address.as_str())
    }
}

/// Reads one line of the listing.
pub fn parse_listing_line(line: &str) -> (r: Option<RawSocketRecord>)
    ensures
        match r {
            Some(rec) => parse_line(line@) == Some(rec@),
            None => parse_line(line@) is None,
        },
        r is None <==> !describes_socket(line@),
{
    let fields = split_words(line);
    let numeric = if fields.len() >= MIN_FIELDS {
        let port = tail_after_colon(fields[8].as_str());
        is_all_numeric(port.as_str())
    } else {
        false
    };
    RawSocketRecord::from_fields(&fields, numeric)
}

/// Reads the listing: skips the header line, and gives the record of each
/// further line that describes a socket.
pub fn parse_socket_listing(text: &str) -> (out: Vec<RawSocketRecord>)
    ensures
        record_views(out@) == listing_records(text@),
{
    let ls = split_lines(text);
    let mut out: Vec<RawSocketRecord> = Vec::new();
    let mut i: usize = 1;
    let ghost body = lines(text@).skip(1);
    assert(body.take(0).len() == 0);
    while i < ls.len()
        invariant
            1 <= i <= ls.len(),
            texts(ls@) == lines(text@),
            body == lines(text@).skip(1),
            record_views(out@) == records_of_lines(body.take(i - 1)),
        decreases ls.len() - i,
    {
        let ghost before = out@;
        let ghost upto = body.take(i as int);
        assert(upto.drop_last() == body.take(i - 1));
        assert(upto.last() == ls@[i as int]@);
        match parse_listing_line(ls[i].as_str()) {
            Some(rec) => {
                out.push(rec);
                assert(record_views(out@) == record_views(before).push(rec@));
            },
            None => {},
        }
        i = i + 1;
    }
    assert(body.take(ls.len() - 1) == body);
    out
}

} // verus!
