//! The processing pipeline: batches of raw records are decoded as UTF-8,
//! quoted with the configured strategy, and joined with the configured
//! output delimiter, in input order.
//!
//! Reading the input stream, spawning workers and writing the output are
//! left to the surrounding program; everything that decides what the output
//! text is lives here.

use vstd::prelude::*;
use vstd::string::*;
use vstd::utf8::{valid_utf8, decode_utf8};

use crate::bulk::BulkReader;
use crate::bulk::records_from;
use crate::bulk::lemma_record_delim_only_last;
use crate::quote::DoQuote;
use crate::quote::QuoteBasic;
use crate::quote::QuotePrintable;
use crate::quote::quote_basic_spec;
use crate::quote::quote_printable_spec;
use crate::quote::lemma_printable_removes_controls;
use crate::quote::lemma_escape_quotes_no_char;
use crate::quote::lemma_replace_printable_no_char;
use crate::quote::escape_quotes;
use crate::quote::replace_printable;

verus! {

/// The output record separator.
pub enum XQuoOutDelimiter {
    Null,
    Lf,
}

/// A fully resolved configuration, as the command line produces it.
pub struct XQuoArgs {
    pub no_escape: bool,
    pub out_delimiter: XQuoOutDelimiter,
    pub workers: u8,
    pub bulk_lines: usize,
    pub input_from_tty: bool,
}

/// Why processing failed: a record was not valid UTF-8 text.
pub enum XQuoError {
    Encoding,
}

/// The delimiter character an `XQuoOutDelimiter` selects.
pub open spec fn delim_char_of(d: XQuoOutDelimiter) -> char {
    match d {
        XQuoOutDelimiter::Null => '\0',
        XQuoOutDelimiter::Lf => '\n',
    }
}

/// Relies on `std::str::from_utf8`: it succeeds exactly on valid UTF-8 and
/// yields the text those bytes encode.
#[verifier::external_body]
fn utf8_to_string(bytes: &Vec<u8>) -> (r: Option<String>)
    ensures
        r is Some <==> valid_utf8(bytes@),
        r matches Some(s) ==> s@ == decode_utf8(bytes@),
{
    match std::str::from_utf8(bytes.as_slice()) {
        Ok(s) => Some(s.to_owned()),
        Err(_) => None,
    }
}

/// A raw record with its trailing NUL delimiter stripped.
pub open spec fn strip_record(r: Seq<u8>) -> Seq<u8> {
    if r.len() > 0 && r[r.len() - 1] == 0 {
        r.drop_last()
    } else {
        r
    }
}

/// Whether every record of the batch is valid UTF-8 once stripped.
pub open spec fn batch_decodable(recs: Seq<Seq<u8>>) -> bool {
    forall|i: int| 0 <= i < recs.len() ==> valid_utf8(strip_record(#[trigger] recs[i]))
}

/// The quoted text of one raw record.
pub open spec fn quoted_record(r: Seq<u8>, no_escape: bool) -> Seq<char> {
    if no_escape {
        quote_basic_spec(decode_utf8(strip_record(r)))
    } else {
        quote_printable_spec(decode_utf8(strip_record(r)))
    }
}

/// The quoted records, each followed by the output delimiter.
pub open spec fn joined_records(recs: Seq<Seq<u8>>, no_escape: bool, d: char) -> Seq<char>
    decreases recs.len(),
{
    if recs.len() == 0 {
        Seq::empty()
    } else {
        quoted_record(recs[0], no_escape) + seq![d] + joined_records(recs.skip(1), no_escape, d)
    }
}

/// What one worker sends on for one batch: the quoted records joined with
/// the output delimiter, plus a trailing delimiter.
pub open spec fn worker_output(recs: Seq<Seq<u8>>, no_escape: bool, d: char) -> Seq<char> {
    if recs.len() == 0 {
        seq![d]
    } else {
        joined_records(recs, no_escape, d)
    }
}

proof fn lemma_joined_records_push(recs: Seq<Seq<u8>>, r: Seq<u8>, no_escape: bool, d: char)
    ensures
        joined_records(recs.push(r), no_escape, d) == joined_records(recs, no_escape, d)
            + quoted_record(r, no_escape) + seq![d],
    decreases recs.len(),
{
    if recs.len() == 0 {
        assert(recs.push(r)[0] == r);
        assert(recs.push(r).skip(1) =~= Seq::<Seq<u8>>::empty());
        assert(joined_records(recs.push(r).skip(1), no_escape, d) == Seq::<char>::empty());
        assert(joined_records(recs.push(r), no_escape, d) =~= joined_records(recs, no_escape, d)
            + quoted_record(r, no_escape) + seq![d]);
    } else {
        assert(recs.push(r)[0] == recs[0]);
        assert(recs.push(r).skip(1) =~= recs.skip(1).push(r));
        lemma_joined_records_push(recs.skip(1), r, no_escape, d);
        assert(joined_records(recs.push(r), no_escape, d) =~= joined_records(recs, no_escape, d)
            + quoted_record(r, no_escape) + seq![d]);
    }
}

/// Joining distributes over concatenation of record sequences.
pub proof fn lemma_joined_records_concat(a: Seq<Seq<u8>>, b: Seq<Seq<u8>>, no_escape: bool, d: char)
    ensures
        joined_records(a + b, no_escape, d) == joined_records(a, no_escape, d) + joined_records(
            b,
            no_escape,
            d,
        ),
    decreases a.len(),
{
    if a.len() == 0 {
        assert(a + b =~= b);
        assert(joined_records(a, no_escape, d) == Seq::<char>::empty());
        assert(joined_records(a, no_escape, d) + joined_records(b, no_escape, d) =~= joined_records(
            b,
            no_escape,
            d,
        ));
    } else {
        assert((a + b).len() > 0);
        assert((a + b)[0] == a[0]);
        assert((a + b).skip(1) =~= a.skip(1) + b);
        lemma_joined_records_concat(a.skip(1), b, no_escape, d);
        assert(joined_records(a + b, no_escape, d) =~= joined_records(a, no_escape, d)
            + joined_records(b, no_escape, d));
    }
}

/// The resolved tool: quoting strategy, output delimiter and pipeline knobs.
pub struct XQuo {
    no_escape: bool,
    out_delimiter: String,
    workers: u8,
    bulk_lines: usize,
    input_from_tty: bool,
}

impl XQuo {
    /// Whether the basic strategy (no control-character escaping) is in use.
    pub closed spec fn spec_no_escape(&self) -> bool {
        self.no_escape
    }

    /// The output delimiter character.
    pub closed spec fn delim(&self) -> char {
        self.out_delimiter@[0]
    }

    pub closed spec fn spec_workers(&self) -> u8 {
        self.workers
    }

    pub closed spec fn spec_bulk_lines(&self) -> usize {
        self.bulk_lines
    }

    pub closed spec fn spec_input_from_tty(&self) -> bool {
        self.input_from_tty
    }

    pub closed spec fn wf(&self) -> bool {
        self.out_delimiter@ =~= seq![self.delim()] && (self.delim() == '\n' || self.delim()
            == '\0')
    }

    pub fn new(args: XQuoArgs) -> (r: XQuo)
        ensures
            r.wf(),
            r.spec_no_escape() == args.no_escape,
            r.delim() == delim_char_of(args.out_delimiter),
            r.spec_workers() == args.workers,
            r.spec_bulk_lines() == args.bulk_lines,
            r.spec_input_from_tty() == args.input_from_tty,
    {
        let out_delimiter = match args.out_delimiter {
            XQuoOutDelimiter::Null => String::from_str("\0"),
            XQuoOutDelimiter::Lf => String::from_str("\n"),
        };
        proof {
            reveal_strlit("\0");
            reveal_strlit("\n");
            assert(out_delimiter@.len() == 1);
        }
        XQuo {
            no_escape: args.no_escape,
            out_delimiter,
            workers: args.workers,
            bulk_lines: args.bulk_lines,
            input_from_tty: args.input_from_tty,
        }
    }

    /// Quote every record of one batch and join the results with the output
    /// delimiter, appending a trailing delimiter.  Fails exactly when some
    /// record is not valid UTF-8.
    pub fn process_bulk(&self, bulk: &Vec<Vec<u8>>) -> (r: Result<String, XQuoError>)
        requires
            self.wf(),
        ensures
            r is Ok <==> batch_decodable(bulk.deep_view()),
            r matches Ok(s) ==> s@ == worker_output(
                bulk.deep_view(),
                self.spec_no_escape(),
                self.delim(),
            ),
    {
        let ghost dv = bulk.deep_view();
        if bulk.len() == 0 {
            let out = self.out_delimiter.clone();
            proof {
                assert(dv.len() == 0);
                assert(out@ =~= seq![self.delim()]);
            }
            return Ok(out);
        }
        let mut out = String::new();
        let mut i: usize = 0;
        while i < bulk.len()
            invariant
                self.wf(),
                dv == bulk.deep_view(),
                i <= dv.len(),
                forall|j: int| 0 <= j < i ==> valid_utf8(strip_record(#[trigger] dv[j])),
                out@ == joined_records(dv.take(i as int), self.spec_no_escape(), self.delim()),
            decreases bulk.len() - i,
        {
            let rec = &bulk[i];
            let n = rec.len();
            let keep: usize = if n > 0 && rec[n - 1] == 0 {
                n - 1
            } else {
                n
            };
            let mut stripped: Vec<u8> = Vec::new();
            let mut k: usize = 0;
            while k < keep
                invariant
                    keep <= rec@.len(),
                    k <= keep,
                    stripped@ == rec@.subrange(0, k as int),
                decreases keep - k,
            {
                stripped.push(rec[k]);
                proof {
                    assert(rec@.subrange(0, k + 1 as int) =~= rec@.subrange(0, k as int).push(
                        rec@[k as int],
                    ));
                }
                k = k + 1;
            }
            proof {
                assert(dv[i as int] == rec@);
                assert(stripped@ =~= strip_record(dv[i as int]));
            }
            match utf8_to_string(&stripped) {
                None => {
                    proof {
                        assert(!valid_utf8(strip_record(dv[i as int])));
                        assert(!batch_decodable(dv));
                    }
                    return Err(XQuoError::Encoding);
                },
                Some(line) => {
                    let q = if self.no_escape {
                        (QuoteBasic {  }).quote(line)
                    } else {
                        (QuotePrintable {  }).quote(line)
                    };
                    out.append(q.as_str());
                    out.append(self.out_delimiter.as_str());
                    proof {
                        assert(q@ == quoted_record(dv[i as int], self.spec_no_escape()));
                        assert(dv.take(i + 1 as int) =~= dv.take(i as int).push(dv[i as int]));
                        lemma_joined_records_push(
                            dv.take(i as int),
                            dv[i as int],
                            self.spec_no_escape(),
                            self.delim(),
                        );
                        assert(out@ =~= joined_records(
                            dv.take(i + 1 as int),
                            self.spec_no_escape(),
                            self.delim(),
                        ));
                    }
                },
            }
            i = i + 1;
        }
        proof {
            assert(dv.take(dv.len() as int) =~= dv);
        }
        Ok(out)
    }

    /// Quote a whole NUL-delimited byte stream: batch the records, process
    /// every batch in order, and concatenate the results.  Fails exactly
    /// when some record is not valid UTF-8.
    pub fn quote(&self, input: Vec<u8>) -> (r: Result<String, XQuoError>)
        requires
            self.wf(),
        ensures
            r is Ok <==> stream_decodable(input@),
            r matches Ok(s) ==> s@ == pipeline_output(input@, self.spec_no_escape(), self.delim()),
    {
        let ghost data = input@;
        let ghost recs = records_from(data, 0, 0);
        let mut reader = BulkReader::new(input, self.bulk_lines);
        let mut out = String::new();
        let ghost mut done: int = 0;
        loop
            invariant
                self.wf(),
                reader.wf(),
                data == input@,
                reader.stream() == data,
                recs == records_from(data, 0, 0),
                0 <= done <= recs.len(),
                records_from(reader.stream(), reader.cursor(), 0) == recs.skip(done),
                out@ == joined_records(recs.take(done), self.spec_no_escape(), self.delim()),
                forall|j: int| 0 <= j < done ==> valid_utf8(strip_record(#[trigger] recs[j])),
            ensures
                done == recs.len(),
                out@ == joined_records(recs.take(done), self.spec_no_escape(), self.delim()),
                forall|j: int| 0 <= j < done ==> valid_utf8(strip_record(#[trigger] recs[j])),
            decreases data.len() - reader.cursor(),
        {
            let (bulk, cnt) = reader.read(0);
            if cnt == 0 {
                proof {
                    assert(recs.skip(done).len() == 0);
                }
                break ;
            }
            let ghost bv = bulk.deep_view();
            proof {
                assert(bv == recs.skip(done).take(cnt as int));
            }
            match self.process_bulk(&bulk) {
                Err(e) => {
                    proof {
                        let j = choose|j: int|
                            0 <= j < bv.len() && !valid_utf8(strip_record(#[trigger] bv[j]));
                        assert(bv[j] == recs[done + j]);
                        assert(!valid_utf8(strip_record(recs[done + j])));
                        assert(!batch_decodable(recs));
                    }
                    return Err(e);
                },
                Ok(s) => {
                    out.append(s.as_str());
                    proof {
                        assert(bv.len() > 0);
                        assert(s@ == joined_records(bv, self.spec_no_escape(), self.delim()));
                        assert(recs.take(done + cnt as int) =~= recs.take(done) + bv);
                        lemma_joined_records_concat(
                            recs.take(done),
                            bv,
                            self.spec_no_escape(),
                            self.delim(),
                        );
                        assert(forall|j: int|
                            0 <= j < bv.len() ==> valid_utf8(strip_record(#[trigger] bv[j])));
                        assert(forall|j: int|
                            done <= j < done + bv.len() ==> recs[j] == bv[j - done]);
                        done = done + cnt as int;
                    }
                },
            }
        }
        proof {
            assert(recs.take(recs.len() as int) =~= recs);
        }
        Ok(out)
    }
}

/// Whether `c` is a decimal digit.
pub open spec fn is_digit(c: char) -> bool {
    48 <= c as u32 && c as u32 <= 57
}

/// The numeric value of a decimal digit character.
pub open spec fn digit_val(c: char) -> int {
    c as u32 - 48
}

/// The value of a sequence of decimal digits, most significant first.
pub open spec fn digits_value(s: Seq<char>) -> int
    decreases s.len(),
{
    if s.len() == 0 {
        0
    } else {
        10 * digits_value(s.drop_last()) + digit_val(s.last())
    }
}

pub open spec fn all_digits(s: Seq<char>) -> bool {
    forall|i: int| 0 <= i < s.len() ==> is_digit(#[trigger] s[i])
}

/// The digits of a numeral, with an optional leading `+` removed.
pub open spec fn numeral_body(s: Seq<char>) -> Seq<char> {
    if s.len() > 0 && s[0] == '+' {
        s.skip(1)
    } else {
        s
    }
}

/// Whether `s` is a decimal numeral (optional leading `+`, at least one
/// digit) whose value is at most `max`.
pub open spec fn parses_as_uint(s: Seq<char>, max: int) -> bool {
    numeral_body(s).len() > 0 && all_digits(numeral_body(s)) && digits_value(numeral_body(s))
        <= max
}

proof fn lemma_digits_value_nonneg(s: Seq<char>)
    requires
        all_digits(s),
    ensures
        digits_value(s) >= 0,
    decreases s.len(),
{
    if s.len() > 0 {
        assert(forall|i: int| 0 <= i < s.drop_last().len() ==> is_digit(#[trigger] s.drop_last()[i]));
        lemma_digits_value_nonneg(s.drop_last());
    }
}

/// A digit string is worth at least any of its prefixes.
proof fn lemma_digits_value_mono(s: Seq<char>, j: int)
    requires
        all_digits(s),
        0 <= j <= s.len(),
    ensures
        digits_value(s) >= digits_value(s.take(j)),
    decreases s.len() - j,
{
    if j < s.len() {
        lemma_digits_value_mono(s, j + 1);
        assert(s.take(j + 1).drop_last() =~= s.take(j));
        assert(s.take(j + 1).last() == s[j]);
        assert(forall|i: int| 0 <= i < s.take(j).len() ==> is_digit(#[trigger] s.take(j)[i]));
        lemma_digits_value_nonneg(s.take(j));
        assert(digits_value(s.take(j + 1)) == 10 * digits_value(s.take(j)) + digit_val(s[j]));
    } else {
        assert(s.take(j) =~= s);
    }
}

/// Parse a worker-count flag value: a decimal `u8` numeral, with values of
/// zero clamped to one.
pub fn workers_range(s: &str) -> (r: Result<u8, String>)
    ensures
        r is Ok <==> parses_as_uint(s@, u8::MAX as int),
        r matches Ok(n) ==> ({
            let v = digits_value(numeral_body(s@));
            n == if v > 0 {
                v
            } else {
                1int
            }
        }),
{
    let n = s.unicode_len();
    let start: usize = if n > 0 && s.get_char(0) == '+' {
        1
    } else {
        0
    };
    let ghost body = numeral_body(s@);
    proof {
        assert(body =~= s@.skip(start as int));
    }
    if n == start {
        return Err(String::from_str("cannot parse integer from empty string"));
    }
    let mut acc: u32 = 0;
    let mut i: usize = start;
    while i < n
        invariant
            n == s@.len(),
            body == numeral_body(s@),
            body =~= s@.skip(start as int),
            start <= i <= n,
            forall|k: int| 0 <= k < i - start ==> is_digit(#[trigger] body[k]),
            acc as int == digits_value(body.take(i - start)),
            acc <= 255,
        decreases n - i,
    {
        let c = s.get_char(i);
        let u = c as u32;
        if u < 48 || u > 57 {
            proof {
                assert(!is_digit(body[i - start]));
            }
            return Err(String::from_str("invalid digit found in string"));
        }
        let d = u - 48;
        acc = acc * 10 + d;
        proof {
            assert(body.take(i - start + 1).drop_last() =~= body.take(i - start));
            assert(body.take(i - start + 1).last() == body[i - start]);
            assert(acc as int == digits_value(body.take(i - start + 1)));
        }
        if acc > 255 {
            proof {
                if all_digits(body) {
                    lemma_digits_value_mono(body, i - start + 1);
                }
            }
            return Err(String::from_str("number too large to fit in target type"));
        }
        i = i + 1;
    }
    proof {
        assert(body.take(n - start) =~= body);
    }
    let v: u8 = acc as u8;
    if v > 0 {
        Ok(v)
    } else {
        Ok(1)
    }
}

/// Parse a batch-size flag value: a decimal `usize` numeral, with values of
/// zero clamped to one.
pub fn bulk_range(s: &str) -> (r: Result<usize, String>)
    ensures
        r is Ok <==> parses_as_uint(s@, usize::MAX as int),
        r matches Ok(n) ==> ({
            let v = digits_value(numeral_body(s@));
            n == if v > 0 {
                v
            } else {
                1int
            }
        }),
{
    let n = s.unicode_len();
    let start: usize = if n > 0 && s.get_char(0) == '+' {
        1
    } else {
        0
    };
    let ghost body = numeral_body(s@);
    proof {
        assert(body =~= s@.skip(start as int));
    }
    if n == start {
        return Err(String::from_str("cannot parse integer from empty string"));
    }
    let mut acc: usize = 0;
    let mut i: usize = start;
    while i < n
        invariant
            n == s@.len(),
            body == numeral_body(s@),
            body =~= s@.skip(start as int),
            start <= i <= n,
            forall|k: int| 0 <= k < i - start ==> is_digit(#[trigger] body[k]),
            acc as int == digits_value(body.take(i - start)),
        decreases n - i,
    {
        let c = s.get_char(i);
        let u = c as u32;
        if u < 48 || u > 57 {
            proof {
                assert(!is_digit(body[i - start]));
            }
            return Err(String::from_str("invalid digit found in string"));
        }
        let d: usize = (u - 48) as usize;
        proof {
            assert(body.take(i - start + 1).drop_last() =~= body.take(i - start));
            assert(body.take(i - start + 1).last() == body[i - start]);
        }
        let scaled = match acc.checked_mul(10) {
            Some(t) => t,
            None => {
                proof {
                    if all_digits(body) {
                        lemma_digits_value_mono(body, i - start + 1);
                    }
                }
                return Err(String::from_str("number too large to fit in target type"));
            },
        };
        acc = match scaled.checked_add(d) {
            Some(t) => t,
            None => {
                proof {
                    if all_digits(body) {
                        lemma_digits_value_mono(body, i - start + 1);
                    }
                }
                return Err(String::from_str("number too large to fit in target type"));
            },
        };
        proof {
            assert(acc as int == digits_value(body.take(i - start + 1)));
        }
        i = i + 1;
    }
    proof {
        assert(body.take(n - start) =~= body);
    }
    if acc > 0 {
        Ok(acc)
    } else {
        Ok(1)
    }
}

/// The records of a NUL-delimited input stream.
pub open spec fn stream_records(input: Seq<u8>) -> Seq<Seq<u8>> {
    records_from(input, 0, 0)
}

/// Whether every record of the stream is valid UTF-8 once stripped.
pub open spec fn stream_decodable(input: Seq<u8>) -> bool {
    batch_decodable(stream_records(input))
}

/// The whole pipeline's output text for a byte stream: every record quoted
/// with the selected strategy, in input order, each followed by the output
/// delimiter.
pub open spec fn pipeline_output(input: Seq<u8>, no_escape: bool, d: char) -> Seq<char> {
    joined_records(stream_records(input), no_escape, d)
}

/// The index of the first occurrence of `d` at or after `pos`, or the end
/// of the text when none remains.
pub open spec fn piece_end(s: Seq<char>, pos: int, d: char) -> int
    decreases s.len() - pos,
    when 0 <= pos <= s.len()
{
    if pos >= s.len() {
        s.len() as int
    } else if s[pos] == d {
        pos
    } else {
        piece_end(s, pos + 1, d)
    }
}

proof fn lemma_piece_end_bounds(s: Seq<char>, pos: int, d: char)
    requires
        0 <= pos <= s.len(),
    ensures
        pos <= piece_end(s, pos, d) <= s.len(),
    decreases s.len() - pos,
{
    if pos < s.len() && s[pos] != d {
        lemma_piece_end_bounds(s, pos + 1, d);
    }
}

/// The first occurrence is where the first delimiter stands.
proof fn lemma_piece_end_at(s: Seq<char>, pos: int, j: int, d: char)
    requires
        0 <= pos <= j <= s.len(),
        forall|k: int| pos <= k < j ==> s[k] != d,
        j == s.len() || s[j] == d,
    ensures
        piece_end(s, pos, d) == j,
    decreases j - pos,
{
    if pos < j {
        lemma_piece_end_at(s, pos + 1, j, d);
    }
}

/// The text split on `d`: the pieces between delimiter occurrences, with an
/// empty final piece when the text ends in a delimiter.
pub open spec fn split_on(s: Seq<char>, pos: int, d: char) -> Seq<Seq<char>>
    decreases s.len() - pos,
    when 0 <= pos <= s.len()
{
    let e = piece_end(s, pos, d);
    if pos <= e <= s.len() {
        if e == s.len() {
            seq![s.subrange(pos, e)]
        } else {
            seq![s.subrange(pos, e)] + split_on(s, e + 1, d)
        }
    } else {
        Seq::empty()
    }
}

/// Splitting the tail of a text is splitting the tail text.
proof fn lemma_split_on_shift(s: Seq<char>, pos: int, d: char)
    requires
        0 <= pos <= s.len(),
    ensures
        piece_end(s, pos, d) - pos == piece_end(s.subrange(pos, s.len() as int), 0, d),
        split_on(s, pos, d) == split_on(s.subrange(pos, s.len() as int), 0, d),
    decreases s.len() - pos,
{
    let t = s.subrange(pos, s.len() as int);
    lemma_piece_end_bounds(s, pos, d);
    if pos >= s.len() {
        assert(t.len() == 0);
        assert(split_on(s, pos, d) =~~= split_on(t, 0, d));
    } else if s[pos] == d {
        assert(t[0] == d);
        assert(piece_end(t, 0, d) == 0);
        assert(s.subrange(pos, pos) =~= t.subrange(0, 0));
        lemma_split_on_shift(s, pos + 1, d);
        assert(s.subrange(pos + 1, s.len() as int) =~= t.subrange(1, t.len() as int));
        lemma_split_on_shift(t, 1, d);
        assert(split_on(s, pos, d) == seq![s.subrange(pos, pos)] + split_on(s, pos + 1, d));
        assert(split_on(t, 0, d) == seq![t.subrange(0, 0)] + split_on(t, 1, d));
        assert(split_on(s, pos + 1, d) == split_on(t, 1, d));
        assert(split_on(s, pos, d) =~~= split_on(t, 0, d));
    } else {
        assert(t[0] == s[pos]);
        // the piece boundary shifts in step with the text
        lemma_split_on_shift(s, pos + 1, d);
        assert(s.subrange(pos + 1, s.len() as int) =~= t.subrange(1, t.len() as int));
        lemma_split_on_shift(t, 1, d);
        assert(piece_end(t, 0, d) == piece_end(t, 1, d));
        assert(piece_end(s, pos, d) - pos == piece_end(t, 0, d));
        let e = piece_end(s, pos, d);
        lemma_piece_end_bounds(t, 0, d);
        if e == s.len() {
            assert(s.subrange(pos, e) =~= t.subrange(0, piece_end(t, 0, d)));
            assert(split_on(s, pos, d) =~~= split_on(t, 0, d));
        } else {
            lemma_split_on_shift(s, e + 1, d);
            lemma_split_on_shift(t, e - pos + 1, d);
            assert(s.subrange(e + 1, s.len() as int) =~= t.subrange(e - pos + 1, t.len() as int));
            assert(s.subrange(pos, e) =~= t.subrange(0, e - pos));
            assert(split_on(s, pos, d) =~~= split_on(t, 0, d));
        }
    }
}

/// Splitting the joined output on the delimiter gives every quoted record
/// back, in order, followed by one empty trailing piece — provided no
/// quoted record contains the delimiter itself.
pub proof fn lemma_order_preservation(recs: Seq<Seq<u8>>, no_escape: bool, d: char)
    requires
        forall|i: int| 0 <= i < recs.len() ==> !(#[trigger] quoted_record(recs[i], no_escape))
            .contains(d),
    ensures
        split_on(joined_records(recs, no_escape, d), 0, d) == Seq::new(
            recs.len(),
            |i: int| quoted_record(recs[i], no_escape),
        ).push(Seq::empty()),
    decreases recs.len(),
{
    let s = joined_records(recs, no_escape, d);
    if recs.len() == 0 {
        lemma_piece_end_at(s, 0, 0, d);
        assert(split_on(s, 0, d) =~~= Seq::new(
            recs.len(),
            |i: int| quoted_record(recs[i], no_escape),
        ).push(Seq::empty()));
    } else {
        let q0 = quoted_record(recs[0], no_escape);
        let tail = joined_records(recs.skip(1), no_escape, d);
        assert(s == q0 + seq![d] + tail);
        assert forall|k: int| 0 <= k < q0.len() implies s[k] != d by {
            assert(s[k] == q0[k]);
            assert(!q0.contains(d));
        }
        assert(s[q0.len() as int] == d);
        lemma_piece_end_at(s, 0, q0.len() as int, d);
        assert(piece_end(s, 0, d) == q0.len() as int);
        assert(q0.len() < s.len());
        assert(split_on(s, 0, d) == seq![s.subrange(0, q0.len() as int)] + split_on(
            s,
            q0.len() as int + 1,
            d,
        ));
        assert(s.subrange(0, q0.len() as int) =~= q0);
        lemma_split_on_shift(s, q0.len() as int + 1, d);
        assert(s.subrange(q0.len() as int + 1, s.len() as int) =~= tail);
        assert(forall|i: int| 0 <= i < recs.skip(1).len() ==> recs.skip(1)[i] == recs[i + 1]);
        assert forall|i: int| 0 <= i < recs.skip(1).len() implies !(#[trigger] quoted_record(
            recs.skip(1)[i],
            no_escape,
        )).contains(d) by {
            assert(recs.skip(1)[i] == recs[i + 1]);
        }
        lemma_order_preservation(recs.skip(1), no_escape, d);
        assert(split_on(s, q0.len() as int + 1, d) == split_on(tail, 0, d));
        let m = Seq::new(recs.skip(1).len(), |i: int| quoted_record(recs.skip(1)[i], no_escape));
        assert(split_on(tail, 0, d) == m.push(Seq::empty()));
        let full = Seq::new(recs.len(), |i: int| quoted_record(recs[i], no_escape));
        assert forall|i: int| 0 <= i < split_on(s, 0, d).len() implies split_on(s, 0, d)[i]
            == full.push(Seq::empty())[i] by {
            if i == 0 {
            } else if i <= m.len() {
                assert(split_on(s, 0, d)[i] == m.push(Seq::empty())[i - 1]);
                assert(m[i - 1] == quoted_record(recs[i], no_escape));
            } else {
                assert(split_on(s, 0, d)[i] == m.push(Seq::empty())[i - 1]);
            }
        }
        assert(split_on(s, 0, d) =~~= full.push(Seq::empty()));
    }
}

/// With the printable strategy and the line-feed delimiter, a quoted
/// record can never contain the delimiter, so order is preserved for every
/// input: splitting the output on newlines recovers exactly the quoted
/// records, in input order, plus one empty trailing piece.
pub proof fn lemma_order_preservation_lf(recs: Seq<Seq<u8>>)
    ensures
        split_on(joined_records(recs, false, '\n'), 0, '\n') == Seq::new(
            recs.len(),
            |i: int| quoted_record(recs[i], false),
        ).push(Seq::empty()),
{
    assert forall|i: int| 0 <= i < recs.len() implies !(#[trigger] quoted_record(
        recs[i],
        false,
    )).contains('\n') by {
        lemma_printable_removes_controls(decode_utf8(strip_record(recs[i])));
        let q = quoted_record(recs[i], false);
        if q.contains('\n') {
            let k = choose|k: int| 0 <= k < q.len() && q[k] == '\n';
            assert(false);
        }
    }
    lemma_order_preservation(recs, false, '\n');
}

/// Bytes free of NUL decode to text free of NUL: no other byte sequence
/// encodes the NUL character.
proof fn lemma_decode_utf8_no_nul(b: Seq<u8>)
    requires
        valid_utf8(b),
        forall|i: int| 0 <= i < b.len() ==> b[i] != 0,
    ensures
        forall|k: int| 0 <= k < decode_utf8(b).len() ==> decode_utf8(b)[k] != '\0',
    decreases b.len(),
{
    if b.len() > 0 {
        vstd::utf8::decode_utf8_first_scalar(b);
        let c = vstd::utf8::decode_first_scalar(b) as char;
        if c == '\0' {
            assert(('\0' as u32) == 0);
            assert(0u32 & 0x7F == 0) by (bit_vector);
            assert(vstd::utf8::encode_scalar(0) == seq![0u8]);
            assert(vstd::utf8::take_first_scalar(b) == seq![0u8]);
            assert(vstd::utf8::take_first_scalar(b)[0] == b[0]);
            assert(false);
        }
        let rest = vstd::utf8::pop_first_scalar(b);
        assert(forall|i: int| 0 <= i < rest.len() ==> rest[i] != 0);
        lemma_decode_utf8_no_nul(rest);
        assert forall|k: int| 0 <= k < decode_utf8(b).len() implies decode_utf8(b)[k] != '\0' by {
            if k > 0 {
                assert(decode_utf8(b)[k] == decode_utf8(rest)[k - 1]);
            }
        }
    }
}

/// With the NUL output delimiter, a quoted record can never contain the
/// delimiter — records are read between NUL bytes and quoting introduces
/// none — so order is preserved for every decodable stream, under either
/// strategy: splitting the output on NUL recovers exactly the quoted
/// records, in input order, plus one empty trailing piece.
pub proof fn lemma_order_preservation_null(input: Seq<u8>, no_escape: bool)
    requires
        stream_decodable(input),
    ensures
        split_on(joined_records(stream_records(input), no_escape, '\0'), 0, '\0') == Seq::new(
            stream_records(input).len(),
            |i: int| quoted_record(stream_records(input)[i], no_escape),
        ).push(Seq::empty()),
{
    let recs = stream_records(input);
    assert forall|i: int| 0 <= i < recs.len() implies !(#[trigger] quoted_record(
        recs[i],
        no_escape,
    )).contains('\0') by {
        lemma_record_delim_only_last(input, 0, 0, i);
        let stripped = strip_record(recs[i]);
        assert(forall|j: int| 0 <= j < stripped.len() ==> stripped[j] != 0);
        assert(valid_utf8(stripped));
        lemma_decode_utf8_no_nul(stripped);
        let text = decode_utf8(stripped);
        lemma_escape_quotes_no_char(text, '\0');
        let q = quoted_record(recs[i], no_escape);
        if no_escape {
            assert(forall|k: int|
                1 <= k < q.len() - 1 ==> q[k] == escape_quotes(text)[k - 1] && q[k] != '\0');
        } else {
            lemma_replace_printable_no_char(escape_quotes(text), '\0');
            assert(forall|k: int|
                1 <= k < q.len() - 1 ==> q[k] == replace_printable(escape_quotes(text))[k - 1]
                    && q[k] != '\0');
        }
        if q.contains('\0') {
            let k = choose|k: int| 0 <= k < q.len() && q[k] == '\0';
            assert(false);
        }
    }
    lemma_order_preservation(recs, no_escape, '\0');
}

/// An empty stream holds no records and produces empty output.
pub proof fn lemma_empty_input(no_escape: bool, d: char)
    ensures
        stream_records(Seq::empty()) == Seq::<Seq<u8>>::empty(),
        stream_decodable(Seq::empty()),
        pipeline_output(Seq::empty(), no_escape, d) == Seq::<char>::empty(),
{
    assert(stream_records(Seq::empty()) =~= Seq::<Seq<u8>>::empty());
}

/// The worker count is a throughput knob only: two configurations that
/// agree on strategy and delimiter produce the same output text for every
/// input, whatever their worker counts.
pub proof fn lemma_workers_irrelevant(a: XQuo, b: XQuo, input: Seq<u8>)
    requires
        a.spec_no_escape() == b.spec_no_escape(),
        a.delim() == b.delim(),
    ensures
        pipeline_output(input, a.spec_no_escape(), a.delim()) == pipeline_output(
            input,
            b.spec_no_escape(),
            b.delim(),
        ),
{
}

} // verus!
