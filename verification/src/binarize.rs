//! The encoding of an input of five-field records: source and destination
//! address, source and destination port, protocol. Each record gives one
//! line of 104 symbols.
use crate::error::{FormatError, InputError, RecordError, RowError};
use crate::fields::{
    encode_ip, encode_port, encode_protocol, ip_field, ip_to_bitstring, port_to_bitstring,
    proto_to_bitstring, text_result,
};
use crate::rules::{
    first_misfit, lemma_first_misfit, lemma_symbols_in_concat, lemma_symbols_in_full, rule_rows,
    symbol_of, symbols_in, text_lines,
};
use crate::text::{chars_of, lemma_pieces_after_first, pieces};
use rayon::iter::{IntoParallelRefIterator, ParallelIterator};
use vstd::prelude::*;
use vstd::string::StringExecFns;

verus! {

/// The number of fields of a record.
pub const FIELDS: usize = 5;

/// The number of symbols in the line of a record: two addresses, two ports
/// and a protocol.
pub const RULE_WIDTH: usize = 104;

/// The fields of a record as sequences of characters.
pub open spec fn fields_of(record: Seq<String>) -> Seq<Seq<char>> {
    Seq::new(record.len(), |k: int| record[k]@)
}

/// The records of an input as sequences of fields.
pub open spec fn records_of(input: Seq<Vec<String>>) -> Seq<Seq<Seq<char>>> {
    Seq::new(input.len(), |k: int| fields_of(input[k]@))
}

/// The lines of an output as sequences of characters.
pub open spec fn lines_of(lines: Seq<String>) -> Seq<Seq<char>> {
    Seq::new(lines.len(), |k: int| lines[k]@)
}

/// The line of a record: its five fields encoded, a space between each two.
/// The source address has one character in front, which is left out. The
/// first field that is missing or malformed is the error; fields behind the
/// fifth are not read.
pub open spec fn encode_row(fields: Seq<Seq<char>>) -> Result<Seq<char>, RowError> {
    if fields.len() < FIELDS {
        Err(RowError { field: fields.len() as usize, kind: FormatError::NotEnoughFields })
    } else if fields[0].len() == 0 {
        Err(RowError { field: 0, kind: FormatError::IpField })
    } else {
        match encode_ip(fields[0].skip(1)) {
            Err(kind) => Err(RowError { field: 0, kind }),
            Ok(source) => match encode_ip(fields[1]) {
                Err(kind) => Err(RowError { field: 1, kind }),
                Ok(destination) => match encode_port(fields[2]) {
                    Err(kind) => Err(RowError { field: 2, kind }),
                    Ok(source_port) => match encode_port(fields[3]) {
                        Err(kind) => Err(RowError { field: 3, kind }),
                        Ok(destination_port) => match encode_protocol(fields[4]) {
                            Err(kind) => Err(RowError { field: 4, kind }),
                            Ok(protocol) => Ok(
                                source + seq![' '] + destination + seq![' '] + source_port
                                    + seq![' '] + destination_port + seq![' '] + protocol,
                            ),
                        },
                    },
                },
            },
        }
    }
}

/// The lines of `rows` if every row has one, in the order of the rows; else
/// the first row that has an error, with its position, and no line.
pub open spec fn gather(rows: Seq<Result<Seq<char>, RowError>>) -> Result<
    Seq<Seq<char>>,
    RecordError,
>
    decreases rows.len(),
{
    if rows.len() == 0 {
        Ok(Seq::empty())
    } else {
        match gather(rows.drop_last()) {
            Err(e) => Err(e),
            Ok(lines) => match rows.last() {
                Ok(line) => Ok(lines.push(line)),
                Err(e) => Err(
                    RecordError { record: (rows.len() - 1) as usize, field: e.field, kind: e.kind },
                ),
            },
        }
    }
}

/// What each record encodes to, in the order of the records.
pub open spec fn encode_rows_of(records: Seq<Seq<Seq<char>>>) -> Seq<Result<Seq<char>, RowError>> {
    Seq::new(records.len(), |k: int| encode_row(records[k]))
}

/// The lines of the records, in the order of the records; or the first
/// record with a malformed field, and nothing else.
pub open spec fn encode_records(records: Seq<Seq<Seq<char>>>) -> Result<
    Seq<Seq<char>>,
    RecordError,
> {
    gather(encode_rows_of(records))
}

/// The text of an output: each line with a line feed behind it.
pub open spec fn lines_text(lines: Seq<Seq<char>>) -> Seq<char>
    decreases lines.len(),
{
    if lines.len() == 0 {
        Seq::empty()
    } else {
        lines_text(lines.drop_last()) + lines.last() + seq!['\n']
    }
}

/// The text that the records `records` give, or why they give none.
pub open spec fn binarized(records: Option<Seq<Seq<Seq<char>>>>) -> Result<Seq<char>, InputError> {
    match records {
        None => Err(InputError::Unreadable),
        Some(records) => match encode_records(records) {
            Ok(lines) => Ok(lines_text(lines)),
            Err(e) => Err(InputError::Malformed(e)),
        },
    }
}

/// `gather` keeps every line in its place, and one error anywhere leaves no
/// line at all: the result is then the first row that has one.
pub proof fn lemma_gather(rows: Seq<Result<Seq<char>, RowError>>)
    requires
        rows.len() <= usize::MAX,
    ensures
        match gather(rows) {
            Ok(lines) => {
                &&& lines.len() == rows.len()
                &&& forall|k: int|
                    0 <= k < rows.len() ==> #[trigger] rows[k] == Ok::<Seq<char>, RowError>(
                        lines[k],
                    )
            },
            Err(e) => {
                &&& e.record < rows.len()
                &&& rows[e.record as int] == Err::<Seq<char>, RowError>(
                    RowError { field: e.field, kind: e.kind },
                )
                &&& forall|k: int| 0 <= k < e.record ==> (#[trigger] rows[k]) is Ok
            },
        },
    decreases rows.len(),
{
    if rows.len() > 0 {
        let front = rows.drop_last();
        lemma_gather(front);
        assert forall|k: int| 0 <= k < front.len() implies front[k] == rows[k] by {}
        match gather(front) {
            Ok(lines) => {
                match rows.last() {
                    Ok(line) => {
                        let all = lines.push(line);
                        assert forall|k: int| 0 <= k < rows.len() implies #[trigger] rows[k]
                            == Ok::<Seq<char>, RowError>(all[k]) by {
                            if k < front.len() {
                                assert(front[k] == rows[k]);
                            }
                        }
                    },
                    Err(e) => {
                        assert forall|k: int| 0 <= k < rows.len() - 1 implies (
                        #[trigger] rows[k]) is Ok by {
                            assert(front[k] == rows[k]);
                        }
                    },
                }
            },
            Err(e) => {
                assert(front[e.record as int] == rows[e.record as int]);
                assert forall|k: int| 0 <= k < e.record implies (#[trigger] rows[k]) is Ok by {
                    assert(front[k] == rows[k]);
                }
            },
        }
    }
}

/// The records encode line for line and in their order, and one malformed
/// field anywhere leaves no line at all: the error is then the first record
/// that has one.
pub proof fn lemma_encode_records(records: Seq<Seq<Seq<char>>>)
    requires
        records.len() <= usize::MAX,
    ensures
        match encode_records(records) {
            Ok(lines) => {
                &&& lines.len() == records.len()
                &&& forall|k: int|
                    0 <= k < records.len() ==> encode_row(#[trigger] records[k]) == Ok::<
                        Seq<char>,
                        RowError,
                    >(lines[k])
            },
            Err(e) => {
                &&& e.record < records.len()
                &&& encode_row(records[e.record as int]) == Err::<Seq<char>, RowError>(
                    RowError { field: e.field, kind: e.kind },
                )
                &&& forall|k: int| 0 <= k < e.record ==> encode_row(#[trigger] records[k]) is Ok
            },
        },
{
    let rows = encode_rows_of(records);
    lemma_gather(rows);
    assert forall|k: int| 0 <= k < records.len() implies #[trigger] rows[k] == encode_row(
        records[k],
    ) by {}
    match encode_records(records) {
        Ok(lines) => {
            assert forall|k: int| 0 <= k < records.len() implies encode_row(
                #[trigger] records[k],
            ) == Ok::<Seq<char>, RowError>(lines[k]) by {
                assert(rows[k] == Ok::<Seq<char>, RowError>(lines[k]));
            }
        },
        Err(e) => {
            assert forall|k: int| 0 <= k < e.record implies encode_row(#[trigger] records[k])
                is Ok by {
                assert(rows[k] is Ok);
            }
        },
    }
}

/// The line of a record writes a rule of 104 symbols.
pub proof fn lemma_row_is_rule(fields: Seq<Seq<char>>)
    requires
        encode_row(fields) is Ok,
    ensures
        symbols_in(encode_row(fields)->Ok_0).len() == RULE_WIDTH,
{
    let source = encode_ip(fields[0].skip(1))->Ok_0;
    let destination = encode_ip(fields[1])->Ok_0;
    let source_port = encode_port(fields[2])->Ok_0;
    let destination_port = encode_port(fields[3])->Ok_0;
    let protocol = encode_protocol(fields[4])->Ok_0;
    let gap = seq![' '];
    lemma_symbols_in_full(source);
    lemma_symbols_in_full(destination);
    lemma_symbols_in_full(source_port);
    lemma_symbols_in_full(destination_port);
    lemma_symbols_in_full(protocol);
    assert(symbols_in(gap).len() == 0) by {
        assert(gap.drop_last() =~= Seq::<char>::empty());
        assert(symbols_in(gap.drop_last()).len() == 0);
        assert(symbol_of(gap.last()) is None);
    }
    let a = source + gap;
    let b = a + destination;
    let c = b + gap;
    let d = c + source_port;
    let e = d + gap;
    let f = e + destination_port;
    let g = f + gap;
    lemma_symbols_in_concat(source, gap);
    lemma_symbols_in_concat(a, destination);
    lemma_symbols_in_concat(b, gap);
    lemma_symbols_in_concat(c, source_port);
    lemma_symbols_in_concat(d, gap);
    lemma_symbols_in_concat(e, destination_port);
    lemma_symbols_in_concat(f, gap);
    lemma_symbols_in_concat(g, protocol);
}

/// The line of a record holds symbols and spaces only.
pub proof fn lemma_row_alphabet(fields: Seq<Seq<char>>)
    requires
        encode_row(fields) is Ok,
    ensures
        forall|k: int|
            0 <= k < encode_row(fields)->Ok_0.len() ==> {
                let c = #[trigger] encode_row(fields)->Ok_0[k];
                symbol_of(c) is Some || c == ' '
            },
{
}

proof fn lemma_lines_text_from_front(lines: Seq<Seq<char>>)
    requires
        lines.len() > 0,
    ensures
        lines_text(lines) == lines[0] + seq!['\n'] + lines_text(lines.drop_first()),
    decreases lines.len(),
{
    if lines.len() == 1 {
        assert(lines.drop_last() =~= Seq::<Seq<char>>::empty());
        assert(lines.drop_first() =~= Seq::<Seq<char>>::empty());
        assert(lines_text(lines.drop_last()) =~= Seq::<char>::empty());
        assert(lines_text(lines.drop_first()) =~= Seq::<char>::empty());
        assert(lines.last() == lines[0]);
        assert(lines_text(lines) =~= lines[0] + seq!['\n']);
        assert(lines[0] + seq!['\n'] + lines_text(lines.drop_first()) =~= lines[0] + seq!['\n']);
    } else {
        let front = lines.drop_last();
        lemma_lines_text_from_front(front);
        assert(front.drop_first() =~= lines.drop_first().drop_last());
        assert(lines.drop_first().last() == lines.last());
        assert(front[0] == lines[0]);
        assert(lines_text(lines) =~= lines[0] + seq!['\n'] + lines_text(lines.drop_first()));
    }
}

/// The lines of the text of an output are the lines that went into it, as
/// long as no line holds a line feed.
pub proof fn lemma_text_lines_of_output(lines: Seq<Seq<char>>)
    requires
        forall|a: int, k: int|
            0 <= a < lines.len() && 0 <= k < lines[a].len() ==> #[trigger] lines[a][k] != '\n',
    ensures
        pieces(lines_text(lines), '\n') == lines.push(Seq::empty()),
        text_lines(lines_text(lines)) == lines,
    decreases lines.len(),
{
    if lines.len() == 0 {
        assert(pieces(lines_text(lines), '\n') =~= lines.push(Seq::empty()));
    } else {
        let rest = lines.drop_first();
        assert forall|a: int, k: int| 0 <= a < rest.len() && 0 <= k < rest[a].len() implies
            #[trigger] rest[a][k] != '\n' by {
            assert(rest[a] == lines[a + 1]);
        }
        lemma_text_lines_of_output(rest);
        lemma_lines_text_from_front(lines);
        lemma_pieces_after_first(lines[0], '\n', lines_text(rest));
        assert(seq![lines[0]] + rest.push(Seq::empty()) =~= lines.push(Seq::empty()));
    }
    assert(lines.push(Seq::empty()).drop_last() =~= lines);
}

/// The text that records encode to reads back as one rule of 104 symbols for
/// each record.
pub proof fn lemma_output_is_rule_set(records: Seq<Seq<Seq<char>>>)
    requires
        records.len() <= usize::MAX,
        encode_records(records) is Ok,
    ensures
        ({
            let text = lines_text(encode_records(records)->Ok_0);
            &&& rule_rows(text).len() == records.len()
            &&& first_misfit(rule_rows(text), RULE_WIDTH as nat) is None
        }),
{
    let lines = encode_records(records)->Ok_0;
    let text = lines_text(lines);
    lemma_encode_records(records);
    assert forall|a: int, k: int| 0 <= a < lines.len() && 0 <= k < lines[a].len() implies
        #[trigger] lines[a][k] != '\n' by {
        assert(encode_row(records[a]) == Ok::<Seq<char>, RowError>(lines[a]));
        lemma_row_alphabet(records[a]);
    }
    lemma_text_lines_of_output(lines);
    let rows = rule_rows(text);
    lemma_first_misfit(rows, RULE_WIDTH as nat);
    assert forall|a: int| 0 <= a < rows.len() implies (#[trigger] rows[a]).len()
        == RULE_WIDTH by {
        assert(encode_row(records[a]) == Ok::<Seq<char>, RowError>(lines[a]));
        lemma_row_is_rule(records[a]);
    }
}

/// Appends a space to `out`.
fn push_space(out: &mut String)
    ensures
        final(out)@ == old(out)@ + seq![' '],
{
    proof {
        reveal_strlit(" ");
    }
    out.append(" ");
    assert(" "@ =~= seq![' ']);
}

/// The line of the record `record`, or its first missing or malformed field.
pub fn row_to_bitstring(record: &Vec<String>) -> (r: Result<String, RowError>)
    ensures
        text_result(r) == encode_row(fields_of(record@)),
{
    let ghost fields = fields_of(record@);
    if record.len() < FIELDS {
        return Err(RowError { field: record.len(), kind: FormatError::NotEnoughFields });
    }
    assert(forall|k: int| 0 <= k < 5 ==> fields[k] == record@[k]@);
    let first = chars_of(record[0].as_str());
    if first.len() == 0 {
        return Err(RowError { field: 0, kind: FormatError::IpField });
    }
    assert(first@.subrange(1, first@.len() as int) =~= fields[0].skip(1));
    let source = match ip_field(&first.as_slice()[1..first.len()]) {
        Ok(text) => text,
        Err(kind) => {
            return Err(RowError { field: 0, kind });
        },
    };
    let destination = match ip_to_bitstring(record[1].as_str()) {
        Ok(text) => text,
        Err(kind) => {
            return Err(RowError { field: 1, kind });
        },
    };
    let source_port = match port_to_bitstring(record[2].as_str()) {
        Ok(text) => text,
        Err(kind) => {
            return Err(RowError { field: 2, kind });
        },
    };
    let destination_port = match port_to_bitstring(record[3].as_str()) {
        Ok(text) => text,
        Err(kind) => {
            return Err(RowError { field: 3, kind });
        },
    };
    let protocol = match proto_to_bitstring(record[4].as_str()) {
        Ok(text) => text,
        Err(kind) => {
            return Err(RowError { field: 4, kind });
        },
    };
    let mut line = source;
    push_space(&mut line);
    line.append(destination.as_str());
    push_space(&mut line);
    line.append(source_port.as_str());
    push_space(&mut line);
    line.append(destination_port.as_str());
    push_space(&mut line);
    line.append(protocol.as_str());
    Ok(line)
}

/// Encodes every record on the worker threads of `rayon`:
/// `par_iter().map(..).collect()` on a slice. Trusted: the result has one
/// item for each record, in the order of the records, and item `k` is what
/// the closure returned for record `k`. The closure is one call of
/// `row_to_bitstring`, whose contract is proved.
#[verifier::external_body]
fn encode_rows(input: &Vec<Vec<String>>) -> (rows: Vec<Result<String, RowError>>)
    ensures
        rows@.len() == input@.len(),
        forall|k: int|
            0 <= k < input@.len() ==> text_result(#[trigger] rows@[k]) == encode_row(
                fields_of(input@[k]@),
            ),
{
    input.par_iter().map(|record| row_to_bitstring(record)).collect()
}

/// What each row holds, with the text as a sequence of characters.
pub open spec fn row_texts(rows: Seq<Result<String, RowError>>) -> Seq<
    Result<Seq<char>, RowError>,
> {
    Seq::new(rows.len(), |k: int| text_result(rows[k]))
}

/// What `process` returns, with the lines as sequences of characters.
pub open spec fn lines_result(r: Result<Vec<String>, RecordError>) -> Result<
    Seq<Seq<char>>,
    RecordError,
> {
    match r {
        Ok(lines) => Ok(lines_of(lines@)),
        Err(e) => Err(e),
    }
}

/// The lines of `rows` if every row has one, in the order of the rows; else
/// the first row that has an error, with its position, and no line.
pub fn collect_lines(rows: Vec<Result<String, RowError>>) -> (r: Result<Vec<String>, RecordError>)
    ensures
        lines_result(r) == gather(row_texts(rows@)),
{
    let mut lines: Vec<String> = Vec::new();
    let mut k: usize = 0;
    let ghost texts = row_texts(rows@);
    assert(texts.take(0) =~= Seq::empty());
    assert(lines_of(lines@) =~= Seq::empty());
    while k < rows.len()
        invariant
            k <= rows@.len(),
            texts == row_texts(rows@),
            gather(texts.take(k as int)) == Ok::<Seq<Seq<char>>, RecordError>(lines_of(lines@)),
        decreases rows@.len() - k,
    {
        proof {
            let upto = texts.take(k + 1);
            assert(upto.drop_last() =~= texts.take(k as int));
            assert(upto.last() == text_result(rows@[k as int]));
        }
        let ghost before = lines_of(lines@);
        match &rows[k] {
            Ok(line) => {
                lines.push(line.clone());
                assert(lines_of(lines@) =~= before.push(line@));
            },
            Err(e) => {
                proof {
                    lemma_gather_stays_error(texts, k + 1);
                }
                return Err(RecordError { record: k, field: e.field, kind: e.kind });
            },
        }
        k += 1;
    }
    assert(texts.take(k as int) =~= texts);
    Ok(lines)
}

proof fn lemma_gather_stays_error(rows: Seq<Result<Seq<char>, RowError>>, k: int)
    requires
        0 <= k <= rows.len(),
        gather(rows.take(k)) is Err,
    ensures
        gather(rows) == gather(rows.take(k)),
    decreases rows.len() - k,
{
    if k == rows.len() {
        assert(rows.take(k) =~= rows);
    } else {
        let next = rows.take(k + 1);
        assert(next.drop_last() =~= rows.take(k));
        lemma_gather_stays_error(rows, k + 1);
    }
}

/// The lines of the records of `input`, in their order; or the first record
/// with a malformed field, and no line.
pub fn process(input: &Vec<Vec<String>>) -> (r: Result<Vec<String>, RecordError>)
    ensures
        lines_result(r) == encode_records(records_of(input@)),
{
    let rows = encode_rows(input);
    assert(row_texts(rows@) =~= encode_rows_of(records_of(input@)));
    collect_lines(rows)
}

/// The text of an output: each line of `bitstrings` with a line feed behind
/// it.
pub fn output(bitstrings: &Vec<String>) -> (text: String)
    ensures
        text@ == lines_text(lines_of(bitstrings@)),
{
    let mut text = String::new();
    let mut k: usize = 0;
    proof {
        reveal_strlit("\n");
        assert(lines_of(bitstrings@).take(0) =~= Seq::<Seq<char>>::empty());
    }
    while k < bitstrings.len()
        invariant
            k <= bitstrings@.len(),
            "\n"@ == seq!['\n'],
            text@ == lines_text(lines_of(bitstrings@).take(k as int)),
        decreases bitstrings@.len() - k,
    {
        proof {
            let upto = lines_of(bitstrings@).take(k + 1);
            assert(upto.drop_last() =~= lines_of(bitstrings@).take(k as int));
            assert(upto.last() == bitstrings@[k as int]@);
        }
        text.append(bitstrings[k].as_str());
        text.append("\n");
        k += 1;
    }
    assert(lines_of(bitstrings@).take(k as int) =~= lines_of(bitstrings@));
    text
}

/// The error type of the `csv` crate.
#[verifier::external_type_specification]
#[verifier::external_body]
pub struct ExCsvError(csv::Error);

/// The records that the `csv` crate reads from the bytes `data` as
/// tab-separated text without a header row, or `None` where it reports an
/// error.
pub uninterp spec fn tab_separated_records(data: Seq<u8>) -> Option<Seq<Seq<Seq<char>>>>;

/// Reads `data` with a reader of the `csv` crate, built by `ReaderBuilder`
/// with the tab as delimiter and without headers, through its `records()`.
/// Trusted: what the reader yields depends on the bytes alone. The records
/// come in the order in which the reader yields them, each with its fields
/// as owned strings, and the first error that the reader yields ends the
/// reading.
#[verifier::external_body]
fn read_records(data: &[u8]) -> (r: Result<Vec<Vec<String>>, csv::Error>)
    ensures
        match r {
            Ok(records) => tab_separated_records(data@) == Some(records_of(records@)),
            Err(_) => tab_separated_records(data@) is None,
        },
{
    let mut reader = csv::ReaderBuilder::new().delimiter(b'\t').has_headers(false).from_reader(
        data,
    );
    let mut records: Vec<Vec<String>> = Vec::new();
    for row in reader.records() {
        records.push(row?.iter().map(|field| field.to_string()).collect());
    }
    Ok(records)
}

/// The records of the tab-separated text `data`, which has no header row.
pub fn input(data: &[u8]) -> (r: Result<Vec<Vec<String>>, InputError>)
    ensures
        match r {
            Ok(records) => tab_separated_records(data@) == Some(records_of(records@)),
            Err(e) => e == InputError::Unreadable && tab_separated_records(data@) is None,
        },
{
    match read_records(data) {
        Ok(records) => Ok(records),
        Err(_) => Err(InputError::Unreadable),
    }
}

/// The text that `records` give: a line for each record, in their order; or
/// the first record with a malformed field, and no text.
pub fn encode(records: &Vec<Vec<String>>) -> (r: Result<String, InputError>)
    ensures
        text_result(r) == binarized(Some(records_of(records@))),
{
    match process(records) {
        Ok(lines) => Ok(output(&lines)),
        Err(e) => Err(InputError::Malformed(e)),
    }
}

/// The output for the tab-separated input `data`: a line for each record,
/// in their order; or why there is none.
pub fn run(data: &[u8]) -> (r: Result<String, InputError>)
    ensures
        text_result(r) == binarized(tab_separated_records(data@)),
{
    match input(data) {
        Ok(records) => encode(&records),
        Err(e) => Err(e),
    }
}

} // verus!
