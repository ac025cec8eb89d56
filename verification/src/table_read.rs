//! Reading CSV text back: a reader with the usual rules (`,` between
//! fields, a line feed after each record, `"` around a field that holds
//! them, `""` for a quote inside), and the law that it gives back every
//! record that `csv_records` writes.

use vstd::prelude::*;

use crate::table::{csv_escape, csv_field, csv_join, csv_needs_quotes, csv_record, csv_records};

verus! {

/// Where the reader stands within a field.
pub enum CsvMode {
    /// At the start of a field.
    FieldStart,
    /// Inside a field without quotes.
    Plain,
    /// Inside a quoted field.
    Quoted,
    /// Just after a quote inside a quoted field.
    QuoteSeen,
}

/// What the reader has read so far: the finished records, the finished
/// fields of the current record, the current field, and where it stands.
pub struct CsvScan {
    pub records: Seq<Seq<Seq<char>>>,
    pub fields: Seq<Seq<char>>,
    pub field: Seq<char>,
    pub mode: CsvMode,
}

/// The reader before any text.
pub open spec fn csv_start() -> CsvScan {
    CsvScan { records: seq![], fields: seq![], field: seq![], mode: CsvMode::FieldStart }
}

/// The reader at the start of a field, with these records and fields.
pub open spec fn at_field(records: Seq<Seq<Seq<char>>>, fields: Seq<Seq<char>>) -> CsvScan {
    CsvScan { records, fields, field: seq![], mode: CsvMode::FieldStart }
}

/// The reader after the current field ends with `c` (`,` or a line feed).
pub open spec fn end_field(st: CsvScan, c: char) -> CsvScan {
    if c == ',' {
        at_field(st.records, st.fields.push(st.field))
    } else {
        at_field(st.records.push(st.fields.push(st.field)), seq![])
    }
}

/// One character read.
pub open spec fn csv_step(st: CsvScan, c: char) -> CsvScan {
    match st.mode {
        CsvMode::FieldStart => if c == '"' {
            CsvScan { mode: CsvMode::Quoted, ..st }
        } else if c == ',' || c == '\n' {
            end_field(st, c)
        } else {
            CsvScan { field: st.field.push(c), mode: CsvMode::Plain, ..st }
        },
        CsvMode::Plain => if c == ',' || c == '\n' {
            end_field(st, c)
        } else {
            CsvScan { field: st.field.push(c), ..st }
        },
        CsvMode::Quoted => if c == '"' {
            CsvScan { mode: CsvMode::QuoteSeen, ..st }
        } else {
            CsvScan { field: st.field.push(c), ..st }
        },
        CsvMode::QuoteSeen => if c == '"' {
            CsvScan { field: st.field.push('"'), mode: CsvMode::Quoted, ..st }
        } else if c == ',' || c == '\n' {
            end_field(st, c)
        } else {
            CsvScan { field: st.field.push(c), mode: CsvMode::Plain, ..st }
        },
    }
}

/// The reader after the text `t`, read from its first character on.
pub open spec fn csv_scan(st: CsvScan, t: Seq<char>) -> CsvScan
    decreases t.len(),
{
    if t.len() == 0 {
        st
    } else {
        csv_scan(csv_step(st, t[0]), t.drop_first())
    }
}

/// The records of a CSV text: those ended by a line feed.
pub open spec fn csv_read(t: Seq<char>) -> Seq<Seq<Seq<char>>> {
    csv_scan(csv_start(), t).records
}

/// Reading two texts one after the other.
proof fn lemma_scan_concat(st: CsvScan, a: Seq<char>, b: Seq<char>)
    ensures
        csv_scan(st, a + b) == csv_scan(csv_scan(st, a), b),
    decreases a.len(),
{
    if a.len() > 0 {
        assert((a + b)[0] == a[0]);
        assert((a + b).drop_first() =~= a.drop_first() + b);
        lemma_scan_concat(csv_step(st, a[0]), a.drop_first(), b);
    }
}

/// Reading one character.
proof fn lemma_scan_one(st: CsvScan, c: char)
    ensures
        csv_scan(st, seq![c]) == csv_step(st, c),
{
    reveal_with_fuel(csv_scan, 2);
    assert(seq![c][0] == c);
    assert(seq![c].drop_first() =~= Seq::<char>::empty());
}

/// Escaping, read from the front.
proof fn lemma_escape_front(s: Seq<char>)
    requires
        s.len() > 0,
    ensures
        csv_escape(s) == (if s[0] == '"' { seq!['"', '"'] } else { seq![s[0]] }) + csv_escape(s.drop_first()),
    decreases s.len(),
{
    if s.len() == 1 {
        assert(s.drop_last() =~= Seq::<char>::empty());
        assert(s.drop_first() =~= Seq::<char>::empty());
        assert(s.last() == s[0]);
        assert(csv_escape(Seq::<char>::empty()) =~= Seq::<char>::empty());
        if s[0] == '"' {
            assert(csv_escape(s) =~= seq!['"', '"']);
        } else {
            assert(csv_escape(s) =~= seq![s[0]]);
        }
    } else {
        let init = s.drop_last();
        lemma_escape_front(init);
        assert(init[0] == s[0]);
        assert(init.drop_first() =~= s.drop_first().drop_last());
        assert(s.drop_first().last() == s.last());
        let head = if s[0] == '"' { seq!['"', '"'] } else { seq![s[0]] };
        let rest = csv_escape(s.drop_first().drop_last());
        if s.last() == '"' {
            assert(csv_escape(s) =~= head + rest.push('"').push('"'));
        } else {
            assert(csv_escape(s) =~= head + rest.push(s.last()));
        }
    }
}

/// Reading an escaped field inside quotes gives the field back.
proof fn lemma_scan_escaped(st: CsvScan, s: Seq<char>)
    requires
        st.mode == CsvMode::Quoted,
    ensures
        csv_scan(st, csv_escape(s)) == (CsvScan { field: st.field + s, ..st }),
    decreases s.len(),
{
    if s.len() == 0 {
        assert(csv_escape(s) =~= Seq::<char>::empty());
        assert(st.field + s =~= st.field);
    } else {
        lemma_escape_front(s);
        let rest = s.drop_first();
        let head = if s[0] == '"' { seq!['"', '"'] } else { seq![s[0]] };
        lemma_scan_concat(st, head, csv_escape(rest));
        let st1 = CsvScan { field: st.field.push(s[0]), ..st };
        if s[0] == '"' {
            let q = CsvScan { mode: CsvMode::QuoteSeen, ..st };
            assert(csv_step(st, '"') == q);
            assert(csv_step(q, '"') == st1);
            assert(head =~= seq!['"'] + seq!['"']);
            lemma_scan_concat(st, seq!['"'], seq!['"']);
            lemma_scan_one(st, '"');
            lemma_scan_one(q, '"');
            assert(csv_scan(st, head) == st1);
        } else {
            assert(csv_step(st, s[0]) == st1);
            lemma_scan_one(st, s[0]);
            assert(csv_scan(st, head) == st1);
        }
        lemma_scan_escaped(st1, rest);
        assert(st.field.push(s[0]) + rest =~= st.field + s);
    }
}

/// Reading plain characters without delimiters, quotes or line feeds adds them to the field.
proof fn lemma_scan_plain(st: CsvScan, s: Seq<char>)
    requires
        st.mode == CsvMode::Plain,
        forall|i: int| 0 <= i < s.len() ==> #[trigger] s[i] != ',' && s[i] != '\n',
    ensures
        csv_scan(st, s) == (CsvScan { field: st.field + s, ..st }),
    decreases s.len(),
{
    if s.len() == 0 {
        assert(st.field + s =~= st.field);
    } else {
        let st1 = CsvScan { field: st.field.push(s[0]), ..st };
        assert(s[0] != ',' && s[0] != '\n');
        assert(csv_step(st, s[0]) == st1);
        let rest = s.drop_first();
        assert forall|i: int| 0 <= i < rest.len() implies #[trigger] rest[i] != ',' && rest[i] != '\n' by {
            assert(rest[i] == s[i + 1]);
        }
        lemma_scan_plain(st1, rest);
        assert(st.field.push(s[0]) + rest =~= st.field + s);
    }
}

/// Reading a written field and the delimiter after it finishes that field.
proof fn lemma_scan_field(records: Seq<Seq<Seq<char>>>, fields: Seq<Seq<char>>, f: Seq<char>, d: char)
    requires
        d == ',' || d == '\n',
    ensures
        csv_scan(at_field(records, fields), csv_field(f) + seq![d])
            == end_field(CsvScan { records, fields, field: f, mode: CsvMode::Plain }, d),
{
    let st = at_field(records, fields);
    let done = CsvScan { records, fields, field: f, mode: CsvMode::Plain };
    if csv_needs_quotes(f) {
        let q = CsvScan { mode: CsvMode::Quoted, ..st };
        assert(csv_step(st, '"') == q);
        let text = seq!['"'] + csv_escape(f) + seq!['"'] + seq![d];
        assert(text =~= seq!['"'] + (csv_escape(f) + (seq!['"'] + seq![d])));
        lemma_scan_concat(st, seq!['"'], csv_escape(f) + (seq!['"'] + seq![d]));
        lemma_scan_one(st, '"');
        assert(csv_scan(st, seq!['"']) == q);
        lemma_scan_concat(q, csv_escape(f), seq!['"'] + seq![d]);
        lemma_scan_escaped(q, f);
        let qf = CsvScan { field: q.field + f, ..q };
        assert(q.field + f =~= f);
        let seen = CsvScan { mode: CsvMode::QuoteSeen, ..qf };
        assert(csv_step(qf, '"') == seen);
        lemma_scan_concat(qf, seq!['"'], seq![d]);
        lemma_scan_one(qf, '"');
        lemma_scan_one(seen, d);
        assert(end_field(seen, d) == end_field(done, d));
    } else {
        assert(csv_field(f) == f);
        if f.len() == 0 {
            assert(f + seq![d] =~= seq![d]);
            lemma_scan_one(st, d);
            assert(f =~= Seq::<char>::empty());
            assert(end_field(st, d) == end_field(done, d));
        } else {
            assert(f[0] != '"' && f[0] != ',' && f[0] != '\n');
            let p = CsvScan { field: seq![f[0]], mode: CsvMode::Plain, ..st };
            assert(csv_step(st, f[0]) == p);
            let rest = f.drop_first();
            assert(f + seq![d] =~= seq![f[0]] + (rest + seq![d]));
            lemma_scan_concat(st, seq![f[0]], rest + seq![d]);
            lemma_scan_one(st, f[0]);
            assert(csv_scan(st, seq![f[0]]) == p);
            lemma_scan_concat(p, rest, seq![d]);
            assert forall|i: int| 0 <= i < rest.len() implies #[trigger] rest[i] != ',' && rest[i] != '\n' by {
                assert(rest[i] == f[i + 1]);
            }
            lemma_scan_plain(p, rest);
            assert(seq![f[0]] + rest =~= f);
            let pf = CsvScan { field: f, ..p };
            lemma_scan_one(pf, d);
            assert(end_field(pf, d) == end_field(done, d));
        }
    }
}

/// Written fields joined by commas, read from the front.
proof fn lemma_join_front(fields: Seq<Seq<char>>)
    requires
        fields.len() > 1,
    ensures
        csv_join(fields) == csv_field(fields[0]) + seq![','] + csv_join(fields.drop_first()),
    decreases fields.len(),
{
    let init = fields.drop_last();
    if fields.len() == 2 {
        assert(init.len() == 1);
        assert(init[0] == fields[0]);
        assert(csv_join(init) == csv_field(fields[0]));
        assert(fields.drop_first().len() == 1);
        assert(fields.drop_first()[0] == fields.last());
        assert(csv_join(fields.drop_first()) == csv_field(fields.last()));
    } else {
        lemma_join_front(init);
        assert(init[0] == fields[0]);
        assert(init.drop_first() =~= fields.drop_first().drop_last());
        assert(fields.drop_first().last() == fields.last());
        assert(csv_join(fields.drop_first()) == csv_join(fields.drop_first().drop_last()) + seq![','] + csv_field(fields.last()));
        assert(csv_join(fields) =~= csv_field(fields[0]) + seq![','] + csv_join(fields.drop_first()));
    }
}

/// Reading the joined fields of a record and its line feed finishes the record.
proof fn lemma_scan_join(records: Seq<Seq<Seq<char>>>, done: Seq<Seq<char>>, fields: Seq<Seq<char>>)
    requires
        fields.len() > 0,
    ensures
        csv_scan(at_field(records, done), csv_join(fields) + seq!['\n']) == at_field(records.push(done + fields), seq![]),
    decreases fields.len(),
{
    if fields.len() == 1 {
        lemma_scan_field(records, done, fields[0], '\n');
        assert(done.push(fields[0]) =~= done + fields);
    } else {
        lemma_join_front(fields);
        let rest = fields.drop_first();
        assert(csv_join(fields) + seq!['\n'] =~= (csv_field(fields[0]) + seq![',']) + (csv_join(rest) + seq!['\n']));
        lemma_scan_concat(at_field(records, done), csv_field(fields[0]) + seq![','], csv_join(rest) + seq!['\n']);
        lemma_scan_field(records, done, fields[0], ',');
        lemma_scan_join(records, done.push(fields[0]), rest);
        assert(done.push(fields[0]) + rest =~= done + fields);
    }
}

/// Reading a written record finishes it.
proof fn lemma_scan_record(records: Seq<Seq<Seq<char>>>, fields: Seq<Seq<char>>)
    requires
        fields.len() > 0,
    ensures
        csv_scan(at_field(records, seq![]), csv_record(fields)) == at_field(records.push(fields), seq![]),
{
    if fields.len() == 1 && fields[0].len() == 0 {
        let st = at_field(records, seq![]);
        let q = CsvScan { mode: CsvMode::Quoted, ..st };
        let seen = CsvScan { mode: CsvMode::QuoteSeen, ..st };
        let t = seq!['"', '"', '\n'];
        assert(csv_step(st, '"') == q);
        assert(csv_step(q, '"') == seen);
        assert(t =~= seq!['"'] + (seq!['"'] + seq!['\n']));
        lemma_scan_concat(st, seq!['"'], seq!['"'] + seq!['\n']);
        lemma_scan_concat(q, seq!['"'], seq!['\n']);
        lemma_scan_one(st, '"');
        lemma_scan_one(q, '"');
        lemma_scan_one(seen, '\n');
        assert(csv_record(fields) == t);
        assert(fields[0] =~= Seq::<char>::empty());
        assert(Seq::<Seq<char>>::empty().push(Seq::<char>::empty()) =~= fields);
    } else {
        lemma_scan_join(records, seq![], fields);
        assert(Seq::<Seq<char>>::empty() + fields =~= fields);
    }
}

/// Written records, read from the front.
proof fn lemma_records_front(records: Seq<Seq<Seq<char>>>)
    requires
        records.len() > 0,
    ensures
        csv_records(records) == csv_record(records[0]) + csv_records(records.drop_first()),
    decreases records.len(),
{
    if records.len() == 1 {
        assert(records.drop_last() =~= Seq::<Seq<Seq<char>>>::empty());
        assert(records.drop_first() =~= Seq::<Seq<Seq<char>>>::empty());
        assert(csv_records(Seq::<Seq<Seq<char>>>::empty()) =~= Seq::<char>::empty());
        assert(csv_records(records) =~= csv_record(records[0]) + Seq::<char>::empty());
    } else {
        let init = records.drop_last();
        lemma_records_front(init);
        assert(init[0] == records[0]);
        assert(init.drop_first() =~= records.drop_first().drop_last());
        assert(records.drop_first().last() == records.last());
        assert(csv_records(records) =~= csv_record(records[0]) + csv_records(records.drop_first()));
    }
}

proof fn lemma_scan_records(done: Seq<Seq<Seq<char>>>, records: Seq<Seq<Seq<char>>>)
    requires
        forall|i: int| 0 <= i < records.len() ==> (#[trigger] records[i]).len() > 0,
    ensures
        csv_scan(at_field(done, seq![]), csv_records(records)) == at_field(done + records, seq![]),
    decreases records.len(),
{
    if records.len() == 0 {
        assert(csv_records(records) =~= Seq::<char>::empty());
        assert(done + records =~= done);
    } else {
        lemma_records_front(records);
        lemma_scan_concat(at_field(done, seq![]), csv_record(records[0]), csv_records(records.drop_first()));
        lemma_scan_record(done, records[0]);
        let rest = records.drop_first();
        assert forall|i: int| 0 <= i < rest.len() implies (#[trigger] rest[i]).len() > 0 by {
            assert(rest[i] == records[i + 1]);
        }
        lemma_scan_records(done.push(records[0]), rest);
        assert(done.push(records[0]) + rest =~= done + records);
    }
}

/// Law: reading the CSV text of records gives back exactly those records,
/// field by field, whatever the fields hold (commas, quotes, line breaks),
/// as long as no record is empty.
pub proof fn lemma_csv_read_back(records: Seq<Seq<Seq<char>>>)
    requires
        forall|i: int| 0 <= i < records.len() ==> (#[trigger] records[i]).len() > 0,
    ensures
        csv_read(csv_records(records)) == records,
{
    lemma_scan_records(seq![], records);
    assert(at_field(seq![], seq![]) == csv_start());
    assert(Seq::<Seq<Seq<char>>>::empty() + records =~= records);
}

} // verus!
