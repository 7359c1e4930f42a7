use vstd::prelude::*;

use vstd::utf8::encode_utf8;

use crate::record::{fields_concat, fitted, spec_field_width, Record, FIELD_COUNT};

verus! {

/// The role text that the registry writes for a worker without one.
pub const NO_INFORMATION: &'static str = "Sem informa\u{fffd}\u{fffd}o";

/// The text of each column of a row.
pub open spec fn row_view(row: Vec<String>) -> Seq<Seq<char>> {
    row@.map_values(|c: String| c@)
}

/// The text of each column of each row of a table.
pub open spec fn table_view(t: Seq<Vec<String>>) -> Seq<Seq<Seq<char>>> {
    t.map_values(|r: Vec<String>| row_view(r))
}

/// Whether a registry row belongs to the worker `id` (its first column).
pub open spec fn row_is(row: Seq<Seq<char>>, id: Seq<char>) -> bool {
    row.len() > 0 && row[0] == id
}

/// Whether a registry row has no role (its fifth column says so).
pub open spec fn row_lacks_role(row: Seq<Seq<char>>) -> bool {
    row.len() > 4 && row[4] == NO_INFORMATION@
}

/// The choice among registry rows for worker `id`, looking from `cursor`
/// on: the first row of that worker, unless it has no role and the next row
/// is the same worker's, which is then taken instead. Gives the position
/// taken and the position to look from for the next worker.
pub open spec fn pick_spec(info: Seq<Seq<Seq<char>>>, first: int, id: Seq<char>) -> (int, int) {
    if row_lacks_role(info[first]) && first + 1 < info.len() && row_is(info[first + 1], id) {
        (first + 1, first + 2)
    } else {
        (first, first + 1)
    }
}

fn row_matches(row: &Vec<String>, id: &String) -> (r: bool)
    ensures
        r == row_is(row_view(*row), id@),
{
    row.len() > 0 && row[0] == *id
}

fn lacks_role(row: &Vec<String>) -> (r: bool)
    ensures
        r == row_lacks_role(row_view(*row)),
{
    if row.len() > 4 {
        let none = String::from_str(NO_INFORMATION);
        row[4] == none
    } else {
        false
    }
}

/// The first registry row from `cursor` on that belongs to the worker `id`.
pub open spec fn first_row(info: Seq<Seq<Seq<char>>>, cursor: int, id: Seq<char>) -> Option<int>
    decreases info.len() - cursor,
{
    if cursor < 0 || cursor >= info.len() {
        None
    } else if row_is(info[cursor], id) {
        Some(cursor)
    } else {
        first_row(info, cursor + 1, id)
    }
}

/// Finds the registry row for the worker `id`, scanning from `cursor`;
/// `None` when no row from there on belongs to that worker.
pub fn pick_info(info: &Vec<Vec<String>>, cursor: usize, id: &String) -> (r: Option<(usize, usize)>)
    ensures
        r is None <==> first_row(table_view(info@), cursor as int, id@) is None,
        r matches Some((taken, next)) ==> first_row(table_view(info@), cursor as int, id@) matches Some(first)
            && pick_spec(table_view(info@), first, id@) == (taken as int, next as int),
        r matches Some((taken, next)) ==> cursor <= taken < next <= info@.len(),
{
    let ghost t = table_view(info@);
    if cursor >= info.len() {
        return None;
    }
    let mut i: usize = cursor;
    while i < info.len()
        invariant
            cursor <= i <= info@.len(),
            t == table_view(info@),
            first_row(t, cursor as int, id@) == first_row(t, i as int, id@),
        decreases info@.len() - i,
    {
        assert(t[i as int] == row_view(info@[i as int]));
        if row_matches(&info[i], id) {
            if lacks_role(&info[i]) && i + 1 < info.len() && row_matches(&info[i + 1], id) {
                assert(t[i + 1] == row_view(info@[i + 1]));
                return Some((i + 1, i + 2));
            }
            proof {
                if i + 1 < info.len() {
                    assert(t[i + 1] == row_view(info@[i + 1]));
                }
            }
            return Some((i, i + 1));
        }
        i = i + 1;
    }
    None
}

/// The bytes of column `k` of `row`.
fn column_bytes(row: &Vec<String>, k: usize) -> (r: Vec<u8>)
    requires
        k < row@.len(),
    ensures
        r@ == encode_utf8(row@[k as int]@),
{
    let b = row[k].as_str().as_bytes();
    let mut r: Vec<u8> = Vec::new();
    let mut i: usize = 0;
    while i < b.len()
        invariant
            0 <= i <= b@.len(),
            r@ == b@.subrange(0, i as int),
        decreases b@.len() - i,
    {
        r.push(b[i]);
        assert(r@ =~= b@.subrange(0, i + 1));
        i = i + 1;
    }
    assert(b@.subrange(0, b@.len() as int) =~= b@);
    r
}

/// The columns of the pay table (`salary`) and of the registry (`info`)
/// that make up each field of a record, in field order.
pub open spec fn source_column(i: int) -> (bool, int) {
    if i == 0 {
        (true, 4)
    } else if i == 1 {
        (true, 2)
    } else if i == 2 {
        (true, 3)
    } else if i == 3 {
        (false, 4)
    } else if i == 4 {
        (false, 24)
    } else if i == 5 {
        (true, 5)
    } else if i == 6 {
        (true, 9)
    } else if i == 7 {
        (true, 13)
    } else if i == 8 {
        (true, 15)
    } else if i == 9 {
        (true, 17)
    } else if i == 10 {
        (true, 19)
    } else if i == 11 {
        (true, 21)
    } else if i == 12 {
        (true, 29)
    } else if i == 13 {
        (true, 37)
    } else if i == 14 {
        (false, 29)
    } else if i == 15 {
        (false, 30)
    } else if i == 16 {
        (false, 32)
    } else if i == 17 {
        (false, 33)
    } else {
        (false, 35)
    }
}

/// The record for a pay-table row and the registry row chosen for it.
pub fn record_from_rows(salary: &Vec<String>, info: &Vec<String>) -> (r: Record)
    requires
        salary@.len() >= 38,
        info@.len() >= 36,
    ensures
        forall|i: int| 0 <= i < crate::record::FIELD_COUNT ==> #[trigger] r.field(i) == ({
            let (from_salary, col) = source_column(i);
            if from_salary {
                encode_utf8(salary@[col]@)
            } else {
                encode_utf8(info@[col]@)
            }
        }),
{
    Record {
        nome: column_bytes(salary, 4),
        id: column_bytes(salary, 2),
        cpf: column_bytes(salary, 3),
        descricao_cargo: column_bytes(info, 4),
        orgao_exercicio: column_bytes(info, 24),
        remuneracao_basica_bruta_rs: column_bytes(salary, 5),
        gratificacao_natalina_rs: column_bytes(salary, 9),
        ferias_rs: column_bytes(salary, 13),
        outras_remuneracoes_eventuais_rs: column_bytes(salary, 15),
        irrf_rs: column_bytes(salary, 17),
        pss_rgps_rs: column_bytes(salary, 19),
        demais_deducoes_rs: column_bytes(salary, 21),
        remuneracao_apos_deducoes_obrigatorias_rs: column_bytes(salary, 29),
        total_verbas_indenizatorias_rs: column_bytes(salary, 37),
        data_inicio_afastamento: column_bytes(info, 29),
        data_termino_afastamento: column_bytes(info, 30),
        jornada_trabalho: column_bytes(info, 32),
        data_ingresso_cargo: column_bytes(info, 33),
        data_ingresso_orgao: column_bytes(info, 35),
    }
}

/// Why the record store could not be built.
#[derive(Debug, PartialEq, Eq, Structural)]
pub enum IngestError {
    /// A spreadsheet is not well-formed CSV text.
    BadCsv,
    /// A row has fewer columns than a record needs.
    ShortRow,
    /// The registry has no row, from where the previous worker's was on, for
    /// a worker of the pay table.
    NoRegistryRow,
}

/// The rows of the CSV text `b` (fields split at `delimiter`, a first
/// header row left out when `has_headers`), each as the text of its
/// fields; `None` where `b` is not well-formed CSV text.
pub uninterp spec fn csv_table(b: Seq<u8>, delimiter: u8, has_headers: bool) -> Option<Seq<Seq<Seq<char>>>>;

/// Relies on the `csv` crate's `ReaderBuilder` and `Reader::records`:
/// parsing in-memory CSV text depends on the bytes and the settings alone.
#[verifier::external_body]
fn parse_table(b: &[u8], delimiter: u8, has_headers: bool) -> (r: Option<Vec<Vec<String>>>)
    ensures
        r is Some <==> csv_table(b@, delimiter, has_headers) is Some,
        r matches Some(rows) ==> table_view(rows@) == csv_table(b@, delimiter, has_headers)->0,
{
    let mut reader = csv::ReaderBuilder::new().delimiter(delimiter).has_headers(has_headers).from_reader(b);
    let rows: Result<Vec<Vec<String>>, csv::Error> = reader
        .records()
        .map(|rec| rec.map(|fields| fields.iter().map(|f| f.to_string()).collect()))
        .collect();
    rows.ok()
}

/// The bytes of field `i` of the record for a pay-table row and its
/// registry row.
pub open spec fn source_bytes(salary: Seq<Seq<char>>, info: Seq<Seq<char>>, i: int) -> Seq<u8> {
    let (from_salary, col) = source_column(i);
    if from_salary {
        encode_utf8(salary[col])
    } else {
        encode_utf8(info[col])
    }
}

/// The first `n` fields of that record as stored, each fitted to its width.
pub open spec fn stored_row(salary: Seq<Seq<char>>, info: Seq<Seq<char>>, n: int) -> Seq<u8>
    decreases n,
{
    if n <= 0 {
        Seq::empty()
    } else {
        stored_row(salary, info, n - 1) + fitted(source_bytes(salary, info, n - 1), spec_field_width(n - 1))
    }
}

/// The record store for the pay-table rows from `k` on, the registry read
/// from `cursor` on: for each pay-table row, the registry row that
/// `pick_spec` takes, and the search for the next worker resumes after it.
pub open spec fn join_spec(salary: Seq<Seq<Seq<char>>>, info: Seq<Seq<Seq<char>>>, k: int, cursor: int) -> Result<
    Seq<u8>,
    IngestError,
>
    decreases salary.len() - k,
{
    if k < 0 || k >= salary.len() {
        Ok(Seq::empty())
    } else if salary[k].len() < 38 {
        Err(IngestError::ShortRow)
    } else {
        match first_row(info, cursor, salary[k][2]) {
            None => Err(IngestError::NoRegistryRow),
            Some(first) => {
                let (taken, next) = pick_spec(info, first, salary[k][2]);
                if info[taken].len() < 36 {
                    Err(IngestError::ShortRow)
                } else {
                    match join_spec(salary, info, k + 1, next) {
                        Ok(rest) => Ok(stored_row(salary[k], info[taken], FIELD_COUNT as int) + rest),
                        Err(e) => Err(e),
                    }
                }
            },
        }
    }
}

proof fn lemma_stored_row(r: Record, salary: Seq<Seq<char>>, info: Seq<Seq<char>>, n: int)
    requires
        0 <= n <= FIELD_COUNT,
        forall|i: int| 0 <= i < FIELD_COUNT ==> #[trigger] r.field(i) == fitted(source_bytes(salary, info, i), spec_field_width(i)),
    ensures
        fields_concat(r, n) == stored_row(salary, info, n),
    decreases n,
{
    if n > 0 {
        lemma_stored_row(r, salary, info, n - 1);
    }
}

/// Builds the record store from the pay table and the registry, row by row
/// of the pay table; see `join_spec`.
pub fn join_tables(salary: &Vec<Vec<String>>, info: &Vec<Vec<String>>) -> (r: Result<Vec<u8>, IngestError>)
    ensures
        match r {
            Ok(v) => join_spec(table_view(salary@), table_view(info@), 0, 0) == Ok::<Seq<u8>, IngestError>(v@),
            Err(e) => join_spec(table_view(salary@), table_view(info@), 0, 0) == Err::<Seq<u8>, IngestError>(e),
        },
{
    let ghost st = table_view(salary@);
    let ghost it = table_view(info@);
    let mut out: Vec<u8> = Vec::new();
    let mut cursor: usize = 0;
    let mut k: usize = 0;
    assert(out@ + Seq::<u8>::empty() =~= out@);
    while k < salary.len()
        invariant
            st == table_view(salary@),
            it == table_view(info@),
            0 <= k <= salary@.len(),
            join_spec(st, it, 0, 0) == match join_spec(st, it, k as int, cursor as int) {
                Ok(rest) => Ok::<Seq<u8>, IngestError>(out@ + rest),
                Err(e) => Err(e),
            },
        decreases salary@.len() - k,
    {
        let row = &salary[k];
        assert(st[k as int] == row_view(*row));
        if row.len() < 38 {
            return Err(IngestError::ShortRow);
        }
        assert(st[k as int][2] == row@[2]@);
        match pick_info(info, cursor, &row[2]) {
            None => {
                return Err(IngestError::NoRegistryRow);
            },
            Some((taken, next)) => {
                assert(it[taken as int] == row_view(info@[taken as int]));
                if info[taken].len() < 36 {
                    return Err(IngestError::ShortRow);
                }
                let mut record = record_from_rows(row, &info[taken]);
                record.resize();
                let ghost resized = record;
                let mut bytes = record.as_u8_array();
                proof {
                    assert forall|i: int| 0 <= i < FIELD_COUNT implies #[trigger] resized.field(i) == fitted(
                        source_bytes(st[k as int], it[taken as int], i),
                        spec_field_width(i),
                    ) by {
                        let (from_salary, col) = source_column(i);
                        if from_salary {
                            assert(st[k as int][col] == salary@[k as int]@[col]@);
                        } else {
                            assert(it[taken as int][col] == info@[taken as int]@[col]@);
                        }
                    }
                    lemma_stored_row(resized, st[k as int], it[taken as int], FIELD_COUNT as int);
                }
                let ghost before = out@;
                out.append(&mut bytes);
                proof {
                    if let Ok(rest) = join_spec(st, it, k + 1, next as int) {
                        assert(before + (stored_row(st[k as int], it[taken as int], FIELD_COUNT as int) + rest)
                            =~= out@ + rest);
                    }
                }
                cursor = next;
            },
        }
        k = k + 1;
    }
    assert(out@ + Seq::<u8>::empty() =~= out@);
    Ok(out)
}

/// Builds the record store from the CSV text of the pay table (`,`-separated,
/// no header row) and of the registry (`;`-separated, with a header row).
pub fn generate_database(salary_csv: &[u8], info_csv: &[u8]) -> (r: Result<Vec<u8>, IngestError>)
    ensures
        match (csv_table(salary_csv@, 0x2c, false), csv_table(info_csv@, 0x3b, true)) {
            (Some(s), Some(i)) => match r {
                Ok(v) => join_spec(s, i, 0, 0) == Ok::<Seq<u8>, IngestError>(v@),
                Err(e) => join_spec(s, i, 0, 0) == Err::<Seq<u8>, IngestError>(e),
            },
            _ => r == Err::<Vec<u8>, IngestError>(IngestError::BadCsv),
        },
{
    let salary = match parse_table(salary_csv, 0x2c, false) {
        Some(rows) => rows,
        None => return Err(IngestError::BadCsv),
    };
    let info = match parse_table(info_csv, 0x3b, true) {
        Some(rows) => rows,
        None => return Err(IngestError::BadCsv),
    };
    join_tables(&salary, &info)
}

} // verus!
