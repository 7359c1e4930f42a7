use worker_index::ingest::{generate_database, pick_info, record_from_rows, IngestError, NO_INFORMATION};
use worker_index::record::{entry_offset, Record, DATA_ENTRY_SIZE};

fn row(cols: &[&str]) -> Vec<String> {
    cols.iter().map(|c| c.to_string()).collect()
}

fn wide_row(width: usize, set: &[(usize, &str)]) -> Vec<String> {
    let mut r = vec![String::new(); width];
    for (k, v) in set {
        r[*k] = v.to_string();
    }
    r
}

#[test]
fn pick_info_takes_first_row_of_worker() {
    let info = vec![
        row(&["10", "a", "b", "c", "ANALISTA"]),
        row(&["20", "a", "b", "c", "MEDICO"]),
        row(&["20", "a", "b", "c", "OUTRO"]),
    ];
    assert_eq!(pick_info(&info, 0, &"20".to_string()), Some((1, 2)));
    assert_eq!(pick_info(&info, 2, &"20".to_string()), Some((2, 3)));
    assert_eq!(pick_info(&info, 0, &"30".to_string()), None);
    assert_eq!(pick_info(&info, 3, &"10".to_string()), None);
}

#[test]
fn pick_info_skips_row_without_role() {
    let info = vec![
        row(&["20", "a", "b", "c", NO_INFORMATION]),
        row(&["20", "a", "b", "c", "PROFESSOR"]),
        row(&["30", "a", "b", "c", NO_INFORMATION]),
        row(&["40", "a", "b", "c", "X"]),
    ];
    assert_eq!(pick_info(&info, 0, &"20".to_string()), Some((1, 2)));
    // No second row of the same worker: the row without role is kept.
    assert_eq!(pick_info(&info, 2, &"30".to_string()), Some((2, 3)));
    assert_eq!(NO_INFORMATION.as_bytes().len(), 18);
}

#[test]
fn record_from_rows_maps_columns() {
    let salary = wide_row(38, &[(2, "77"), (3, "***.1-**"), (4, "ANA"), (5, "100"), (37, "9")]);
    let info = wide_row(36, &[(4, "PROFESSOR"), (24, "UFRGS"), (35, "01/01/2000")]);
    let r = record_from_rows(&salary, &info);
    assert_eq!(r.nome, b"ANA".to_vec());
    assert_eq!(r.id, b"77".to_vec());
    assert_eq!(r.cpf, b"***.1-**".to_vec());
    assert_eq!(r.descricao_cargo, b"PROFESSOR".to_vec());
    assert_eq!(r.orgao_exercicio, b"UFRGS".to_vec());
    assert_eq!(r.remuneracao_basica_bruta_rs, b"100".to_vec());
    assert_eq!(r.total_verbas_indenizatorias_rs, b"9".to_vec());
    assert_eq!(r.data_ingresso_orgao, b"01/01/2000".to_vec());
}

#[test]
fn entry_offsets_in_store() {
    assert_eq!(entry_offset(1, 323), Some(0));
    assert_eq!(entry_offset(2, 646), Some(323));
    assert_eq!(entry_offset(3, 646), None);
    assert_eq!(entry_offset(0, 646), None);
    assert_eq!(entry_offset(u32::MAX, u64::MAX), Some((u32::MAX as u64 - 1) * 323));
}

fn salary_line(id: &str, name: &str) -> String {
    let mut cols = vec![String::new(); 38];
    cols[2] = id.to_string();
    cols[3] = "***.000.000-**".to_string();
    cols[4] = name.to_string();
    cols[5] = "1000,00".to_string();
    cols.join(",")
}

fn info_line(id: &str, role: &str, agency: &str) -> String {
    let mut cols = vec![String::new(); 36];
    cols[0] = id.to_string();
    cols[4] = role.to_string();
    cols[24] = agency.to_string();
    cols.join(";")
}

#[test]
fn generate_database_joins_the_spreadsheets() {
    let salary = format!("{}\n{}\n", salary_line("1", "ANA SOUZA"), salary_line("2", "JOAO LIMA"));
    let info = format!(
        "{}\n{}\n{}\n{}\n",
        info_line("Id", "Cargo", "Orgao"),
        info_line("1", NO_INFORMATION, "UFRGS"),
        info_line("1", "PROFESSOR", "UFRGS"),
        info_line("2", "MEDICO", "HOSPITAL"),
    );
    let store = generate_database(salary.as_bytes(), info.as_bytes()).unwrap();
    assert_eq!(store.len(), 2 * DATA_ENTRY_SIZE);
    let first = Record::from_bytes(&store[..DATA_ENTRY_SIZE]);
    assert_eq!(first.get(0), "ANA SOUZA");
    assert_eq!(first.get(3), "PROFESSOR");
    assert_eq!(first.get(4), "UFRGS");
    let second = Record::from_bytes(&store[DATA_ENTRY_SIZE..]);
    assert_eq!(second.get(0), "JOAO LIMA");
    assert_eq!(second.get(3), "MEDICO");
}

#[test]
fn generate_database_reports_missing_worker() {
    let salary = format!("{}\n", salary_line("9", "X"));
    let info = format!("{}\n{}\n", info_line("Id", "Cargo", "Orgao"), info_line("1", "A", "B"));
    assert_eq!(generate_database(salary.as_bytes(), info.as_bytes()), Err(IngestError::NoRegistryRow));
}

#[test]
fn generate_database_rejects_ragged_csv() {
    let salary = "a,b,c\nd,e\n";
    assert_eq!(generate_database(salary.as_bytes(), b"x;y\n"), Err(IngestError::BadCsv));
    let short = "a,b,c\n";
    assert_eq!(generate_database(short.as_bytes(), b"x;y\n"), Err(IngestError::ShortRow));
}
