use worker_index::builder::BuildError;
use worker_index::combine::{combine_entries, normalize};
use worker_index::reader::at_from_bytes;
use worker_index::record::{Record, AGENCY_FIELD, DATA_ENTRY_SIZE, NAME_FIELD, ROLE_FIELD};
use worker_index::trie::Trie;

fn record(name: &str, role: &str, agency: &str) -> Record {
    let mut r = Record::empty();
    r.nome = name.as_bytes().to_vec();
    r.id = b"123".to_vec();
    r.cpf = b"***.456.789-**".to_vec();
    r.descricao_cargo = role.as_bytes().to_vec();
    r.orgao_exercicio = agency.as_bytes().to_vec();
    r.remuneracao_basica_bruta_rs = b"1000,00".to_vec();
    r.gratificacao_natalina_rs = b"0,00".to_vec();
    r.irrf_rs = b"50,00".to_vec();
    r.pss_rgps_rs = b"110,00".to_vec();
    r.demais_deducoes_rs = b"0,00".to_vec();
    r.remuneracao_apos_deducoes_obrigatorias_rs = b"840,00".to_vec();
    r.total_verbas_indenizatorias_rs = b"0,00".to_vec();
    r
}

fn stored(mut r: Record) -> Vec<u8> {
    r.resize();
    r.as_u8_array()
}

fn store_of(records: Vec<Record>) -> Vec<u8> {
    let mut store = Vec::new();
    for r in records {
        store.extend(stored(r));
    }
    store
}

fn sample_store() -> Vec<u8> {
    store_of(vec![
        record("ANA MARIA SOUZA", "PROFESSOR DO MAGISTERIO SUPERIOR", "UNIVERSIDADE FEDERAL"),
        record("JOAO SILVA", "ANALISTA", "MINISTERIO DA SAUDE"),
        record("MARIA SILVA", "PROFESSOR", "UNIVERSIDADE FEDERAL"),
    ])
}

#[test]
fn record_size_is_sum_of_widths() {
    assert_eq!(DATA_ENTRY_SIZE, 323);
    assert_eq!(stored(record("X", "Y", "Z")).len(), DATA_ENTRY_SIZE);
}

#[test]
fn stored_record_reads_back_trimmed() {
    let bytes = stored(record("JOÃO DA SILVA", "ANALISTA", "INSS"));
    assert_eq!(&bytes[..14], "JOÃO DA SILVA".as_bytes());
    assert_eq!(bytes[14], 0);
    let back = Record::from_bytes(&bytes);
    assert_eq!(back.get(0), "JOÃO DA SILVA");
    assert_eq!(back.get(1), "123");
    assert_eq!(back.get(3), "ANALISTA");
    assert_eq!(back.get(4), "INSS");
    assert_eq!(back.get(14), "");
    assert_eq!(back.get(19), "Error!!");
}

#[test]
fn resize_cuts_long_fields() {
    let mut r = record("A", "B", "C");
    r.nome = vec![b'N'; 45];
    r.id = b"12345678901234".to_vec();
    r.resize();
    assert_eq!(r.nome, vec![b'N'; 40]);
    assert_eq!(r.id, b"1234567890".to_vec());
    assert_eq!(r.cpf.len(), 15);
    assert_eq!(r.data_ingresso_orgao, vec![0u8; 12]);
}

#[test]
fn as_u8_array_empties_the_record() {
    let mut r = record("A", "B", "C");
    r.resize();
    let bytes = r.as_u8_array();
    assert_eq!(bytes.len(), DATA_ENTRY_SIZE);
    assert!(r.nome.is_empty() && r.data_ingresso_orgao.is_empty());
}

#[test]
fn csv_line_of_record() {
    let mut r = record("ANA", "PROFESSOR", "UFRGS");
    assert_eq!(
        r.generate_csv_string(),
        "ANA;PROFESSOR;UFRGS;1000,00;0,00;50,00;110,00;0,00;840,00;0,00\n"
    );
}

#[test]
fn index_record_uses_the_chosen_field() {
    let entry = stored(record("PAULO LIMA", "MEDICO", "HOSPITAL"));
    let mut names = Trie::new();
    names.index_record(&entry, NAME_FIELD, 3).unwrap();
    let bytes = names.serialize().unwrap();
    assert_eq!(at_from_bytes("LIMA", &bytes, false), Ok(Some(vec![3])));
    assert_eq!(at_from_bytes("MEDICO", &bytes, false), Ok(None));
}

#[test]
fn invalid_text_is_rejected() {
    let mut entry = stored(record("PAULO", "MEDICO", "HOSPITAL"));
    entry[0] = 0xff;
    let mut trie = Trie::new();
    assert_eq!(trie.index_record(&entry, NAME_FIELD, 1), Err(BuildError::InvalidText));
    assert_eq!(Trie::new_from_database(&entry, NAME_FIELD).err(), Some(BuildError::InvalidText));
}

#[test]
fn truncated_store_is_rejected() {
    let mut store = sample_store();
    store.pop();
    assert_eq!(Trie::new_from_database(&store, NAME_FIELD).err(), Some(BuildError::Truncated));
}

#[test]
fn store_index_per_field() {
    let store = sample_store();
    let mut names = Trie::new_from_database(&store, NAME_FIELD).unwrap();
    let mut roles = Trie::new_from_database(&store, ROLE_FIELD).unwrap();
    let mut agencies = Trie::new_from_database(&store, AGENCY_FIELD).unwrap();
    let names = names.serialize().unwrap();
    let roles = roles.serialize().unwrap();
    let agencies = agencies.serialize().unwrap();
    assert_eq!(at_from_bytes("SILVA", &names, false), Ok(Some(vec![2, 3])));
    assert_eq!(at_from_bytes("MARIA", &names, false), Ok(Some(vec![1, 3])));
    assert_eq!(at_from_bytes("PROFESSOR", &roles, false), Ok(Some(vec![1, 3])));
    assert_eq!(at_from_bytes("UNIVERSIDADE FEDERAL", &agencies, false), Ok(Some(vec![1, 3])));
    assert_eq!(at_from_bytes("SAUDE", &agencies, false), Ok(Some(vec![2])));
}

#[test]
fn rebuild_is_the_same_every_time() {
    let store = sample_store();
    for field in [NAME_FIELD, ROLE_FIELD, AGENCY_FIELD] {
        let a = Trie::new_from_database(&store, field).unwrap().serialize().unwrap();
        let b = Trie::new_from_database(&store, field).unwrap().serialize().unwrap();
        assert_eq!(a, b);
    }
}

#[test]
fn empty_store_gives_empty_index() {
    let mut t = Trie::new_from_database(&[], NAME_FIELD).unwrap();
    assert_eq!(t.serialize().unwrap(), vec![0, 0, 0, 0]);
}

#[test]
fn combine_by_and() {
    let fields = vec![Some(vec![5, 3, 9, 3]), None, Some(vec![9, 1, 3])];
    assert_eq!(combine_entries(&fields, false), vec![3, 9]);
}

#[test]
fn combine_by_or() {
    let fields = vec![Some(vec![5, 3, 9, 3]), None, Some(vec![9, 1, 3])];
    assert_eq!(combine_entries(&fields, true), vec![1, 3, 5, 9]);
}

#[test]
fn combine_without_queried_fields_is_empty() {
    let fields: Vec<Option<Vec<u32>>> = vec![None, None];
    assert!(combine_entries(&fields, false).is_empty());
    assert!(combine_entries(&fields, true).is_empty());
    assert_eq!(combine_entries(&vec![Some(vec![])], false), Vec::<u32>::new());
}

#[test]
fn normalize_sorts_and_dedups() {
    assert_eq!(normalize(vec![4, 1, 4, 2, 1]), vec![1, 2, 4]);
    assert_eq!(normalize(vec![]), Vec::<u32>::new());
}

#[test]
fn store_index_has_paths_only_for_phrase_prefixes() {
    let store = store_of(vec![record("LUIZ SOUZA", "X", "Y"), record("LUIZA", "X", "Y")]);
    let mut names = Trie::new_from_database(&store, NAME_FIELD).unwrap();
    let bytes = names.serialize().unwrap();
    assert_eq!(at_from_bytes("LUIZ", &bytes, false), Ok(Some(vec![1])));
    assert_eq!(at_from_bytes("LUIZA", &bytes, false), Ok(Some(vec![2])));
    assert_eq!(at_from_bytes("SOU", &bytes, false), Ok(Some(vec![])));
    assert_eq!(at_from_bytes("LUIZ SOUZA", &bytes, false), Ok(Some(vec![1])));
    assert_eq!(at_from_bytes("OUZA", &bytes, false), Ok(None));
    let mut ids = at_from_bytes("LUI", &bytes, true).unwrap().unwrap();
    ids.sort();
    assert_eq!(ids, vec![1, 1, 2]);
}
