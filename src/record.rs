use vstd::prelude::*;

use vstd::utf8::{decode_utf8, valid_utf8};

use crate::text::utf8_text;

verus! {

pub const NAME_MAX_SIZE: usize = 40;

pub const CPF_MAX_SIZE: usize = 15;

pub const SALARY_MAX_SIZE: usize = 10;

pub const DESCRIPTION_MAX_SIZE: usize = 50;

pub const DATA_MAX_SIZE: usize = 12;

pub const DEDICACAO_MAX_SIZE: usize = 20;

/// Bytes taken by one record in the record store.
pub const DATA_ENTRY_SIZE: usize = NAME_MAX_SIZE + CPF_MAX_SIZE + SALARY_MAX_SIZE * 10 + DESCRIPTION_MAX_SIZE * 2
    + DATA_MAX_SIZE * 4 + DEDICACAO_MAX_SIZE;

/// Number of fields of a record.
pub const FIELD_COUNT: usize = 19;

/// Field position of the person's name.
pub const NAME_FIELD: usize = 0;

/// Field position of the job role.
pub const ROLE_FIELD: usize = 3;

/// Field position of the employing agency.
pub const AGENCY_FIELD: usize = 4;

/// Width in bytes of field `i`, fields stored in this order: name, id,
/// document id, role, agency, nine currency fields, two dates, working
/// hours, two dates.
pub open spec fn spec_field_width(i: int) -> nat {
    if i == 0 {
        NAME_MAX_SIZE as nat
    } else if i == 2 {
        CPF_MAX_SIZE as nat
    } else if i == 3 || i == 4 {
        DESCRIPTION_MAX_SIZE as nat
    } else if i == 1 || (5 <= i && i <= 13) {
        SALARY_MAX_SIZE as nat
    } else if i == 16 {
        DEDICACAO_MAX_SIZE as nat
    } else {
        DATA_MAX_SIZE as nat
    }
}

/// Byte offset of field `i` within a record.
pub open spec fn field_start(i: int) -> nat
    decreases i,
{
    if i <= 0 {
        0
    } else {
        field_start(i - 1) + spec_field_width(i - 1)
    }
}

/// Every field lies within a record, and the fields fill it exactly.
pub proof fn lemma_field_layout(i: int)
    requires
        0 <= i < FIELD_COUNT,
    ensures
        field_start(i) + spec_field_width(i) <= DATA_ENTRY_SIZE,
        field_start(FIELD_COUNT as int) == DATA_ENTRY_SIZE,
{
    reveal_with_fuel(field_start, 20);
}

/// Width in bytes of field `i`.
pub fn field_width(i: usize) -> (r: usize)
    requires
        i < FIELD_COUNT,
    ensures
        r == spec_field_width(i as int),
{
    if i == 0 {
        NAME_MAX_SIZE
    } else if i == 2 {
        CPF_MAX_SIZE
    } else if i == 3 || i == 4 {
        DESCRIPTION_MAX_SIZE
    } else if i == 1 || (5 <= i && i <= 13) {
        SALARY_MAX_SIZE
    } else if i == 16 {
        DEDICACAO_MAX_SIZE
    } else {
        DATA_MAX_SIZE
    }
}

/// Byte offset of field `i` within a record.
pub fn field_offset(i: usize) -> (r: usize)
    requires
        i < FIELD_COUNT,
    ensures
        r == field_start(i as int),
{
    let mut off: usize = 0;
    let mut k: usize = 0;
    while k < i
        invariant
            k <= i < FIELD_COUNT,
            off == field_start(k as int),
            off <= DATA_ENTRY_SIZE,
        decreases i - k,
    {
        proof {
            lemma_field_layout(k as int);
        }
        off = off + field_width(k);
        k = k + 1;
    }
    off
}

/// The byte offset of record `entry` (1-based) in a store of `store_len`
/// bytes; `None` for the absent identifier 0 and for a record that the
/// store does not hold whole.
pub fn entry_offset(entry: u32, store_len: u64) -> (r: Option<u64>)
    ensures
        r is Some <==> entry >= 1 && entry * DATA_ENTRY_SIZE <= store_len,
        r matches Some(off) ==> off == (entry - 1) * DATA_ENTRY_SIZE,
{
    if entry == 0 {
        return None;
    }
    assert(DATA_ENTRY_SIZE == 323);
    let e = entry as u64 - 1;
    assert(e * 323 <= 0xffff_ffff * 323) by (nonlinear_arith)
        requires
            e <= 0xffff_ffff,
    ;
    assert(e * 323 + 323 == entry * 323) by (nonlinear_arith)
        requires
            e == entry - 1,
    ;
    let off = e * (DATA_ENTRY_SIZE as u64);
    if off + (DATA_ENTRY_SIZE as u64) > store_len {
        None
    } else {
        Some(off)
    }
}

/// `b` without its trailing NUL bytes.
pub open spec fn trim_nul(b: Seq<u8>) -> Seq<u8>
    decreases b.len(),
{
    if b.len() > 0 && b.last() == 0 {
        trim_nul(b.drop_last())
    } else {
        b
    }
}

/// `b` cut or padded with NUL bytes to exactly `w` bytes.
pub open spec fn fitted(b: Seq<u8>, w: nat) -> Seq<u8> {
    if b.len() >= w {
        b.subrange(0, w as int)
    } else {
        b + Seq::new((w - b.len()) as nat, |i: int| 0u8)
    }
}

/// The bytes of field `i` of the stored record `entry`, trailing NUL bytes
/// removed.
pub open spec fn stored_field(entry: Seq<u8>, i: int) -> Seq<u8> {
    trim_nul(entry.subrange(field_start(i) as int, (field_start(i) + spec_field_width(i)) as int))
}

/// The bytes of field `i` of `entry`, trailing NUL bytes removed.
pub fn read_field(entry: &[u8], i: usize) -> (r: Vec<u8>)
    requires
        i < FIELD_COUNT,
        entry@.len() == DATA_ENTRY_SIZE,
    ensures
        r@ == stored_field(entry@, i as int),
{
    proof {
        lemma_field_layout(i as int);
    }
    let start = field_offset(i);
    let w = field_width(i);
    let mut end = start + w;
    let ghost whole = entry@.subrange(start as int, start + w);
    assert(whole.subrange(0, w as int) =~= whole);
    while end > start && entry[end - 1] == 0
        invariant
            start <= end <= start + w <= entry@.len(),
            whole == entry@.subrange(start as int, start + w),
            trim_nul(whole) == trim_nul(entry@.subrange(start as int, end as int)),
        decreases end - start,
    {
        let ghost cur = entry@.subrange(start as int, end as int);
        assert(cur.drop_last() =~= entry@.subrange(start as int, end - 1));
        end = end - 1;
    }
    let mut r: Vec<u8> = Vec::new();
    let mut k: usize = start;
    while k < end
        invariant
            start <= k <= end <= entry@.len(),
            r@ == entry@.subrange(start as int, k as int),
        decreases end - k,
    {
        r.push(entry[k]);
        assert(r@ =~= entry@.subrange(start as int, k + 1));
        k = k + 1;
    }
    r
}

/// Pads or cuts `b` to `w` bytes.
fn fit(b: &mut Vec<u8>, w: usize)
    ensures
        final(b)@ == fitted(old(b)@, w as nat),
{
    b.resize(w, 0);
    assert(final(b)@ =~= fitted(old(b)@, w as nat));
}

/// One worker's record: each field as bytes of text.
#[derive(PartialEq, PartialOrd, Default)]
pub struct Record {
    pub nome: Vec<u8>,
    pub id: Vec<u8>,
    pub cpf: Vec<u8>,
    pub descricao_cargo: Vec<u8>,
    pub orgao_exercicio: Vec<u8>,
    pub remuneracao_basica_bruta_rs: Vec<u8>,
    pub gratificacao_natalina_rs: Vec<u8>,
    pub ferias_rs: Vec<u8>,
    pub outras_remuneracoes_eventuais_rs: Vec<u8>,
    pub irrf_rs: Vec<u8>,
    pub pss_rgps_rs: Vec<u8>,
    pub demais_deducoes_rs: Vec<u8>,
    pub remuneracao_apos_deducoes_obrigatorias_rs: Vec<u8>,
    pub total_verbas_indenizatorias_rs: Vec<u8>,
    pub data_inicio_afastamento: Vec<u8>,
    pub data_termino_afastamento: Vec<u8>,
    pub jornada_trabalho: Vec<u8>,
    pub data_ingresso_cargo: Vec<u8>,
    pub data_ingresso_orgao: Vec<u8>,
}

impl Record {
    /// Field `i`, in storage order.
    pub open spec fn field(&self, i: int) -> Seq<u8> {
        if i == 0 {
            self.nome@
        } else if i == 1 {
            self.id@
        } else if i == 2 {
            self.cpf@
        } else if i == 3 {
            self.descricao_cargo@
        } else if i == 4 {
            self.orgao_exercicio@
        } else if i == 5 {
            self.remuneracao_basica_bruta_rs@
        } else if i == 6 {
            self.gratificacao_natalina_rs@
        } else if i == 7 {
            self.ferias_rs@
        } else if i == 8 {
            self.outras_remuneracoes_eventuais_rs@
        } else if i == 9 {
            self.irrf_rs@
        } else if i == 10 {
            self.pss_rgps_rs@
        } else if i == 11 {
            self.demais_deducoes_rs@
        } else if i == 12 {
            self.remuneracao_apos_deducoes_obrigatorias_rs@
        } else if i == 13 {
            self.total_verbas_indenizatorias_rs@
        } else if i == 14 {
            self.data_inicio_afastamento@
        } else if i == 15 {
            self.data_termino_afastamento@
        } else if i == 16 {
            self.jornada_trabalho@
        } else if i == 17 {
            self.data_ingresso_cargo@
        } else {
            self.data_ingresso_orgao@
        }
    }

    /// A record with every field empty.
    pub fn empty() -> (r: Record)
        ensures
            forall|i: int| 0 <= i < FIELD_COUNT ==> #[trigger] r.field(i) == Seq::<u8>::empty(),
    {
        Record {
            nome: Vec::new(),
            id: Vec::new(),
            cpf: Vec::new(),
            descricao_cargo: Vec::new(),
            orgao_exercicio: Vec::new(),
            remuneracao_basica_bruta_rs: Vec::new(),
            gratificacao_natalina_rs: Vec::new(),
            ferias_rs: Vec::new(),
            outras_remuneracoes_eventuais_rs: Vec::new(),
            irrf_rs: Vec::new(),
            pss_rgps_rs: Vec::new(),
            demais_deducoes_rs: Vec::new(),
            remuneracao_apos_deducoes_obrigatorias_rs: Vec::new(),
            total_verbas_indenizatorias_rs: Vec::new(),
            data_inicio_afastamento: Vec::new(),
            data_termino_afastamento: Vec::new(),
            jornada_trabalho: Vec::new(),
            data_ingresso_cargo: Vec::new(),
            data_ingresso_orgao: Vec::new(),
        }
    }

    /// Reads the stored record `entry`: each field is its slice of the
    /// entry without trailing NUL bytes.
    pub fn from_bytes(entry: &[u8]) -> (r: Record)
        requires
            entry@.len() == DATA_ENTRY_SIZE,
        ensures
            forall|i: int| 0 <= i < FIELD_COUNT ==> #[trigger] r.field(i) == stored_field(entry@, i),
    {
        Record {
            nome: read_field(entry, 0),
            id: read_field(entry, 1),
            cpf: read_field(entry, 2),
            descricao_cargo: read_field(entry, 3),
            orgao_exercicio: read_field(entry, 4),
            remuneracao_basica_bruta_rs: read_field(entry, 5),
            gratificacao_natalina_rs: read_field(entry, 6),
            ferias_rs: read_field(entry, 7),
            outras_remuneracoes_eventuais_rs: read_field(entry, 8),
            irrf_rs: read_field(entry, 9),
            pss_rgps_rs: read_field(entry, 10),
            demais_deducoes_rs: read_field(entry, 11),
            remuneracao_apos_deducoes_obrigatorias_rs: read_field(entry, 12),
            total_verbas_indenizatorias_rs: read_field(entry, 13),
            data_inicio_afastamento: read_field(entry, 14),
            data_termino_afastamento: read_field(entry, 15),
            jornada_trabalho: read_field(entry, 16),
            data_ingresso_cargo: read_field(entry, 17),
            data_ingresso_orgao: read_field(entry, 18),
        }
    }

    /// Field `i`, in storage order.
    pub fn field_ref(&self, i: usize) -> (r: &Vec<u8>)
        requires
            i < FIELD_COUNT,
        ensures
            r@ == self.field(i as int),
    {
        if i == 0 {
            &self.nome
        } else if i == 1 {
            &self.id
        } else if i == 2 {
            &self.cpf
        } else if i == 3 {
            &self.descricao_cargo
        } else if i == 4 {
            &self.orgao_exercicio
        } else if i == 5 {
            &self.remuneracao_basica_bruta_rs
        } else if i == 6 {
            &self.gratificacao_natalina_rs
        } else if i == 7 {
            &self.ferias_rs
        } else if i == 8 {
            &self.outras_remuneracoes_eventuais_rs
        } else if i == 9 {
            &self.irrf_rs
        } else if i == 10 {
            &self.pss_rgps_rs
        } else if i == 11 {
            &self.demais_deducoes_rs
        } else if i == 12 {
            &self.remuneracao_apos_deducoes_obrigatorias_rs
        } else if i == 13 {
            &self.total_verbas_indenizatorias_rs
        } else if i == 14 {
            &self.data_inicio_afastamento
        } else if i == 15 {
            &self.data_termino_afastamento
        } else if i == 16 {
            &self.jornada_trabalho
        } else if i == 17 {
            &self.data_ingresso_cargo
        } else {
            &self.data_ingresso_orgao
        }
    }

    /// The text of field `index`, or the text `Error!!` for a position past
    /// the last field.
    pub fn get(&self, index: usize) -> (r: String)
        requires
            index < FIELD_COUNT ==> valid_utf8(self.field(index as int)),
        ensures
            index < FIELD_COUNT ==> r@ == decode_utf8(self.field(index as int)),
            index >= FIELD_COUNT ==> r@ == "Error!!"@,
    {
        if index < FIELD_COUNT {
            let b = self.field_ref(index);
            match utf8_text(b.as_slice()) {
                Some(s) => s,
                None => String::new(),
            }
        } else {
            String::from_str("Error!!")
        }
    }

    /// The result-table line of the record: name, role, agency, gross pay,
    /// year-end bonus, income tax, social security, other deductions, net pay
    /// and indemnities, separated by `;` and ending in a newline.
    pub fn generate_csv_string(&mut self) -> (r: String)
        requires
            forall|k: int| 0 <= k < 10 ==> valid_utf8(#[trigger] old(self).field(csv_field(k))),
        ensures
            r@ == csv_line(*old(self)),
            *final(self) == *old(self),
    {
        let mut out = String::new();
        let mut k: usize = 0;
        while k < 9
            invariant
                0 <= k <= 9,
                forall|m: int| 0 <= m < 10 ==> valid_utf8(#[trigger] self.field(csv_field(m))),
                out@ == csv_prefix(*self, k as int),
            decreases 9 - k,
        {
            let f = if k == 0 {
                0
            } else if k <= 4 {
                k + 2
            } else {
                k + 4
            };
            assert(f == csv_field(k as int));
            let text = self.get(f);
            out.append(text.as_str());
            out.append(";");
            proof {
                reveal_strlit(";");
            }
            assert(out@ =~= csv_prefix(*self, k + 1));
            k = k + 1;
        }
        assert(13 == csv_field(9));
        assert(valid_utf8(self.field(csv_field(9))));
        let last = self.get(13);
        out.append(last.as_str());
        out.append("\n");
        proof {
            reveal_strlit("\n");
        }
        assert(out@ =~= csv_line(*self));
        out
    }

    /// Pads or cuts every field to its stored width.
    pub fn resize(&mut self)
        ensures
            forall|i: int| 0 <= i < FIELD_COUNT ==> #[trigger] final(self).field(i) == fitted(old(self).field(i), spec_field_width(i)),
    {
        fit(&mut self.nome, NAME_MAX_SIZE);
        fit(&mut self.id, SALARY_MAX_SIZE);
        fit(&mut self.cpf, CPF_MAX_SIZE);
        fit(&mut self.descricao_cargo, DESCRIPTION_MAX_SIZE);
        fit(&mut self.orgao_exercicio, DESCRIPTION_MAX_SIZE);
        fit(&mut self.remuneracao_basica_bruta_rs, SALARY_MAX_SIZE);
        fit(&mut self.gratificacao_natalina_rs, SALARY_MAX_SIZE);
        fit(&mut self.ferias_rs, SALARY_MAX_SIZE);
        fit(&mut self.outras_remuneracoes_eventuais_rs, SALARY_MAX_SIZE);
        fit(&mut self.irrf_rs, SALARY_MAX_SIZE);
        fit(&mut self.pss_rgps_rs, SALARY_MAX_SIZE);
        fit(&mut self.demais_deducoes_rs, SALARY_MAX_SIZE);
        fit(&mut self.remuneracao_apos_deducoes_obrigatorias_rs, SALARY_MAX_SIZE);
        fit(&mut self.total_verbas_indenizatorias_rs, SALARY_MAX_SIZE);
        fit(&mut self.data_inicio_afastamento, DATA_MAX_SIZE);
        fit(&mut self.data_termino_afastamento, DATA_MAX_SIZE);
        fit(&mut self.jornada_trabalho, DEDICACAO_MAX_SIZE);
        fit(&mut self.data_ingresso_cargo, DATA_MAX_SIZE);
        fit(&mut self.data_ingresso_orgao, DATA_MAX_SIZE);
    }

    /// All fields, in storage order, as one byte string; the record is left
    /// with every field empty.
    pub fn as_u8_array(&mut self) -> (r: Vec<u8>)
        ensures
            r@ == fields_concat(*old(self), FIELD_COUNT as int),
            forall|i: int| 0 <= i < FIELD_COUNT ==> #[trigger] final(self).field(i) == Seq::<u8>::empty(),
    {
        let mut v: Vec<u8> = Vec::new();
        proof {
            reveal_with_fuel(fields_concat, 20);
        }
        v.append(&mut self.nome);
        v.append(&mut self.id);
        v.append(&mut self.cpf);
        v.append(&mut self.descricao_cargo);
        v.append(&mut self.orgao_exercicio);
        v.append(&mut self.remuneracao_basica_bruta_rs);
        v.append(&mut self.gratificacao_natalina_rs);
        v.append(&mut self.ferias_rs);
        v.append(&mut self.outras_remuneracoes_eventuais_rs);
        v.append(&mut self.irrf_rs);
        v.append(&mut self.pss_rgps_rs);
        v.append(&mut self.demais_deducoes_rs);
        v.append(&mut self.remuneracao_apos_deducoes_obrigatorias_rs);
        v.append(&mut self.total_verbas_indenizatorias_rs);
        v.append(&mut self.data_inicio_afastamento);
        v.append(&mut self.data_termino_afastamento);
        v.append(&mut self.jornada_trabalho);
        v.append(&mut self.data_ingresso_cargo);
        v.append(&mut self.data_ingresso_orgao);
        v
    }
}

/// The fields shown in a result table: name, role, agency, gross pay,
/// year-end bonus, income tax, social security, other deductions, net pay,
/// indemnities.
pub open spec fn csv_field(k: int) -> int {
    if k == 0 {
        0
    } else if k <= 4 {
        k + 2
    } else {
        k + 4
    }
}

/// The text of the first `n` table fields of `r`, each followed by `;`.
pub open spec fn csv_prefix(r: Record, n: int) -> Seq<char>
    decreases n,
{
    if n <= 0 {
        Seq::empty()
    } else {
        csv_prefix(r, n - 1) + decode_utf8(r.field(csv_field(n - 1))) + seq![';']
    }
}

/// The result-table line of `r`: the ten table fields separated by `;`,
/// ending in a newline.
pub open spec fn csv_line(r: Record) -> Seq<char> {
    csv_prefix(r, 9) + decode_utf8(r.field(csv_field(9))) + seq!['\n']
}

/// The first `n` fields of `r`, one after another.
pub open spec fn fields_concat(r: Record, n: int) -> Seq<u8>
    decreases n,
{
    if n <= 0 {
        Seq::empty()
    } else {
        fields_concat(r, n - 1) + r.field(n - 1)
    }
}

} // verus!
