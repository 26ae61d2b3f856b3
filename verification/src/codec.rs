//! The wire format of a record, with its encoder and decoder.
//!
//! A record is laid out as a little-endian 32-bit field count followed by the
//! fields. Every field starts with one kind byte. Text carries a 32-bit byte
//! length and its UTF-8 bytes; integers are fixed-width little-endian; a
//! dictionary carries a 32-bit entry count, and each entry a text key and a
//! counted list of scalar fields. The format is self-describing: decoding
//! needs no schema, and `dec_payload` is the single mathematical description
//! of what a byte sequence means.

use vstd::prelude::*;
use vstd::bytes::{spec_u16_to_le_bytes, spec_u16_from_le_bytes, spec_u32_to_le_bytes,
    spec_u32_from_le_bytes, lemma_auto_spec_u16_to_from_le_bytes,
    lemma_auto_spec_u32_to_from_le_bytes, u16_to_le_bytes, u16_from_le_bytes, u32_to_le_bytes,
    u32_from_le_bytes};
use vstd::utf8::{valid_utf8, decode_utf8, encode_utf8, encode_utf8_valid_utf8,
    encode_utf8_decode_utf8, decode_utf8_encode_utf8};
use vstd::slice::{slice_subrange, slice_to_vec, slice_index_get};
use crate::error::SerdeFlowError;
use crate::record::{ScalarValue, DictEntry, FieldValue, Record, ScalarModel, EntryModel,
    FieldModel, scalars_model, entries_model, fields_model};

verus! {

/// Kind byte of a text field.
pub const KIND_TEXT: u8 = 1;

/// Kind byte of a 16-bit integer field.
pub const KIND_U16: u8 = 2;

/// Kind byte of a 32-bit integer field.
pub const KIND_U32: u8 = 3;

/// Kind byte of a dictionary field.
pub const KIND_DICT: u8 = 4;

// ---------------------------------------------------------------------------
// What the encoder can represent: every length must fit its 32-bit count.
// ---------------------------------------------------------------------------
/// The text's UTF-8 form fits the 32-bit length field.
pub open spec fn text_ok(s: Seq<char>) -> bool {
    encode_utf8(s).len() <= u32::MAX
}

pub open spec fn scalar_ok(f: ScalarModel) -> bool {
    match f {
        ScalarModel::Text(s) => text_ok(s),
        ScalarModel::U16(_) => true,
        ScalarModel::U32(_) => true,
    }
}

pub open spec fn scalars_ok(v: Seq<ScalarModel>) -> bool {
    v.len() <= u32::MAX && (forall|i: int| 0 <= i < v.len() ==> scalar_ok(#[trigger] v[i]))
}

pub open spec fn entry_ok(e: EntryModel) -> bool {
    text_ok(e.key) && scalars_ok(e.value)
}

pub open spec fn entries_ok(v: Seq<EntryModel>) -> bool {
    v.len() <= u32::MAX && (forall|i: int| 0 <= i < v.len() ==> entry_ok(#[trigger] v[i]))
}

pub open spec fn field_ok(f: FieldModel) -> bool {
    match f {
        FieldModel::Text(s) => text_ok(s),
        FieldModel::U16(_) => true,
        FieldModel::U32(_) => true,
        FieldModel::Dict(es) => entries_ok(es),
    }
}

/// Whether a record can be put on the wire at all: every length and count
/// fits its 32-bit field. Encoding fails with `EncodingFailed` exactly on
/// records outside this set.
pub open spec fn record_ok(fs: Seq<FieldModel>) -> bool {
    fs.len() <= u32::MAX && (forall|i: int| 0 <= i < fs.len() ==> field_ok(#[trigger] fs[i]))
}

// ---------------------------------------------------------------------------
// The encoding, as a mathematical function of the record's value.
// ---------------------------------------------------------------------------
pub open spec fn enc_u16(x: u16) -> Seq<u8> {
    spec_u16_to_le_bytes(x)
}

pub open spec fn enc_u32(x: u32) -> Seq<u8> {
    spec_u32_to_le_bytes(x)
}

pub open spec fn enc_text(s: Seq<char>) -> Seq<u8> {
    enc_u32(encode_utf8(s).len() as u32) + encode_utf8(s)
}

pub open spec fn enc_scalar(f: ScalarModel) -> Seq<u8> {
    match f {
        ScalarModel::Text(s) => seq![KIND_TEXT] + enc_text(s),
        ScalarModel::U16(x) => seq![KIND_U16] + enc_u16(x),
        ScalarModel::U32(x) => seq![KIND_U32] + enc_u32(x),
    }
}

pub open spec fn enc_scalars(v: Seq<ScalarModel>) -> Seq<u8>
    decreases v.len(),
{
    if v.len() == 0 {
        Seq::empty()
    } else {
        enc_scalar(v[0]) + enc_scalars(v.drop_first())
    }
}

pub open spec fn enc_entry(e: EntryModel) -> Seq<u8> {
    enc_text(e.key) + enc_u32(e.value.len() as u32) + enc_scalars(e.value)
}

pub open spec fn enc_entries(v: Seq<EntryModel>) -> Seq<u8>
    decreases v.len(),
{
    if v.len() == 0 {
        Seq::empty()
    } else {
        enc_entry(v[0]) + enc_entries(v.drop_first())
    }
}

pub open spec fn enc_field(f: FieldModel) -> Seq<u8> {
    match f {
        FieldModel::Text(s) => seq![KIND_TEXT] + enc_text(s),
        FieldModel::U16(x) => seq![KIND_U16] + enc_u16(x),
        FieldModel::U32(x) => seq![KIND_U32] + enc_u32(x),
        FieldModel::Dict(es) => seq![KIND_DICT] + enc_u32(es.len() as u32) + enc_entries(es),
    }
}

pub open spec fn enc_fields(v: Seq<FieldModel>) -> Seq<u8>
    decreases v.len(),
{
    if v.len() == 0 {
        Seq::empty()
    } else {
        enc_field(v[0]) + enc_fields(v.drop_first())
    }
}

/// The full wire image of a record: its field count, then its fields.
pub open spec fn enc_record(fs: Seq<FieldModel>) -> Seq<u8> {
    enc_u32(fs.len() as u32) + enc_fields(fs)
}

// ---------------------------------------------------------------------------
// The decoding, as a partial mathematical function of the bytes. Each
// function consumes from position `i` and yields the value with the position
// just past it, or nothing if the bytes there do not form one.
// ---------------------------------------------------------------------------
pub open spec fn dec_u16(b: Seq<u8>, i: int) -> Option<(u16, int)> {
    if 0 <= i && i + 2 <= b.len() {
        Some((spec_u16_from_le_bytes(b.subrange(i, i + 2)), i + 2))
    } else {
        None
    }
}

pub open spec fn dec_u32(b: Seq<u8>, i: int) -> Option<(u32, int)> {
    if 0 <= i && i + 4 <= b.len() {
        Some((spec_u32_from_le_bytes(b.subrange(i, i + 4)), i + 4))
    } else {
        None
    }
}

pub open spec fn dec_text(b: Seq<u8>, i: int) -> Option<(Seq<char>, int)> {
    match dec_u32(b, i) {
        Some((n, j)) => {
            if j + n <= b.len() && valid_utf8(b.subrange(j, j + n)) {
                Some((decode_utf8(b.subrange(j, j + n)), j + n))
            } else {
                None
            }
        },
        None => None,
    }
}

pub open spec fn dec_scalar(b: Seq<u8>, i: int) -> Option<(ScalarModel, int)> {
    if 0 <= i && i < b.len() {
        if b[i] == KIND_TEXT {
            match dec_text(b, i + 1) {
                Some((s, j)) => Some((ScalarModel::Text(s), j)),
                None => None,
            }
        } else if b[i] == KIND_U16 {
            match dec_u16(b, i + 1) {
                Some((x, j)) => Some((ScalarModel::U16(x), j)),
                None => None,
            }
        } else if b[i] == KIND_U32 {
            match dec_u32(b, i + 1) {
                Some((x, j)) => Some((ScalarModel::U32(x), j)),
                None => None,
            }
        } else {
            None
        }
    } else {
        None
    }
}

pub open spec fn dec_scalars(b: Seq<u8>, i: int, n: nat) -> Option<(Seq<ScalarModel>, int)>
    decreases n,
{
    if n == 0 {
        Some((Seq::empty(), i))
    } else {
        match dec_scalar(b, i) {
            Some((f, j)) => {
                match dec_scalars(b, j, (n - 1) as nat) {
                    Some((rest, k)) => Some((seq![f] + rest, k)),
                    None => None,
                }
            },
            None => None,
        }
    }
}

pub open spec fn dec_entry(b: Seq<u8>, i: int) -> Option<(EntryModel, int)> {
    match dec_text(b, i) {
        Some((key, j)) => {
            match dec_u32(b, j) {
                Some((n, j2)) => {
                    match dec_scalars(b, j2, n as nat) {
                        Some((value, j3)) => Some((EntryModel { key, value }, j3)),
                        None => None,
                    }
                },
                None => None,
            }
        },
        None => None,
    }
}

pub open spec fn dec_entries(b: Seq<u8>, i: int, n: nat) -> Option<(Seq<EntryModel>, int)>
    decreases n,
{
    if n == 0 {
        Some((Seq::empty(), i))
    } else {
        match dec_entry(b, i) {
            Some((e, j)) => {
                match dec_entries(b, j, (n - 1) as nat) {
                    Some((rest, k)) => Some((seq![e] + rest, k)),
                    None => None,
                }
            },
            None => None,
        }
    }
}

pub open spec fn dec_field(b: Seq<u8>, i: int) -> Option<(FieldModel, int)> {
    if 0 <= i && i < b.len() {
        if b[i] == KIND_TEXT {
            match dec_text(b, i + 1) {
                Some((s, j)) => Some((FieldModel::Text(s), j)),
                None => None,
            }
        } else if b[i] == KIND_U16 {
            match dec_u16(b, i + 1) {
                Some((x, j)) => Some((FieldModel::U16(x), j)),
                None => None,
            }
        } else if b[i] == KIND_U32 {
            match dec_u32(b, i + 1) {
                Some((x, j)) => Some((FieldModel::U32(x), j)),
                None => None,
            }
        } else if b[i] == KIND_DICT {
            match dec_u32(b, i + 1) {
                Some((n, j)) => {
                    match dec_entries(b, j, n as nat) {
                        Some((es, k)) => Some((FieldModel::Dict(es), k)),
                        None => None,
                    }
                },
                None => None,
            }
        } else {
            None
        }
    } else {
        None
    }
}

pub open spec fn dec_fields(b: Seq<u8>, i: int, n: nat) -> Option<(Seq<FieldModel>, int)>
    decreases n,
{
    if n == 0 {
        Some((Seq::empty(), i))
    } else {
        match dec_field(b, i) {
            Some((f, j)) => {
                match dec_fields(b, j, (n - 1) as nat) {
                    Some((rest, k)) => Some((seq![f] + rest, k)),
                    None => None,
                }
            },
            None => None,
        }
    }
}

pub open spec fn dec_record(b: Seq<u8>, i: int) -> Option<(Seq<FieldModel>, int)> {
    match dec_u32(b, i) {
        Some((n, j)) => dec_fields(b, j, n as nat),
        None => None,
    }
}

/// What a whole byte sequence means as a record: it must decode and be
/// exactly consumed.
pub open spec fn dec_payload(b: Seq<u8>) -> Option<Seq<FieldModel>> {
    match dec_record(b, 0) {
        Some((fs, j)) => {
            if j == b.len() {
                Some(fs)
            } else {
                None
            }
        },
        None => None,
    }
}

// ---------------------------------------------------------------------------
// Appending one element on the right extends the encoding on the right.
// ---------------------------------------------------------------------------
proof fn lemma_enc_scalars_snoc(v: Seq<ScalarModel>, f: ScalarModel)
    ensures
        enc_scalars(v.push(f)) == enc_scalars(v) + enc_scalar(f),
    decreases v.len(),
{
    if v.len() == 0 {
        assert(v.push(f)[0] == f);
        assert(v.push(f).drop_first() =~= Seq::<ScalarModel>::empty());
        assert(enc_scalars(v.push(f)) == enc_scalar(f) + enc_scalars(
            Seq::<ScalarModel>::empty(),
        ));
        assert(enc_scalars(v.push(f)) =~= enc_scalars(v) + enc_scalar(f));
    } else {
        assert(v.push(f)[0] == v[0]);
        assert(v.push(f).drop_first() =~= v.drop_first().push(f));
        lemma_enc_scalars_snoc(v.drop_first(), f);
        assert(enc_scalars(v.push(f)) == enc_scalar(v[0]) + enc_scalars(v.drop_first().push(f)));
        assert(enc_scalars(v.push(f)) =~= enc_scalars(v) + enc_scalar(f));
    }
}

proof fn lemma_enc_entries_snoc(v: Seq<EntryModel>, e: EntryModel)
    ensures
        enc_entries(v.push(e)) == enc_entries(v) + enc_entry(e),
    decreases v.len(),
{
    if v.len() == 0 {
        assert(v.push(e)[0] == e);
        assert(v.push(e).drop_first() =~= Seq::<EntryModel>::empty());
        assert(enc_entries(v.push(e)) == enc_entry(e) + enc_entries(Seq::<EntryModel>::empty()));
        assert(enc_entries(v.push(e)) =~= enc_entries(v) + enc_entry(e));
    } else {
        assert(v.push(e)[0] == v[0]);
        assert(v.push(e).drop_first() =~= v.drop_first().push(e));
        lemma_enc_entries_snoc(v.drop_first(), e);
        assert(enc_entries(v.push(e)) == enc_entry(v[0]) + enc_entries(v.drop_first().push(e)));
        assert(enc_entries(v.push(e)) =~= enc_entries(v) + enc_entry(e));
    }
}

pub(crate) proof fn lemma_enc_fields_snoc(v: Seq<FieldModel>, f: FieldModel)
    ensures
        enc_fields(v.push(f)) == enc_fields(v) + enc_field(f),
    decreases v.len(),
{
    if v.len() == 0 {
        assert(v.push(f)[0] == f);
        assert(v.push(f).drop_first() =~= Seq::<FieldModel>::empty());
        assert(enc_fields(v.push(f)) == enc_field(f) + enc_fields(Seq::<FieldModel>::empty()));
        assert(enc_fields(v.push(f)) =~= enc_fields(v) + enc_field(f));
    } else {
        assert(v.push(f)[0] == v[0]);
        assert(v.push(f).drop_first() =~= v.drop_first().push(f));
        lemma_enc_fields_snoc(v.drop_first(), f);
        assert(enc_fields(v.push(f)) == enc_field(v[0]) + enc_fields(v.drop_first().push(f)));
        assert(enc_fields(v.push(f)) =~= enc_fields(v) + enc_field(f));
    }
}

// ---------------------------------------------------------------------------
// The encoder. Each helper appends the wire image of one value to `out` and
// reports exactly whether the value was representable; a failed helper may
// leave a partial image behind, and the caller then discards the buffer.
// ---------------------------------------------------------------------------
pub(crate) fn push_u16(out: &mut Vec<u8>, x: u16)
    ensures
        final(out)@ == old(out)@ + enc_u16(x),
{
    let mut b = u16_to_le_bytes(x);
    out.append(&mut b);
}

pub(crate) fn push_u32(out: &mut Vec<u8>, x: u32)
    ensures
        final(out)@ == old(out)@ + enc_u32(x),
{
    let mut b = u32_to_le_bytes(x);
    out.append(&mut b);
}

fn push_text(out: &mut Vec<u8>, s: &String) -> (ok: bool)
    ensures
        ok == text_ok(s@),
        ok ==> final(out)@ == old(out)@ + enc_text(s@),
        !ok ==> final(out)@ == old(out)@,
{
    let bytes: &[u8] = s.as_str().as_bytes();
    if bytes.len() > u32::MAX as usize {
        return false;
    }
    push_u32(out, bytes.len() as u32);
    let mut chunk = slice_to_vec(bytes);
    out.append(&mut chunk);
    proof {
        assert(out@ =~= old(out)@ + enc_text(s@));
    }
    true
}

fn push_scalar(out: &mut Vec<u8>, f: &ScalarValue) -> (ok: bool)
    ensures
        ok == scalar_ok(f@),
        ok ==> final(out)@ == old(out)@ + enc_scalar(f@),
{
    match f {
        ScalarValue::Text(s) => {
            out.push(KIND_TEXT);
            let ok = push_text(out, s);
            proof {
                if ok {
                    assert(out@ =~= old(out)@ + enc_scalar(f@));
                }
            }
            ok
        },
        ScalarValue::U16(x) => {
            out.push(KIND_U16);
            push_u16(out, *x);
            proof {
                assert(out@ =~= old(out)@ + enc_scalar(f@));
            }
            true
        },
        ScalarValue::U32(x) => {
            out.push(KIND_U32);
            push_u32(out, *x);
            proof {
                assert(out@ =~= old(out)@ + enc_scalar(f@));
            }
            true
        },
    }
}

fn push_scalars(out: &mut Vec<u8>, v: &Vec<ScalarValue>) -> (ok: bool)
    ensures
        ok == scalars_ok(scalars_model(v@)),
        ok ==> final(out)@ == old(out)@ + enc_u32(v@.len() as u32) + enc_scalars(
            scalars_model(v@),
        ),
{
    proof {
        assert(scalars_model(v@).len() == v@.len());
    }
    if v.len() > u32::MAX as usize {
        return false;
    }
    push_u32(out, v.len() as u32);
    let ghost m = scalars_model(v@);
    let mut k: usize = 0;
    while k < v.len()
        invariant
            k <= v.len(),
            m == scalars_model(v@),
            m.len() == v@.len(),
            out@ == old(out)@ + enc_u32(v@.len() as u32) + enc_scalars(m.take(k as int)),
            forall|i: int| 0 <= i < k ==> scalar_ok(#[trigger] m[i]),
        decreases v.len() - k,
    {
        let sc = vstd::std_specs::vec::vec_index(v, k);
        let ok = push_scalar(out, sc);
        if !ok {
            return false;
        }
        proof {
            assert(m.take(k + 1) =~= m.take(k as int).push(m[k as int]));
            lemma_enc_scalars_snoc(m.take(k as int), m[k as int]);
        }
        k = k + 1;
    }
    proof {
        assert(m.take(v@.len() as int) =~= m);
    }
    true
}

fn push_entry(out: &mut Vec<u8>, e: &DictEntry) -> (ok: bool)
    ensures
        ok == entry_ok(e@),
        ok ==> final(out)@ == old(out)@ + enc_entry(e@),
{
    let ok_key = push_text(out, &e.key);
    if !ok_key {
        return false;
    }
    let ok_value = push_scalars(out, &e.value);
    proof {
        if ok_value {
            assert(out@ =~= old(out)@ + enc_entry(e@));
        }
    }
    ok_value
}

fn push_entries(out: &mut Vec<u8>, v: &Vec<DictEntry>) -> (ok: bool)
    ensures
        ok == entries_ok(entries_model(v@)),
        ok ==> final(out)@ == old(out)@ + enc_u32(v@.len() as u32) + enc_entries(
            entries_model(v@),
        ),
{
    proof {
        assert(entries_model(v@).len() == v@.len());
    }
    if v.len() > u32::MAX as usize {
        return false;
    }
    push_u32(out, v.len() as u32);
    let ghost m = entries_model(v@);
    let mut k: usize = 0;
    while k < v.len()
        invariant
            k <= v.len(),
            m == entries_model(v@),
            m.len() == v@.len(),
            out@ == old(out)@ + enc_u32(v@.len() as u32) + enc_entries(m.take(k as int)),
            forall|i: int| 0 <= i < k ==> entry_ok(#[trigger] m[i]),
        decreases v.len() - k,
    {
        let en = vstd::std_specs::vec::vec_index(v, k);
        let ok = push_entry(out, en);
        if !ok {
            proof {
                assert(!entry_ok(m[k as int]));
            }
            return false;
        }
        proof {
            assert(m.take(k + 1) =~= m.take(k as int).push(m[k as int]));
            lemma_enc_entries_snoc(m.take(k as int), m[k as int]);
        }
        k = k + 1;
    }
    proof {
        assert(m.take(v@.len() as int) =~= m);
    }
    true
}

fn push_field(out: &mut Vec<u8>, f: &FieldValue) -> (ok: bool)
    ensures
        ok == field_ok(f@),
        ok ==> final(out)@ == old(out)@ + enc_field(f@),
{
    match f {
        FieldValue::Text(s) => {
            out.push(KIND_TEXT);
            let ok = push_text(out, s);
            proof {
                if ok {
                    assert(out@ =~= old(out)@ + enc_field(f@));
                }
            }
            ok
        },
        FieldValue::U16(x) => {
            out.push(KIND_U16);
            push_u16(out, *x);
            proof {
                assert(out@ =~= old(out)@ + enc_field(f@));
            }
            true
        },
        FieldValue::U32(x) => {
            out.push(KIND_U32);
            push_u32(out, *x);
            proof {
                assert(out@ =~= old(out)@ + enc_field(f@));
            }
            true
        },
        FieldValue::Dict(es) => {
            out.push(KIND_DICT);
            let ok = push_entries(out, es);
            proof {
                if ok {
                    assert(out@ =~= old(out)@ + enc_field(f@));
                }
            }
            ok
        },
    }
}

/// Whether every single field is representable, apart from the record's own
/// field count.
pub open spec fn fields_all_ok(fs: Seq<FieldModel>) -> bool {
    forall|i: int| 0 <= i < fs.len() ==> field_ok(#[trigger] fs[i])
}

pub(crate) fn push_fields(out: &mut Vec<u8>, v: &Vec<FieldValue>) -> (ok: bool)
    ensures
        ok == fields_all_ok(fields_model(v@)),
        ok ==> final(out)@ == old(out)@ + enc_fields(fields_model(v@)),
{
    let ghost m = fields_model(v@);
    let mut k: usize = 0;
    while k < v.len()
        invariant
            k <= v.len(),
            m == fields_model(v@),
            m.len() == v@.len(),
            out@ == old(out)@ + enc_fields(m.take(k as int)),
            forall|i: int| 0 <= i < k ==> field_ok(#[trigger] m[i]),
        decreases v.len() - k,
    {
        let fv = vstd::std_specs::vec::vec_index(v, k);
        let ok = push_field(out, fv);
        if !ok {
            return false;
        }
        proof {
            assert(m.take(k + 1) =~= m.take(k as int).push(m[k as int]));
            lemma_enc_fields_snoc(m.take(k as int), m[k as int]);
        }
        k = k + 1;
    }
    proof {
        assert(m.take(v@.len() as int) =~= m);
    }
    true
}

/// Encodes a record into its wire image.
///
/// Succeeds with exactly `enc_record` of the record's value whenever every
/// length fits the format's 32-bit counts, and fails with `EncodingFailed`
/// otherwise.
pub fn encode_payload(rec: &Record) -> (r: Result<Vec<u8>, SerdeFlowError>)
    ensures
        record_ok(rec@) ==> (r matches Ok(b) && b@ == enc_record(rec@)),
        !record_ok(rec@) ==> r == Err::<Vec<u8>, SerdeFlowError>(SerdeFlowError::EncodingFailed),
{
    if rec.fields.len() > u32::MAX as usize {
        return Err(SerdeFlowError::EncodingFailed);
    }
    let mut out: Vec<u8> = Vec::new();
    push_u32(&mut out, rec.fields.len() as u32);
    if push_fields(&mut out, &rec.fields) {
        proof {
            assert(out@ =~= enc_record(rec@));
        }
        Ok(out)
    } else {
        Err(SerdeFlowError::EncodingFailed)
    }
}

// ---------------------------------------------------------------------------
// The decoder. Each helper reads one value at position `i` and returns it
// with the position just past it, agreeing exactly with the spec decoder.
// ---------------------------------------------------------------------------
/// Relies on str::from_utf8: it succeeds exactly on valid UTF-8, and then
/// returns the string slice read from those bytes.
#[verifier::external_body]
fn utf8_to_str(bytes: &[u8]) -> (r: Option<&str>)
    ensures
        match r {
            Some(s) => valid_utf8(bytes@) && s@ == decode_utf8(bytes@),
            None => !valid_utf8(bytes@),
        },
{
    core::str::from_utf8(bytes).ok()
}

fn read_u16(b: &[u8], i: usize) -> (r: Result<(u16, usize), SerdeFlowError>)
    requires
        i <= b@.len(),
    ensures
        (r matches Ok(q) ==> q.1 <= b@.len()),
        match dec_u16(b@, i as int) {
            Some(p) => r matches Ok(q) && q.0 == p.0 && q.1 == p.1,
            None => r matches Err(e) && e == SerdeFlowError::ParsingFailed,
        },
{
    if b.len() - i >= 2 {
        let s = slice_subrange(b, i, i + 2);
        let x = u16_from_le_bytes(s);
        Ok((x, i + 2))
    } else {
        Err(SerdeFlowError::ParsingFailed)
    }
}

pub(crate) fn read_u32(b: &[u8], i: usize) -> (r: Result<(u32, usize), SerdeFlowError>)
    requires
        i <= b@.len(),
    ensures
        (r matches Ok(q) ==> q.1 <= b@.len()),
        match dec_u32(b@, i as int) {
            Some(p) => r matches Ok(q) && q.0 == p.0 && q.1 == p.1,
            None => r matches Err(e) && e == SerdeFlowError::ParsingFailed,
        },
{
    if b.len() - i >= 4 {
        let s = slice_subrange(b, i, i + 4);
        let x = u32_from_le_bytes(s);
        Ok((x, i + 4))
    } else {
        Err(SerdeFlowError::ParsingFailed)
    }
}

fn read_text(b: &[u8], i: usize) -> (r: Result<(String, usize), SerdeFlowError>)
    requires
        i <= b@.len(),
    ensures
        (r matches Ok(q) ==> q.1 <= b@.len()),
        match dec_text(b@, i as int) {
            Some(p) => r matches Ok(q) && q.0@ == p.0 && q.1 == p.1,
            None => r matches Err(e) && e == SerdeFlowError::ParsingFailed,
        },
{
    let (n, j) = match read_u32(b, i) {
        Ok(p) => p,
        Err(e) => {
            return Err(e);
        },
    };
    if b.len() - j < n as usize {
        return Err(SerdeFlowError::ParsingFailed);
    }
    let chunk = slice_subrange(b, j, j + n as usize);
    match utf8_to_str(chunk) {
        Some(s) => Ok((s.to_owned(), j + n as usize)),
        None => Err(SerdeFlowError::ParsingFailed),
    }
}

fn read_scalar(b: &[u8], i: usize) -> (r: Result<(ScalarValue, usize), SerdeFlowError>)
    requires
        i <= b@.len(),
    ensures
        (r matches Ok(q) ==> q.1 <= b@.len()),
        match dec_scalar(b@, i as int) {
            Some(p) => r matches Ok(q) && q.0@ == p.0 && q.1 == p.1,
            None => r matches Err(e) && e == SerdeFlowError::ParsingFailed,
        },
{
    if i < b.len() {
        let kind = *slice_index_get(b, i);
        if kind == KIND_TEXT {
            match read_text(b, i + 1) {
                Ok((s, j)) => Ok((ScalarValue::Text(s), j)),
                Err(e) => Err(e),
            }
        } else if kind == KIND_U16 {
            match read_u16(b, i + 1) {
                Ok((x, j)) => Ok((ScalarValue::U16(x), j)),
                Err(e) => Err(e),
            }
        } else if kind == KIND_U32 {
            match read_u32(b, i + 1) {
                Ok((x, j)) => Ok((ScalarValue::U32(x), j)),
                Err(e) => Err(e),
            }
        } else {
            Err(SerdeFlowError::ParsingFailed)
        }
    } else {
        Err(SerdeFlowError::ParsingFailed)
    }
}

spec fn put_scalars(prefix: Seq<ScalarModel>, o: Option<(Seq<ScalarModel>, int)>) -> Option<
    (Seq<ScalarModel>, int),
> {
    match o {
        Some(p) => Some((prefix + p.0, p.1)),
        None => None,
    }
}

fn read_scalars(b: &[u8], i: usize, n: u32) -> (r: Result<(Vec<ScalarValue>, usize), SerdeFlowError>)
    requires
        i <= b@.len(),
    ensures
        (r matches Ok(q) ==> q.1 <= b@.len()),
        match dec_scalars(b@, i as int, n as nat) {
            Some(p) => r matches Ok(q) && scalars_model(q.0@) == p.0 && q.1 == p.1,
            None => r matches Err(e) && e == SerdeFlowError::ParsingFailed,
        },
{
    let mut acc: Vec<ScalarValue> = Vec::new();
    let mut cur: usize = i;
    let mut k: u32 = 0;
    proof {
        assert(scalars_model(acc@) =~= Seq::<ScalarModel>::empty());
    }
    while k < n
        invariant
            cur <= b@.len(),
            k <= n,
            dec_scalars(b@, i as int, n as nat) == put_scalars(
                scalars_model(acc@),
                dec_scalars(b@, cur as int, (n - k) as nat),
            ),
        decreases n - k,
    {
        match read_scalar(b, cur) {
            Ok((sv, j)) => {
                proof {
                    let m0 = scalars_model(acc@);
                    let rem = dec_scalars(b@, j as int, (n - k - 1) as nat);
                    assert(dec_scalar(b@, cur as int) == Some::<(ScalarModel, int)>(
                        (sv@, j as int),
                    ));
                    match rem {
                        Some(p) => {
                            assert(m0.push(sv@) + p.0 =~= m0 + (seq![sv@] + p.0));
                        },
                        None => {},
                    }
                    assert(scalars_model(acc@.push(sv)) =~= scalars_model(acc@).push(sv@));
                }
                acc.push(sv);
                cur = j;
                k = k + 1;
            },
            Err(e) => {
                return Err(e);
            },
        }
    }
    proof {
        assert(scalars_model(acc@) + Seq::<ScalarModel>::empty() =~= scalars_model(acc@));
    }
    Ok((acc, cur))
}

fn read_entry(b: &[u8], i: usize) -> (r: Result<(DictEntry, usize), SerdeFlowError>)
    requires
        i <= b@.len(),
    ensures
        (r matches Ok(q) ==> q.1 <= b@.len()),
        match dec_entry(b@, i as int) {
            Some(p) => r matches Ok(q) && q.0@ == p.0 && q.1 == p.1,
            None => r matches Err(e) && e == SerdeFlowError::ParsingFailed,
        },
{
    let (key, j) = match read_text(b, i) {
        Ok(p) => p,
        Err(e) => {
            return Err(e);
        },
    };
    let (cnt, j2) = match read_u32(b, j) {
        Ok(p) => p,
        Err(e) => {
            return Err(e);
        },
    };
    let (value, j3) = match read_scalars(b, j2, cnt) {
        Ok(p) => p,
        Err(e) => {
            return Err(e);
        },
    };
    Ok((DictEntry { key, value }, j3))
}

spec fn put_entries(prefix: Seq<EntryModel>, o: Option<(Seq<EntryModel>, int)>) -> Option<
    (Seq<EntryModel>, int),
> {
    match o {
        Some(p) => Some((prefix + p.0, p.1)),
        None => None,
    }
}

fn read_entries(b: &[u8], i: usize, n: u32) -> (r: Result<(Vec<DictEntry>, usize), SerdeFlowError>)
    requires
        i <= b@.len(),
    ensures
        (r matches Ok(q) ==> q.1 <= b@.len()),
        match dec_entries(b@, i as int, n as nat) {
            Some(p) => r matches Ok(q) && entries_model(q.0@) == p.0 && q.1 == p.1,
            None => r matches Err(e) && e == SerdeFlowError::ParsingFailed,
        },
{
    let mut acc: Vec<DictEntry> = Vec::new();
    let mut cur: usize = i;
    let mut k: u32 = 0;
    proof {
        assert(entries_model(acc@) =~= Seq::<EntryModel>::empty());
    }
    while k < n
        invariant
            cur <= b@.len(),
            k <= n,
            dec_entries(b@, i as int, n as nat) == put_entries(
                entries_model(acc@),
                dec_entries(b@, cur as int, (n - k) as nat),
            ),
        decreases n - k,
    {
        match read_entry(b, cur) {
            Ok((en, j)) => {
                proof {
                    let m0 = entries_model(acc@);
                    let rem = dec_entries(b@, j as int, (n - k - 1) as nat);
                    assert(dec_entry(b@, cur as int) == Some::<(EntryModel, int)>((en@, j as int)));
                    match rem {
                        Some(p) => {
                            assert(m0.push(en@) + p.0 =~= m0 + (seq![en@] + p.0));
                        },
                        None => {},
                    }
                    assert(entries_model(acc@.push(en)) =~= entries_model(acc@).push(en@));
                }
                acc.push(en);
                cur = j;
                k = k + 1;
            },
            Err(e) => {
                return Err(e);
            },
        }
    }
    proof {
        assert(entries_model(acc@) + Seq::<EntryModel>::empty() =~= entries_model(acc@));
    }
    Ok((acc, cur))
}

pub(crate) fn read_field(b: &[u8], i: usize) -> (r: Result<(FieldValue, usize), SerdeFlowError>)
    requires
        i <= b@.len(),
    ensures
        (r matches Ok(q) ==> q.1 <= b@.len()),
        match dec_field(b@, i as int) {
            Some(p) => r matches Ok(q) && q.0@ == p.0 && q.1 == p.1,
            None => r matches Err(e) && e == SerdeFlowError::ParsingFailed,
        },
{
    if i < b.len() {
        let kind = *slice_index_get(b, i);
        if kind == KIND_TEXT {
            match read_text(b, i + 1) {
                Ok((s, j)) => Ok((FieldValue::Text(s), j)),
                Err(e) => Err(e),
            }
        } else if kind == KIND_U16 {
            match read_u16(b, i + 1) {
                Ok((x, j)) => Ok((FieldValue::U16(x), j)),
                Err(e) => Err(e),
            }
        } else if kind == KIND_U32 {
            match read_u32(b, i + 1) {
                Ok((x, j)) => Ok((FieldValue::U32(x), j)),
                Err(e) => Err(e),
            }
        } else if kind == KIND_DICT {
            let (cnt, j) = match read_u32(b, i + 1) {
                Ok(p) => p,
                Err(e) => {
                    return Err(e);
                },
            };
            match read_entries(b, j, cnt) {
                Ok((es, j2)) => Ok((FieldValue::Dict(es), j2)),
                Err(e) => Err(e),
            }
        } else {
            Err(SerdeFlowError::ParsingFailed)
        }
    } else {
        Err(SerdeFlowError::ParsingFailed)
    }
}

spec fn put_fields(prefix: Seq<FieldModel>, o: Option<(Seq<FieldModel>, int)>) -> Option<
    (Seq<FieldModel>, int),
> {
    match o {
        Some(p) => Some((prefix + p.0, p.1)),
        None => None,
    }
}

fn read_fields(b: &[u8], i: usize, n: u32) -> (r: Result<(Vec<FieldValue>, usize), SerdeFlowError>)
    requires
        i <= b@.len(),
    ensures
        (r matches Ok(q) ==> q.1 <= b@.len()),
        match dec_fields(b@, i as int, n as nat) {
            Some(p) => r matches Ok(q) && fields_model(q.0@) == p.0 && q.1 == p.1,
            None => r matches Err(e) && e == SerdeFlowError::ParsingFailed,
        },
{
    let mut acc: Vec<FieldValue> = Vec::new();
    let mut cur: usize = i;
    let mut k: u32 = 0;
    proof {
        assert(fields_model(acc@) =~= Seq::<FieldModel>::empty());
    }
    while k < n
        invariant
            cur <= b@.len(),
            k <= n,
            dec_fields(b@, i as int, n as nat) == put_fields(
                fields_model(acc@),
                dec_fields(b@, cur as int, (n - k) as nat),
            ),
        decreases n - k,
    {
        match read_field(b, cur) {
            Ok((fv, j)) => {
                proof {
                    let m0 = fields_model(acc@);
                    let rem = dec_fields(b@, j as int, (n - k - 1) as nat);
                    assert(dec_field(b@, cur as int) == Some::<(FieldModel, int)>((fv@, j as int)));
                    match rem {
                        Some(p) => {
                            assert(m0.push(fv@) + p.0 =~= m0 + (seq![fv@] + p.0));
                        },
                        None => {},
                    }
                    assert(fields_model(acc@.push(fv)) =~= fields_model(acc@).push(fv@));
                }
                acc.push(fv);
                cur = j;
                k = k + 1;
            },
            Err(e) => {
                return Err(e);
            },
        }
    }
    proof {
        assert(fields_model(acc@) + Seq::<FieldModel>::empty() =~= fields_model(acc@));
    }
    Ok((acc, cur))
}

/// Decodes a whole byte sequence as one record.
///
/// Succeeds exactly when the bytes are a record's wire image with nothing
/// left over, and fails with `ParsingFailed` otherwise.
pub fn decode_payload(b: &[u8]) -> (r: Result<Record, SerdeFlowError>)
    ensures
        match dec_payload(b@) {
            Some(m) => r matches Ok(rec) && rec@ == m,
            None => r matches Err(e) && e == SerdeFlowError::ParsingFailed,
        },
{
    let (n, j) = match read_u32(b, 0) {
        Ok(p) => p,
        Err(e) => {
            return Err(e);
        },
    };
    let (fields, j2) = match read_fields(b, j, n) {
        Ok(p) => p,
        Err(e) => {
            return Err(e);
        },
    };
    if j2 != b.len() {
        return Err(SerdeFlowError::ParsingFailed);
    }
    Ok(Record { fields })
}

// ---------------------------------------------------------------------------
// Decoding inverts encoding: reading an encoded value back out of any byte
// sequence that carries it yields the value itself.
// ---------------------------------------------------------------------------
proof fn lemma_split_at(b: Seq<u8>, i: int, x: Seq<u8>, y: Seq<u8>)
    requires
        0 <= i,
        i + x.len() + y.len() <= b.len(),
        b.subrange(i, i + x.len() + y.len()) == x + y,
    ensures
        b.subrange(i, i + x.len()) == x,
        b.subrange(i + x.len(), i + x.len() + y.len()) == y,
{
    let whole = b.subrange(i, i + x.len() + y.len());
    assert forall|k: int| 0 <= k < x.len() implies b.subrange(i, i + x.len() as int)[k] == x[k] by {
        assert(whole[k] == (x + y)[k]);
    }
    assert(b.subrange(i, i + x.len()) =~= x);
    assert forall|k: int|
        0 <= k < y.len() implies b.subrange(i + x.len(), i + x.len() + y.len())[k] == y[k] by {
        assert(whole[x.len() + k] == (x + y)[x.len() + k]);
    }
    assert(b.subrange(i + x.len(), i + x.len() + y.len()) =~= y);
}

proof fn lemma_read_back_u16(b: Seq<u8>, i: int, x: u16)
    requires
        0 <= i,
        i + enc_u16(x).len() <= b.len(),
        b.subrange(i, i + enc_u16(x).len()) == enc_u16(x),
    ensures
        enc_u16(x).len() == 2,
        dec_u16(b, i) == Some((x, i + 2)),
{
    lemma_auto_spec_u16_to_from_le_bytes();
}

proof fn lemma_read_back_u32(b: Seq<u8>, i: int, x: u32)
    requires
        0 <= i,
        i + enc_u32(x).len() <= b.len(),
        b.subrange(i, i + enc_u32(x).len()) == enc_u32(x),
    ensures
        enc_u32(x).len() == 4,
        dec_u32(b, i) == Some((x, i + 4)),
{
    lemma_auto_spec_u32_to_from_le_bytes();
}

proof fn lemma_read_back_text(b: Seq<u8>, i: int, s: Seq<char>)
    requires
        text_ok(s),
        0 <= i,
        i + enc_text(s).len() <= b.len(),
        b.subrange(i, i + enc_text(s).len()) == enc_text(s),
    ensures
        dec_text(b, i) == Some((s, i + enc_text(s).len())),
{
    let u = encode_utf8(s);
    let n = u.len() as u32;
    lemma_auto_spec_u32_to_from_le_bytes();
    lemma_split_at(b, i, enc_u32(n), u);
    lemma_read_back_u32(b, i, n);
    assert(b.subrange(i + 4, i + 4 + u.len()) == u);
    encode_utf8_valid_utf8(s);
    encode_utf8_decode_utf8(s);
}

proof fn lemma_read_back_scalar(b: Seq<u8>, i: int, f: ScalarModel)
    requires
        scalar_ok(f),
        0 <= i,
        i + enc_scalar(f).len() <= b.len(),
        b.subrange(i, i + enc_scalar(f).len()) == enc_scalar(f),
    ensures
        dec_scalar(b, i) == Some((f, i + enc_scalar(f).len())),
{
    match f {
        ScalarModel::Text(s) => {
            lemma_split_at(b, i, seq![KIND_TEXT], enc_text(s));
            assert(b[i] == b.subrange(i, i + 1)[0]);
            lemma_read_back_text(b, i + 1, s);
        },
        ScalarModel::U16(x) => {
            lemma_split_at(b, i, seq![KIND_U16], enc_u16(x));
            assert(b[i] == b.subrange(i, i + 1)[0]);
            lemma_read_back_u16(b, i + 1, x);
        },
        ScalarModel::U32(x) => {
            lemma_split_at(b, i, seq![KIND_U32], enc_u32(x));
            assert(b[i] == b.subrange(i, i + 1)[0]);
            lemma_read_back_u32(b, i + 1, x);
        },
    }
}

proof fn lemma_read_back_scalars(b: Seq<u8>, i: int, v: Seq<ScalarModel>)
    requires
        forall|k: int| 0 <= k < v.len() ==> scalar_ok(#[trigger] v[k]),
        0 <= i,
        i + enc_scalars(v).len() <= b.len(),
        b.subrange(i, i + enc_scalars(v).len()) == enc_scalars(v),
    ensures
        dec_scalars(b, i, v.len()) == Some((v, i + enc_scalars(v).len())),
    decreases v.len(),
{
    if v.len() == 0 {
        assert(v =~= Seq::<ScalarModel>::empty());
    } else {
        let head = enc_scalar(v[0]);
        let tail = enc_scalars(v.drop_first());
        lemma_split_at(b, i, head, tail);
        lemma_read_back_scalar(b, i, v[0]);
        lemma_read_back_scalars(b, i + head.len(), v.drop_first());
        assert(seq![v[0]] + v.drop_first() =~= v);
    }
}

proof fn lemma_read_back_entry(b: Seq<u8>, i: int, e: EntryModel)
    requires
        entry_ok(e),
        0 <= i,
        i + enc_entry(e).len() <= b.len(),
        b.subrange(i, i + enc_entry(e).len()) == enc_entry(e),
    ensures
        dec_entry(b, i) == Some((e, i + enc_entry(e).len())),
{
    let kt = enc_text(e.key);
    let cnt = enc_u32(e.value.len() as u32);
    let sc = enc_scalars(e.value);
    assert(enc_entry(e) == kt + cnt + sc);
    assert(kt + cnt + sc =~= kt + (cnt + sc));
    lemma_split_at(b, i, kt, cnt + sc);
    lemma_read_back_text(b, i, e.key);
    lemma_split_at(b, i + kt.len(), cnt, sc);
    lemma_read_back_u32(b, i + kt.len(), e.value.len() as u32);
    lemma_read_back_scalars(b, i + kt.len() + 4, e.value);
}

proof fn lemma_read_back_entries(b: Seq<u8>, i: int, v: Seq<EntryModel>)
    requires
        forall|k: int| 0 <= k < v.len() ==> entry_ok(#[trigger] v[k]),
        0 <= i,
        i + enc_entries(v).len() <= b.len(),
        b.subrange(i, i + enc_entries(v).len()) == enc_entries(v),
    ensures
        dec_entries(b, i, v.len()) == Some((v, i + enc_entries(v).len())),
    decreases v.len(),
{
    if v.len() == 0 {
        assert(v =~= Seq::<EntryModel>::empty());
    } else {
        let head = enc_entry(v[0]);
        let tail = enc_entries(v.drop_first());
        lemma_split_at(b, i, head, tail);
        lemma_read_back_entry(b, i, v[0]);
        lemma_read_back_entries(b, i + head.len(), v.drop_first());
        assert(seq![v[0]] + v.drop_first() =~= v);
    }
}

proof fn lemma_read_back_field(b: Seq<u8>, i: int, f: FieldModel)
    requires
        field_ok(f),
        0 <= i,
        i + enc_field(f).len() <= b.len(),
        b.subrange(i, i + enc_field(f).len()) == enc_field(f),
    ensures
        dec_field(b, i) == Some((f, i + enc_field(f).len())),
{
    match f {
        FieldModel::Text(s) => {
            lemma_split_at(b, i, seq![KIND_TEXT], enc_text(s));
            assert(b[i] == b.subrange(i, i + 1)[0]);
            lemma_read_back_text(b, i + 1, s);
        },
        FieldModel::U16(x) => {
            lemma_split_at(b, i, seq![KIND_U16], enc_u16(x));
            assert(b[i] == b.subrange(i, i + 1)[0]);
            lemma_read_back_u16(b, i + 1, x);
        },
        FieldModel::U32(x) => {
            lemma_split_at(b, i, seq![KIND_U32], enc_u32(x));
            assert(b[i] == b.subrange(i, i + 1)[0]);
            lemma_read_back_u32(b, i + 1, x);
        },
        FieldModel::Dict(es) => {
            let cnt = enc_u32(es.len() as u32);
            let body = enc_entries(es);
            assert(enc_field(f) == seq![KIND_DICT] + cnt + body);
            assert(seq![KIND_DICT] + cnt + body =~= seq![KIND_DICT] + (cnt + body));
            lemma_split_at(b, i, seq![KIND_DICT], cnt + body);
            assert(b[i] == b.subrange(i, i + 1)[0]);
            lemma_split_at(b, i + 1, cnt, body);
            lemma_read_back_u32(b, i + 1, es.len() as u32);
            lemma_read_back_entries(b, i + 5, es);
        },
    }
}

proof fn lemma_read_back_fields(b: Seq<u8>, i: int, v: Seq<FieldModel>)
    requires
        fields_all_ok(v),
        0 <= i,
        i + enc_fields(v).len() <= b.len(),
        b.subrange(i, i + enc_fields(v).len()) == enc_fields(v),
    ensures
        dec_fields(b, i, v.len()) == Some((v, i + enc_fields(v).len())),
    decreases v.len(),
{
    if v.len() == 0 {
        assert(v =~= Seq::<FieldModel>::empty());
    } else {
        let head = enc_field(v[0]);
        let tail = enc_fields(v.drop_first());
        lemma_split_at(b, i, head, tail);
        lemma_read_back_field(b, i, v[0]);
        lemma_read_back_fields(b, i + head.len(), v.drop_first());
        assert(seq![v[0]] + v.drop_first() =~= v);
    }
}

/// Round trip of the wire format: the wire image of any representable record
/// decodes back to exactly that record.
pub proof fn lemma_codec_round_trip(fs: Seq<FieldModel>)
    requires
        record_ok(fs),
    ensures
        dec_payload(enc_record(fs)) == Some(fs),
{
    let b = enc_record(fs);
    let cnt = enc_u32(fs.len() as u32);
    let body = enc_fields(fs);
    assert(b.subrange(0, b.len() as int) =~= b);
    lemma_split_at(b, 0, cnt, body);
    lemma_read_back_u32(b, 0, fs.len() as u32);
    lemma_read_back_fields(b, 4, fs);
}

// ---------------------------------------------------------------------------
// The format is canonical: any byte range that decodes is exactly the
// encoding of what it decodes to. This is what lets a field be mutated in
// place: the surrounding bytes are known to be the encodings of the
// surrounding fields.
// ---------------------------------------------------------------------------
proof fn lemma_enc_of_dec_u16(b: Seq<u8>, i: int)
    ensures
        dec_u16(b, i) matches Some(p) ==> (0 <= i && p.1 == i + 2 && p.1 <= b.len() && enc_u16(
            p.0,
        ) == b.subrange(i, p.1)),
{
    lemma_auto_spec_u16_to_from_le_bytes();
}

proof fn lemma_enc_of_dec_u32(b: Seq<u8>, i: int)
    ensures
        dec_u32(b, i) matches Some(p) ==> (0 <= i && p.1 == i + 4 && p.1 <= b.len() && enc_u32(
            p.0,
        ) == b.subrange(i, p.1)),
{
    lemma_auto_spec_u32_to_from_le_bytes();
}

proof fn lemma_enc_of_dec_text(b: Seq<u8>, i: int)
    ensures
        dec_text(b, i) matches Some(p) ==> (0 <= i && i + 4 <= p.1 <= b.len() && text_ok(p.0)
            && enc_text(p.0) == b.subrange(i, p.1)),
{
    match dec_text(b, i) {
        Some((s, j)) => {
            lemma_auto_spec_u32_to_from_le_bytes();
            let chunk = b.subrange(i + 4, j);
            decode_utf8_encode_utf8(chunk);
            assert(encode_utf8(s) == chunk);
            assert(enc_u32(chunk.len() as u32) == b.subrange(i, i + 4));
            assert(enc_text(s) =~= b.subrange(i, j));
        },
        None => {},
    }
}

proof fn lemma_enc_of_dec_scalar(b: Seq<u8>, i: int)
    ensures
        dec_scalar(b, i) matches Some(p) ==> (0 <= i && i < p.1 <= b.len() && scalar_ok(p.0)
            && enc_scalar(p.0) == b.subrange(i, p.1)),
{
    match dec_scalar(b, i) {
        Some((f, j)) => {
            if b[i] == KIND_TEXT {
                lemma_enc_of_dec_text(b, i + 1);
                assert(enc_scalar(f) =~= b.subrange(i, j));
            } else if b[i] == KIND_U16 {
                lemma_enc_of_dec_u16(b, i + 1);
                assert(enc_scalar(f) =~= b.subrange(i, j));
            } else {
                lemma_enc_of_dec_u32(b, i + 1);
                assert(enc_scalar(f) =~= b.subrange(i, j));
            }
        },
        None => {},
    }
}

proof fn lemma_enc_of_dec_scalars(b: Seq<u8>, i: int, n: nat)
    requires
        0 <= i <= b.len(),
    ensures
        dec_scalars(b, i, n) matches Some(p) ==> (i <= p.1 <= b.len() && p.0.len() == n && (forall|
            k: int,
        | 0 <= k < p.0.len() ==> scalar_ok(#[trigger] p.0[k])) && enc_scalars(p.0) == b.subrange(
            i,
            p.1,
        )),
    decreases n,
{
    if n == 0 {
        assert(b.subrange(i, i) =~= enc_scalars(Seq::<ScalarModel>::empty()));
    } else {
        match dec_scalar(b, i) {
            Some((f, j)) => {
                lemma_enc_of_dec_scalar(b, i);
                lemma_enc_of_dec_scalars(b, j, (n - 1) as nat);
                match dec_scalars(b, j, (n - 1) as nat) {
                    Some((rest, k)) => {
                        let whole = seq![f] + rest;
                        assert(whole[0] == f);
                        assert(whole.drop_first() =~= rest);
                        assert(enc_scalars(whole) == enc_scalar(f) + enc_scalars(rest));
                        assert(enc_scalars(whole) =~= b.subrange(i, k));
                    },
                    None => {},
                }
            },
            None => {},
        }
    }
}

proof fn lemma_enc_of_dec_entry(b: Seq<u8>, i: int)
    ensures
        dec_entry(b, i) matches Some(p) ==> (0 <= i && i <= p.1 <= b.len() && entry_ok(p.0)
            && enc_entry(p.0) == b.subrange(i, p.1)),
{
    match dec_entry(b, i) {
        Some((e, end)) => {
            lemma_enc_of_dec_text(b, i);
            match dec_text(b, i) {
                Some((_key, j)) => {
                    lemma_enc_of_dec_u32(b, j);
                    match dec_u32(b, j) {
                        Some((n, j2)) => {
                            lemma_enc_of_dec_scalars(b, j2, n as nat);
                            assert(enc_u32(e.value.len() as u32) == b.subrange(j, j2));
                            assert(enc_entry(e) =~= b.subrange(i, end));
                        },
                        None => {},
                    }
                },
                None => {},
            }
        },
        None => {},
    }
}

proof fn lemma_enc_of_dec_entries(b: Seq<u8>, i: int, n: nat)
    requires
        0 <= i <= b.len(),
    ensures
        dec_entries(b, i, n) matches Some(p) ==> (i <= p.1 <= b.len() && p.0.len() == n && (forall|
            k: int,
        | 0 <= k < p.0.len() ==> entry_ok(#[trigger] p.0[k])) && enc_entries(p.0) == b.subrange(
            i,
            p.1,
        )),
    decreases n,
{
    if n == 0 {
        assert(b.subrange(i, i) =~= enc_entries(Seq::<EntryModel>::empty()));
    } else {
        match dec_entry(b, i) {
            Some((e, j)) => {
                lemma_enc_of_dec_entry(b, i);
                lemma_enc_of_dec_entries(b, j, (n - 1) as nat);
                match dec_entries(b, j, (n - 1) as nat) {
                    Some((rest, k)) => {
                        let whole = seq![e] + rest;
                        assert(whole[0] == e);
                        assert(whole.drop_first() =~= rest);
                        assert(enc_entries(whole) == enc_entry(e) + enc_entries(rest));
                        assert(enc_entries(whole) =~= b.subrange(i, k));
                    },
                    None => {},
                }
            },
            None => {},
        }
    }
}

pub(crate) proof fn lemma_enc_of_dec_field(b: Seq<u8>, i: int)
    ensures
        dec_field(b, i) matches Some(p) ==> (0 <= i && i < p.1 <= b.len() && field_ok(p.0)
            && enc_field(p.0) == b.subrange(i, p.1)),
{
    match dec_field(b, i) {
        Some((f, j)) => {
            if b[i] == KIND_TEXT {
                lemma_enc_of_dec_text(b, i + 1);
                assert(enc_field(f) =~= b.subrange(i, j));
            } else if b[i] == KIND_U16 {
                lemma_enc_of_dec_u16(b, i + 1);
                assert(enc_field(f) =~= b.subrange(i, j));
            } else if b[i] == KIND_U32 {
                lemma_enc_of_dec_u32(b, i + 1);
                assert(enc_field(f) =~= b.subrange(i, j));
            } else {
                lemma_enc_of_dec_u32(b, i + 1);
                match dec_u32(b, i + 1) {
                    Some((n, j2)) => {
                        lemma_enc_of_dec_entries(b, j2, n as nat);
                        match dec_entries(b, j2, n as nat) {
                            Some((es, _end)) => {
                                assert(enc_u32(es.len() as u32) == b.subrange(i + 1, j2));
                                assert(enc_field(f) =~= b.subrange(i, j));
                            },
                            None => {},
                        }
                    },
                    None => {},
                }
            }
        },
        None => {},
    }
}

pub(crate) proof fn lemma_enc_of_dec_fields(b: Seq<u8>, i: int, n: nat)
    requires
        0 <= i <= b.len(),
    ensures
        dec_fields(b, i, n) matches Some(p) ==> (i <= p.1 <= b.len() && p.0.len() == n
            && fields_all_ok(p.0) && enc_fields(p.0) == b.subrange(i, p.1)),
    decreases n,
{
    if n == 0 {
        assert(b.subrange(i, i) =~= enc_fields(Seq::<FieldModel>::empty()));
    } else {
        match dec_field(b, i) {
            Some((f, j)) => {
                lemma_enc_of_dec_field(b, i);
                lemma_enc_of_dec_fields(b, j, (n - 1) as nat);
                match dec_fields(b, j, (n - 1) as nat) {
                    Some((rest, k)) => {
                        let whole = seq![f] + rest;
                        assert(whole[0] == f);
                        assert(whole.drop_first() =~= rest);
                        assert(enc_fields(whole) == enc_field(f) + enc_fields(rest));
                        assert(enc_fields(whole) =~= b.subrange(i, k));
                    },
                    None => {},
                }
            },
            None => {},
        }
    }
}

/// The wire format is canonical: a whole byte sequence that decodes at all
/// is exactly the encoding of the record it decodes to, and that record is
/// representable.
pub proof fn lemma_canonical_bytes(b: Seq<u8>)
    ensures
        dec_payload(b) matches Some(m) ==> (record_ok(m) && enc_record(m) == b),
{
    match dec_record(b, 0) {
        Some((m, j)) => {
            if j == b.len() {
                lemma_enc_of_dec_u32(b, 0);
                match dec_u32(b, 0) {
                    Some((n, j0)) => {
                        lemma_enc_of_dec_fields(b, j0, n as nat);
                        assert(enc_u32(m.len() as u32) == b.subrange(0, 4));
                        assert(enc_record(m) =~= b);
                    },
                    None => {},
                }
            }
        },
        None => {},
    }
}

/// The fields' encoding splits at any position.
pub(crate) proof fn lemma_enc_fields_split(v: Seq<FieldModel>, k: int)
    requires
        0 <= k <= v.len(),
    ensures
        enc_fields(v) == enc_fields(v.take(k)) + enc_fields(v.skip(k)),
    decreases k,
{
    if k == 0 {
        assert(v.take(0) =~= Seq::<FieldModel>::empty());
        assert(v.skip(0) =~= v);
        assert(enc_fields(v) =~= enc_fields(v.take(0)) + enc_fields(v.skip(0)));
    } else {
        lemma_enc_fields_split(v.drop_first(), k - 1);
        assert(v.drop_first().take(k - 1) =~= v.take(k).drop_first());
        assert(v.drop_first().skip(k - 1) =~= v.skip(k));
        assert(v.take(k)[0] == v[0]);
        assert(enc_fields(v.take(k)) == enc_field(v[0]) + enc_fields(v.take(k).drop_first()));
        assert(enc_fields(v) =~= enc_fields(v.take(k)) + enc_fields(v.skip(k)));
    }
}

} // verus!
