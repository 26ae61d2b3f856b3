//! The zero-copy archive: validated, cached views over raw record bytes,
//! and the prefixed-archive record flow built on them.
//!
//! In the prefixed layout the schema tag is a fixed two-byte little-endian
//! prefix and the archive bytes follow untouched, so the payload stays
//! byte-identical to what the reader validates. A [`Reader`] owns its bytes,
//! validates them lazily on the first `archive` call, and caches the view
//! for its lifetime; nothing invalidates it but dropping the handle.

use vstd::prelude::*;
use vstd::bytes::{spec_u16_to_le_bytes, spec_u16_from_le_bytes, spec_u32_to_le_bytes,
    u16_to_le_bytes, u16_from_le_bytes, u32_to_le_bytes, lemma_auto_spec_u16_to_from_le_bytes,
    lemma_auto_spec_u32_to_from_le_bytes};
use vstd::slice::{slice_subrange, slice_to_vec};
use crate::codec::{record_ok, enc_record, enc_fields, enc_field, enc_u16, enc_u32, dec_payload,
    dec_fields, dec_field, encode_payload, decode_payload, read_u32, read_field,
    lemma_canonical_bytes, lemma_codec_round_trip, lemma_enc_of_dec_fields, lemma_enc_of_dec_field,
    lemma_enc_fields_snoc, lemma_enc_fields_split, field_ok, KIND_U16, KIND_U32};
use crate::error::SerdeFlowError;
use crate::flow::{MigrationRegistry, Resolution, resolve, converts_all};
use crate::record::{Record, FieldValue, FieldModel, fields_model, copy_record};

verus! {

/// The zero-copy serializer: a record's archive bytes, with no tag.
pub struct Encoder;

impl Encoder {
    /// Serializes the record into the bytes that a [`Reader`] validates in
    /// place. Fails with `EncodingFailed` exactly when some length of the
    /// value exceeds the format's 32-bit counts.
    pub fn serialize(value: &Record) -> (r: Result<Vec<u8>, SerdeFlowError>)
        ensures
            record_ok(value@) ==> (r matches Ok(b) && b@ == enc_record(value@)),
            !record_ok(value@) ==> r == Err::<Vec<u8>, SerdeFlowError>(
                SerdeFlowError::EncodingFailed,
            ),
    {
        encode_payload(value)
    }
}

/// An owned region of archive bytes with a lazily computed, cached view.
pub struct Reader {
    bytes: Vec<u8>,
    archived: Option<Record>,
}

impl Reader {
    /// The bytes the handle owns.
    pub closed spec fn spec_bytes(&self) -> Seq<u8> {
        self.bytes@
    }

    /// The cached view, once the bytes were validated.
    pub closed spec fn spec_archived(&self) -> Option<Record> {
        self.archived
    }

    /// Whatever is cached is exactly what the bytes mean.
    pub open spec fn wf(&self) -> bool {
        match self.spec_archived() {
            Some(rec) => dec_payload(self.spec_bytes()) == Some(rec@),
            None => true,
        }
    }

    /// Takes ownership of archive bytes, not yet validated.
    pub fn new(bytes: Vec<u8>) -> (r: Reader)
        ensures
            r.spec_bytes() == bytes@,
            r.spec_archived() is None,
            r.wf(),
    {
        Reader { bytes, archived: None }
    }

    /// Validates the bytes on first call and returns the typed view over
    /// them; bytes that are no record fail with `ParsingFailed`. A second
    /// call returns the cached view, with nothing recomputed and the handle
    /// unchanged.
    pub fn archive(&mut self) -> (r: Result<&Record, SerdeFlowError>)
        requires
            old(self).wf(),
        ensures
            final(self).wf(),
            final(self).spec_bytes() == old(self).spec_bytes(),
            match dec_payload(old(self).spec_bytes()) {
                Some(m) => r matches Ok(rec) && rec@ == m && (final(self).spec_archived()
                    matches Some(c) && c@ == m),
                None => r matches Err(e) && e == SerdeFlowError::ParsingFailed
                    && final(self).spec_archived() is None,
            },
            old(self).spec_archived() matches Some(c0) ==> (r matches Ok(rec) && *rec == c0
                && *final(self) == *old(self)),
    {
        if self.archived.is_none() {
            match decode_payload(self.bytes.as_slice()) {
                Ok(rec) => {
                    self.archived = Some(rec);
                },
                Err(e) => {
                    return Err(e);
                },
            }
        }
        match self.archived.as_ref() {
            Some(rec) => Ok(rec),
            None => {
                proof {
                    assert(false);
                }
                Err(SerdeFlowError::Undefined)
            },
        }
    }

    /// Copies the archived data out into an owned record, independent of
    /// the backing bytes.
    pub fn deserialize(&mut self) -> (r: Result<Record, SerdeFlowError>)
        requires
            old(self).wf(),
        ensures
            final(self).wf(),
            final(self).spec_bytes() == old(self).spec_bytes(),
            match dec_payload(old(self).spec_bytes()) {
                Some(m) => r matches Ok(rec) && rec@ == m,
                None => r matches Err(e) && e == SerdeFlowError::ParsingFailed,
            },
    {
        let rec = match self.archive() {
            Ok(rec) => rec,
            Err(e) => {
                return Err(e);
            },
        };
        Ok(copy_record(rec))
    }

    /// Mutates one 16-bit field of the archive in place, through the
    /// validated view: only the field's two payload bytes change, never the
    /// structure, so the region stays valid and the cached view stays
    /// current with no re-validation. The handle is the exclusive owner of
    /// its region, which is what makes the in-place write sound to offer.
    ///
    /// Bytes that are no record fail with `ParsingFailed`; a position that
    /// does not name an existing 16-bit field is refused with
    /// `FormatInvalid`, since writing there would change the layout.
    pub fn set_u16(&mut self, idx: usize, value: u16) -> (r: Result<(), SerdeFlowError>)
        requires
            old(self).wf(),
        ensures
            final(self).wf(),
            match dec_payload(old(self).spec_bytes()) {
                Some(m) => {
                    if idx < m.len() && m[idx as int] is U16 {
                        &&& r == Ok::<(), SerdeFlowError>(())
                        &&& final(self).spec_bytes() == enc_record(
                            m.update(idx as int, FieldModel::U16(value)),
                        )
                        &&& dec_payload(final(self).spec_bytes()) == Some(
                            m.update(idx as int, FieldModel::U16(value)),
                        )
                        &&& (final(self).spec_archived() matches Some(c) && c@ == m.update(
                            idx as int,
                            FieldModel::U16(value),
                        ))
                    } else {
                        &&& r == Err::<(), SerdeFlowError>(SerdeFlowError::FormatInvalid)
                        &&& final(self).spec_bytes() == old(self).spec_bytes()
                        &&& (final(self).spec_archived() matches Some(c) && c@ == m)
                    }
                },
                None => {
                    &&& r == Err::<(), SerdeFlowError>(SerdeFlowError::ParsingFailed)
                    &&& final(self).spec_bytes() == old(self).spec_bytes()
                    &&& final(self).spec_archived() is None
                },
            },
    {
        match self.archive() {
            Ok(_) => {},
            Err(e) => {
                return Err(e);
            },
        }
        let ghost b = self.bytes@;
        let ghost m = (match dec_payload(b) {
            Some(m0) => m0,
            None => Seq::<FieldModel>::empty(),
        });
        proof {
            assert(dec_payload(b) == Some(m));
            lemma_canonical_bytes(b);
        }
        let ok_target: bool = match self.archived.as_ref() {
            Some(rec) => {
                if idx < rec.fields.len() {
                    proof {
                        assert(rec.fields@[idx as int]@ == m[idx as int]);
                    }
                    matches!(vstd::std_specs::vec::vec_index(&rec.fields, idx), FieldValue::U16(_))
                } else {
                    false
                }
            },
            None => false,
        };
        if !ok_target {
            return Err(SerdeFlowError::FormatInvalid);
        }
        let cur = field_offset(self.bytes.as_slice(), idx);
        let ghost x0 = (match m[idx as int] {
            FieldModel::U16(x) => x,
            _ => 0u16,
        });
        proof {
            assert(enc_field(m[idx as int]) == seq![KIND_U16] + enc_u16(x0));
            lemma_auto_spec_u16_to_from_le_bytes();
            assert(cur as int + 3 <= self.bytes@.len());
        }
        let blen = self.bytes.len();
        proof {
            assert(cur + 3 <= blen);
        }
        let pair = u16_to_le_bytes(value);
        let lo = *vstd::std_specs::vec::vec_index(&pair, 0);
        let hi = *vstd::std_specs::vec::vec_index(&pair, 1);
        {
            let slot = vstd::std_specs::vec::vec_index_mut(&mut self.bytes, cur + 1);
            *slot = lo;
        }
        {
            let slot = vstd::std_specs::vec::vec_index_mut(&mut self.bytes, cur + 2);
            *slot = hi;
        }
        let ghost m2 = m.update(idx as int, FieldModel::U16(value));
        proof {
            lemma_set_u16_splice(b, m, idx as int, cur as int, value, x0);
            assert(self.bytes@ == b.update(cur as int + 1, lo).update(cur as int + 2, hi));
            assert(self.bytes@ == enc_record(m2));
            lemma_codec_round_trip(m2);
        }
        let mut taken: Option<Record> = None;
        core::mem::swap(&mut self.archived, &mut taken);
        match taken {
            Some(mut rec) => {
                proof {
                    assert(fields_model(rec.fields@) == m);
                    assert(rec.fields@.len() == m.len());
                }
                {
                    let slot = vstd::std_specs::vec::vec_index_mut(&mut rec.fields, idx);
                    *slot = FieldValue::U16(value);
                }
                proof {
                    assert(fields_model(rec.fields@) =~= m2);
                }
                self.archived = Some(rec);
            },
            None => {
                proof {
                    assert(false);
                }
            },
        }
        Ok(())
    }

    /// Mutates one 32-bit field of the archive in place, exactly as
    /// [`Self::set_u16`] does for 16-bit fields: four payload bytes change
    /// and nothing else, so the region and the cached view stay valid with
    /// no re-validation.
    pub fn set_u32(&mut self, idx: usize, value: u32) -> (r: Result<(), SerdeFlowError>)
        requires
            old(self).wf(),
        ensures
            final(self).wf(),
            match dec_payload(old(self).spec_bytes()) {
                Some(m) => {
                    if idx < m.len() && m[idx as int] is U32 {
                        &&& r == Ok::<(), SerdeFlowError>(())
                        &&& final(self).spec_bytes() == enc_record(
                            m.update(idx as int, FieldModel::U32(value)),
                        )
                        &&& dec_payload(final(self).spec_bytes()) == Some(
                            m.update(idx as int, FieldModel::U32(value)),
                        )
                        &&& (final(self).spec_archived() matches Some(c) && c@ == m.update(
                            idx as int,
                            FieldModel::U32(value),
                        ))
                    } else {
                        &&& r == Err::<(), SerdeFlowError>(SerdeFlowError::FormatInvalid)
                        &&& final(self).spec_bytes() == old(self).spec_bytes()
                        &&& (final(self).spec_archived() matches Some(c) && c@ == m)
                    }
                },
                None => {
                    &&& r == Err::<(), SerdeFlowError>(SerdeFlowError::ParsingFailed)
                    &&& final(self).spec_bytes() == old(self).spec_bytes()
                    &&& final(self).spec_archived() is None
                },
            },
    {
        match self.archive() {
            Ok(_) => {},
            Err(e) => {
                return Err(e);
            },
        }
        let ghost b = self.bytes@;
        let ghost m = (match dec_payload(b) {
            Some(m0) => m0,
            None => Seq::<FieldModel>::empty(),
        });
        proof {
            assert(dec_payload(b) == Some(m));
            lemma_canonical_bytes(b);
        }
        let ok_target: bool = match self.archived.as_ref() {
            Some(rec) => {
                if idx < rec.fields.len() {
                    proof {
                        assert(rec.fields@[idx as int]@ == m[idx as int]);
                    }
                    matches!(vstd::std_specs::vec::vec_index(&rec.fields, idx), FieldValue::U32(_))
                } else {
                    false
                }
            },
            None => false,
        };
        if !ok_target {
            return Err(SerdeFlowError::FormatInvalid);
        }
        let cur = field_offset(self.bytes.as_slice(), idx);
        let ghost x0 = (match m[idx as int] {
            FieldModel::U32(x) => x,
            _ => 0u32,
        });
        proof {
            assert(enc_field(m[idx as int]) == seq![KIND_U32] + enc_u32(x0));
            lemma_auto_spec_u32_to_from_le_bytes();
            assert(cur as int + 5 <= self.bytes@.len());
        }
        let blen = self.bytes.len();
        proof {
            assert(cur + 5 <= blen);
        }
        let quad = u32_to_le_bytes(value);
        let ghost cached = self.archived;
        let mut t: usize = 0;
        while t < 4
            invariant
                self.archived == cached,
                t <= 4,
                quad@ == spec_u32_to_le_bytes(value),
                quad@.len() == 4,
                cur + 5 <= self.bytes@.len(),
                self.bytes@.len() == b.len(),
                blen == b.len(),
                self.bytes@ == update_run(b, cur as int + 1, quad@, t as int),
            decreases 4 - t,
        {
            let byte = *vstd::std_specs::vec::vec_index(&quad, t);
            proof {
                assert(update_run(b, cur as int + 1, quad@, t + 1) =~= update_run(
                    b,
                    cur as int + 1,
                    quad@,
                    t as int,
                ).update(cur as int + 1 + t, quad@[t as int]));
            }
            let slot = vstd::std_specs::vec::vec_index_mut(&mut self.bytes, cur + 1 + t);
            *slot = byte;
            t = t + 1;
        }
        let ghost m2 = m.update(idx as int, FieldModel::U32(value));
        proof {
            assert(self.bytes@ == update_run(b, cur as int + 1, quad@, 4));
            lemma_set_u32_splice(b, m, idx as int, cur as int, value, x0);
            assert(self.bytes@ == enc_record(m2));
            lemma_codec_round_trip(m2);
        }
        let mut taken: Option<Record> = None;
        core::mem::swap(&mut self.archived, &mut taken);
        match taken {
            Some(mut rec) => {
                proof {
                    assert(fields_model(rec.fields@) == m);
                    assert(rec.fields@.len() == m.len());
                }
                {
                    let slot = vstd::std_specs::vec::vec_index_mut(&mut rec.fields, idx);
                    *slot = FieldValue::U32(value);
                }
                proof {
                    assert(fields_model(rec.fields@) =~= m2);
                }
                self.archived = Some(rec);
            },
            None => {
                proof {
                    assert(false);
                }
            },
        }
        Ok(())
    }
}

/// The bytes with the first `t` elements of `patch` written from position
/// `at` on.
spec fn update_run(b: Seq<u8>, at: int, patch: Seq<u8>, t: int) -> Seq<u8>
    decreases t,
{
    if t <= 0 {
        b
    } else {
        update_run(b, at, patch, t - 1).update(at + t - 1, patch[t - 1])
    }
}

/// Replacing the four payload bytes of a 32-bit field turns the record's
/// wire image into the wire image of the updated record.
proof fn lemma_set_u32_splice(
    b: Seq<u8>,
    m: Seq<FieldModel>,
    idx: int,
    cur: int,
    value: u32,
    x0: u32,
)
    requires
        b == enc_record(m),
        record_ok(m),
        0 <= idx < m.len(),
        m[idx] == FieldModel::U32(x0),
        cur == 4 + enc_fields(m.take(idx)).len(),
        cur + 5 <= b.len(),
    ensures
        record_ok(m.update(idx, FieldModel::U32(value))),
        update_run(b, cur + 1, spec_u32_to_le_bytes(value), 4) == enc_record(
            m.update(idx, FieldModel::U32(value)),
        ),
{
    let m2 = m.update(idx, FieldModel::U32(value));
    lemma_auto_spec_u32_to_from_le_bytes();
    assert forall|t: int| 0 <= t < m2.len() implies field_ok(#[trigger] m2[t]) by {
        if t != idx {
            assert(m2[t] == m[t]);
        }
    }
    assert(record_ok(m2));
    lemma_enc_fields_split(m, idx);
    lemma_enc_fields_split(m2, idx);
    assert(m2.take(idx) =~= m.take(idx));
    assert(m.skip(idx)[0] == m[idx]);
    assert(m2.skip(idx)[0] == FieldModel::U32(value));
    assert(m2.skip(idx).drop_first() =~= m.skip(idx).drop_first());
    assert(enc_fields(m.skip(idx)) == enc_field(m[idx]) + enc_fields(m.skip(idx).drop_first()));
    assert(enc_fields(m2.skip(idx)) == enc_field(FieldModel::U32(value)) + enc_fields(
        m2.skip(idx).drop_first(),
    ));
    let pre = enc_u32(m.len() as u32) + enc_fields(m.take(idx)) + seq![KIND_U32];
    let suf = enc_fields(m.skip(idx).drop_first());
    assert(enc_field(m[idx]) == seq![KIND_U32] + enc_u32(x0));
    assert(enc_field(FieldModel::U32(value)) == seq![KIND_U32] + enc_u32(value));
    assert(b =~= pre + enc_u32(x0) + suf);
    assert(pre.len() == cur + 1);
    assert(enc_record(m2) =~= pre + enc_u32(value) + suf);
    let patched = update_run(b, cur + 1, spec_u32_to_le_bytes(value), 4);
    lemma_update_run_index(b, cur + 1, spec_u32_to_le_bytes(value), 4, cur + 1);
    assert(patched.len() == b.len());
    assert forall|pos: int| 0 <= pos < patched.len() implies patched[pos] == (pre + enc_u32(value)
        + suf)[pos] by {
        lemma_update_run_index(b, cur + 1, spec_u32_to_le_bytes(value), 4, pos);
    }
    assert(patched =~= pre + enc_u32(value) + suf);
}

/// What one position of a patched byte sequence holds: the patch inside its
/// window, the original bytes outside it.
proof fn lemma_update_run_index(b: Seq<u8>, at: int, patch: Seq<u8>, t: int, pos: int)
    requires
        0 <= t <= patch.len(),
        0 <= at,
        at + patch.len() <= b.len(),
        0 <= pos < b.len(),
    ensures
        update_run(b, at, patch, t).len() == b.len(),
        at <= pos < at + t ==> update_run(b, at, patch, t)[pos] == patch[pos - at],
        !(at <= pos < at + t) ==> update_run(b, at, patch, t)[pos] == b[pos],
    decreases t,
{
    if t > 0 {
        lemma_update_run_index(b, at, patch, t - 1, pos);
    }
}

/// The byte position where the record's field at `idx` begins.
fn field_offset(b: &[u8], idx: usize) -> (r: usize)
    requires
        dec_payload(b@) matches Some(m) && idx < m.len(),
    ensures
        match dec_payload(b@) {
            Some(m) => {
                &&& r as int == 4 + enc_fields(m.take(idx as int)).len()
                &&& dec_field(b@, r as int) == Some(
                    (m[idx as int], r as int + enc_field(m[idx as int]).len()),
                )
                &&& r as int + enc_field(m[idx as int]).len() <= b@.len()
            },
            None => true,
        },
{
    let ghost m = (match dec_payload(b@) {
        Some(m0) => m0,
        None => Seq::<FieldModel>::empty(),
    });
    let (n, start) = match read_u32(b, 0) {
        Ok(p) => p,
        Err(_) => {
            proof {
                assert(false);
            }
            (0u32, 0usize)
        },
    };
    proof {
        lemma_enc_of_dec_fields(b@, 4, n as nat);
        assert(m.skip(0) =~= m);
        assert(m.take(0) =~= Seq::<FieldModel>::empty());
        assert(dec_fields(b@, start as int, (n - 0) as nat) == Some((m, b@.len() as int)));
    }
    let mut cur: usize = start;
    let mut k: usize = 0;
    while k < idx
        invariant
            dec_payload(b@) == Some(m),
            k <= idx,
            idx < m.len(),
            m.len() == n,
            4 <= cur <= b@.len(),
            dec_fields(b@, cur as int, (n - k) as nat) == Some((m.skip(k as int), b@.len() as int)),
            cur == 4 + enc_fields(m.take(k as int)).len(),
        decreases idx - k,
    {
        match read_field(b, cur) {
            Ok((_f, j)) => {
                proof {
                    lemma_field_offset_step(b@, m, n as nat, k as int, cur as int);
                }
                cur = j;
                k = k + 1;
            },
            Err(_) => {
                proof {
                    assert(false);
                }
                return 0;
            },
        }
    }
    proof {
        lemma_field_offset_step(b@, m, n as nat, idx as int, cur as int);
        lemma_enc_of_dec_field(b@, cur as int);
    }
    cur
}

/// One step of the field walk: at the start of field `k`, that field is
/// decodable, the cursor past it starts field `k + 1`, and the remaining
/// fields still decode to the record's tail.
proof fn lemma_field_offset_step(b: Seq<u8>, m: Seq<FieldModel>, n: nat, k: int, cur: int)
    requires
        0 <= k < m.len(),
        m.len() == n,
        0 <= cur <= b.len(),
        dec_fields(b, cur, (n - k) as nat) == Some((m.skip(k), b.len() as int)),
        cur == 4 + enc_fields(m.take(k)).len(),
    ensures
        dec_field(b, cur) == Some((m[k], cur + enc_field(m[k]).len())),
        cur + enc_field(m[k]).len() <= b.len(),
        dec_fields(
            b,
            cur + enc_field(m[k]).len(),
            (n - k - 1) as nat,
        ) == Some((m.skip(k + 1), b.len() as int)),
        cur + enc_field(m[k]).len() == 4 + enc_fields(m.take(k + 1)).len(),
{
    match dec_field(b, cur) {
        Some((f0, j2)) => {
            match dec_fields(b, j2, (n - k - 1) as nat) {
                Some((rest, _l2)) => {
                    assert(seq![f0] + rest == m.skip(k));
                    assert((seq![f0] + rest)[0] == f0);
                    assert(m.skip(k)[0] == m[k]);
                    assert(rest =~= m.skip(k).drop_first());
                    assert(m.skip(k).drop_first() =~= m.skip(k + 1));
                    lemma_enc_of_dec_field(b, cur);
                    lemma_enc_fields_snoc(m.take(k), m[k]);
                    assert(m.take(k + 1) =~= m.take(k).push(m[k]));
                },
                None => {
                    assert(false);
                },
            }
        },
        None => {
            assert(false);
        },
    }
}

/// Replacing the two payload bytes of a 16-bit field turns the record's
/// wire image into the wire image of the updated record.
proof fn lemma_set_u16_splice(
    b: Seq<u8>,
    m: Seq<FieldModel>,
    idx: int,
    cur: int,
    value: u16,
    x0: u16,
)
    requires
        b == enc_record(m),
        record_ok(m),
        0 <= idx < m.len(),
        m[idx] == FieldModel::U16(x0),
        cur == 4 + enc_fields(m.take(idx)).len(),
        cur + 3 <= b.len(),
    ensures
        record_ok(m.update(idx, FieldModel::U16(value))),
        b.update(cur + 1, spec_u16_to_le_bytes(value)[0]).update(
            cur + 2,
            spec_u16_to_le_bytes(value)[1],
        ) == enc_record(m.update(idx, FieldModel::U16(value))),
{
    let m2 = m.update(idx, FieldModel::U16(value));
    lemma_auto_spec_u16_to_from_le_bytes();
    lemma_auto_spec_u32_to_from_le_bytes();
    assert forall|t: int| 0 <= t < m2.len() implies field_ok(#[trigger] m2[t]) by {
        if t != idx {
            assert(m2[t] == m[t]);
        }
    }
    assert(record_ok(m2));
    lemma_enc_fields_split(m, idx);
    lemma_enc_fields_split(m2, idx);
    assert(m2.take(idx) =~= m.take(idx));
    assert(m.skip(idx)[0] == m[idx]);
    assert(m2.skip(idx)[0] == FieldModel::U16(value));
    assert(m2.skip(idx).drop_first() =~= m.skip(idx).drop_first());
    assert(enc_fields(m.skip(idx)) == enc_field(m[idx]) + enc_fields(m.skip(idx).drop_first()));
    assert(enc_fields(m2.skip(idx)) == enc_field(FieldModel::U16(value)) + enc_fields(
        m2.skip(idx).drop_first(),
    ));
    let pre = enc_u32(m.len() as u32) + enc_fields(m.take(idx)) + seq![KIND_U16];
    let suf = enc_fields(m.skip(idx).drop_first());
    assert(enc_field(m[idx]) == seq![KIND_U16] + enc_u16(x0));
    assert(enc_field(FieldModel::U16(value)) == seq![KIND_U16] + enc_u16(value));
    assert(b =~= pre + enc_u16(x0) + suf);
    assert(pre.len() == cur + 1);
    assert(enc_record(m2) =~= pre + enc_u16(value) + suf);
    assert(b.update(cur + 1, spec_u16_to_le_bytes(value)[0]).update(
        cur + 2,
        spec_u16_to_le_bytes(value)[1],
    ) =~= pre + enc_u16(value) + suf);
}

// ---------------------------------------------------------------------------
// The prefixed-archive flow.
// ---------------------------------------------------------------------------
/// The wire image of the prefixed layout: exactly two little-endian tag
/// bytes, then the archive bytes with no padding.
pub open spec fn zc_bytes(tag: u16, b: Seq<u8>) -> Seq<u8> {
    spec_u16_to_le_bytes(tag) + b
}

/// Encodes a record under a schema tag in the prefixed layout.
pub fn encode(tag: u16, value: &Record) -> (r: Result<Vec<u8>, SerdeFlowError>)
    ensures
        record_ok(value@) ==> (r matches Ok(b) && b@ == zc_bytes(tag, enc_record(value@))),
        !record_ok(value@) ==> r == Err::<Vec<u8>, SerdeFlowError>(SerdeFlowError::EncodingFailed),
{
    match Encoder::serialize(value) {
        Ok(payload) => {
            let mut out = u16_to_le_bytes(tag);
            let mut p = payload;
            out.append(&mut p);
            Ok(out)
        },
        Err(e) => Err(e),
    }
}

/// Everything the prefixed-layout decode promises. The current tag hands
/// the untouched archive bytes to a fresh reader and persists nothing. A
/// registered prior tag deserializes the archive as the prior record,
/// converts it, and hands back a reader over the converted value's archive
/// bytes together with the full prefixed image to re-persist. Any other tag
/// is `VariantNotFound`.
pub open spec fn zc_decode_post<F: Fn(u16, Record) -> Record>(
    reg: MigrationRegistry,
    convert: F,
    b: Seq<u8>,
    r: Result<(Reader, Option<Vec<u8>>), SerdeFlowError>,
) -> bool {
    if b.len() < 2 {
        r == Err::<(Reader, Option<Vec<u8>>), SerdeFlowError>(SerdeFlowError::FormatInvalid)
    } else {
        let t = spec_u16_from_le_bytes(b.subrange(0, 2));
        let rest = b.subrange(2, b.len() as int);
        if t == reg.current {
            r matches Ok(pair) && pair.0.spec_bytes() == rest && pair.0.spec_archived() is None
                && pair.1 is None
        } else if reg.priors@.contains(t) {
            match dec_payload(rest) {
                Some(m) => match r {
                    Ok(pair) => exists|q: Record, v: Record|
                        q@ == m && call_ensures(convert, (t, q), v) && record_ok(v@)
                            && pair.0.spec_bytes() == enc_record(v@) && pair.0.spec_archived()
                            is None && (pair.1 matches Some(nb) && nb@ == zc_bytes(
                            reg.current,
                            enc_record(v@),
                        )),
                    Err(e) => e == SerdeFlowError::EncodingFailed && (exists|q: Record, v: Record|
                        q@ == m && call_ensures(convert, (t, q), v) && !record_ok(v@)),
                },
                None => r == Err::<(Reader, Option<Vec<u8>>), SerdeFlowError>(
                    SerdeFlowError::ParsingFailed,
                ),
            }
        } else {
            r == Err::<(Reader, Option<Vec<u8>>), SerdeFlowError>(SerdeFlowError::VariantNotFound)
        }
    }
}

/// Decodes prefixed-layout bytes, resolving the tag against the registry.
/// Beside the reader comes the full prefixed image to re-persist whenever a
/// migration edge was taken, so the next load resolves directly.
pub fn decode<F: Fn(u16, Record) -> Record>(
    reg: &MigrationRegistry,
    convert: F,
    bytes: Vec<u8>,
) -> (r: Result<(Reader, Option<Vec<u8>>), SerdeFlowError>)
    requires
        converts_all(*reg, convert),
    ensures
        zc_decode_post(*reg, convert, bytes@, r),
{
    if bytes.len() < 2 {
        return Err(SerdeFlowError::FormatInvalid);
    }
    let tag = u16_from_le_bytes(slice_subrange(bytes.as_slice(), 0, 2));
    let mut b = bytes;
    let rest = b.split_off(2);
    match resolve(reg, tag) {
        Resolution::DirectMatch => Ok((Reader::new(rest), None)),
        Resolution::MigrateFromEdge(_edge) => {
            let prior = match decode_payload(rest.as_slice()) {
                Ok(rec) => rec,
                Err(e) => {
                    return Err(e);
                },
            };
            proof {
                assert(reg.priors@.contains(tag));
            }
            let ghost gq = prior;
            let out = convert(tag, prior);
            match Encoder::serialize(&out) {
                Ok(payload) => {
                    let mut file = u16_to_le_bytes(reg.current);
                    let mut pc = slice_to_vec(payload.as_slice());
                    file.append(&mut pc);
                    proof {
                        assert(gq@ == dec_payload(rest@).unwrap());
                        assert(call_ensures(convert, (tag, gq), out));
                        assert(exists|q: Record, v: Record|
                            q@ == dec_payload(rest@).unwrap() && call_ensures(
                                convert,
                                (tag, q),
                                v,
                            ) && record_ok(v@));
                    }
                    Ok((Reader::new(payload), Some(file)))
                },
                Err(e) => {
                    proof {
                        assert(call_ensures(convert, (tag, gq), out));
                        assert(!record_ok(out@));
                    }
                    Err(e)
                },
            }
        },
        Resolution::Unresolved => Err(SerdeFlowError::VariantNotFound),
    }
}

/// Loads from a storage destination's contents in the prefixed layout: an
/// absent destination is `FileNotFound`; present contents decode as
/// `decode` does, handing back bytes to re-persist when migration occurred.
pub fn load<F: Fn(u16, Record) -> Record>(
    contents: Option<Vec<u8>>,
    reg: &MigrationRegistry,
    convert: F,
) -> (r: Result<(Reader, Option<Vec<u8>>), SerdeFlowError>)
    requires
        converts_all(*reg, convert),
    ensures
        contents is None ==> r == Err::<(Reader, Option<Vec<u8>>), SerdeFlowError>(
            SerdeFlowError::FileNotFound,
        ),
        contents matches Some(b) ==> zc_decode_post(*reg, convert, b@, r),
{
    match contents {
        None => Err(SerdeFlowError::FileNotFound),
        Some(b) => decode(reg, convert, b),
    }
}

/// In the prefixed layout a load already migrates and re-persists, so
/// loading and migrating is the same operation.
pub fn load_and_migrate<F: Fn(u16, Record) -> Record>(
    contents: Option<Vec<u8>>,
    reg: &MigrationRegistry,
    convert: F,
) -> (r: Result<(Reader, Option<Vec<u8>>), SerdeFlowError>)
    requires
        converts_all(*reg, convert),
    ensures
        contents is None ==> r == Err::<(Reader, Option<Vec<u8>>), SerdeFlowError>(
            SerdeFlowError::FileNotFound,
        ),
        contents matches Some(b) ==> zc_decode_post(*reg, convert, b@, r),
{
    load(contents, reg, convert)
}

/// Performs the same resolution and re-persistence as `load_and_migrate`
/// and discards the reader.
pub fn migrate<F: Fn(u16, Record) -> Record>(
    contents: Option<Vec<u8>>,
    reg: &MigrationRegistry,
    convert: F,
) -> (r: Result<Option<Vec<u8>>, SerdeFlowError>)
    requires
        converts_all(*reg, convert),
    ensures
        contents is None ==> r == Err::<Option<Vec<u8>>, SerdeFlowError>(
            SerdeFlowError::FileNotFound,
        ),
        contents matches Some(b) ==> match r {
            Ok(opt) => exists|rd: Reader|
                zc_decode_post(
                    *reg,
                    convert,
                    b@,
                    Ok::<(Reader, Option<Vec<u8>>), SerdeFlowError>((rd, opt)),
                ),
            Err(e) => zc_decode_post(
                *reg,
                convert,
                b@,
                Err::<(Reader, Option<Vec<u8>>), SerdeFlowError>(e),
            ),
        },
{
    let ghost gcontents = contents;
    let r0 = load(contents, reg, convert);
    let ghost gr0 = r0;
    match r0 {
        Ok(pair) => {
            let ghost gp = pair;
            let (_rd, opt) = pair;
            proof {
                if gcontents is Some {
                    assert(gr0 == Ok::<(Reader, Option<Vec<u8>>), SerdeFlowError>((gp.0, gp.1)));
                }
            }
            Ok(opt)
        },
        Err(e) => Err(e),
    }
}

} // verus!