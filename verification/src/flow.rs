//! The versioned record flow: tagged envelopes, the migration registry, and
//! the resolution of a record's schema tag against it.
//!
//! A value of the current schema travels as an envelope: one record whose
//! first field is the 16-bit schema tag and whose remaining fields are the
//! value's own. Decoding extracts the tag, resolves it against the registry,
//! and either decodes directly, decodes as the registered prior variant and
//! converts, or rejects the record.

use vstd::prelude::*;
use crate::codec::{enc_record, enc_fields, enc_field, dec_payload, dec_u32, dec_field,
    dec_fields, record_ok, fields_all_ok, field_ok, decode_payload, lemma_codec_round_trip,
    push_u16, push_u32, push_fields, read_u32, read_field, KIND_U16};
use crate::error::SerdeFlowError;
use crate::record::{Record, FieldValue, FieldModel, fields_model};

verus! {

/// The leading field of every envelope: the schema-variant tag.
pub struct FlowId {
    pub flow_id: u16,
}

// ---------------------------------------------------------------------------
// The envelope layout, as mathematics.
// ---------------------------------------------------------------------------
/// The record that actually goes on the wire: the tag field, then the
/// value's own fields.
pub open spec fn envelope_model(tag: u16, fs: Seq<FieldModel>) -> Seq<FieldModel> {
    seq![FieldModel::U16(tag)] + fs
}

/// Whether a value fits the envelope layout at all.
pub open spec fn envelope_ok(tag: u16, fs: Seq<FieldModel>) -> bool {
    record_ok(envelope_model(tag, fs))
}

/// The full wire image of a tagged value.
pub open spec fn envelope_bytes(tag: u16, fs: Seq<FieldModel>) -> Seq<u8> {
    enc_record(envelope_model(tag, fs))
}

/// What a whole envelope means: the tag and the value's fields, if the bytes
/// decode to a record whose first field is a 16-bit tag.
pub open spec fn spec_envelope(b: Seq<u8>) -> Option<(u16, Seq<FieldModel>)> {
    match dec_payload(b) {
        Some(fs) => {
            if fs.len() >= 1 {
                match fs[0] {
                    FieldModel::U16(t) => Some((t, fs.drop_first())),
                    _ => None,
                }
            } else {
                None
            }
        },
        None => None,
    }
}

/// The tag alone, read from the envelope's head without decoding the rest.
pub open spec fn spec_envelope_tag(b: Seq<u8>) -> Option<u16> {
    match dec_u32(b, 0) {
        Some((n, _)) => {
            if n >= 1 {
                match dec_field(b, 4) {
                    Some((FieldModel::U16(t), _)) => Some(t),
                    _ => None,
                }
            } else {
                None
            }
        },
        None => None,
    }
}

proof fn lemma_dec_fields_len(b: Seq<u8>, i: int, n: nat)
    ensures
        dec_fields(b, i, n) matches Some(p) ==> p.0.len() == n,
    decreases n,
{
    if n > 0 {
        match dec_field(b, i) {
            Some((_, j)) => {
                lemma_dec_fields_len(b, j, (n - 1) as nat);
            },
            None => {},
        }
    }
}

/// Whenever the whole envelope decodes, the head read agrees on the tag.
proof fn lemma_envelope_tag_agrees(b: Seq<u8>)
    ensures
        spec_envelope(b) matches Some(p) ==> spec_envelope_tag(b) == Some(p.0),
{
    match dec_payload(b) {
        Some(fs) => {
            match dec_u32(b, 0) {
                Some((n, j)) => {
                    lemma_dec_fields_len(b, j, n as nat);
                    if n >= 1 && fs.len() >= 1 {
                        match dec_field(b, 4) {
                            Some((f0, j2)) => {
                                match dec_fields(b, j2, (n - 1) as nat) {
                                    Some(rest) => {
                                        assert(fs == seq![f0] + rest.0);
                                        assert(fs[0] == f0);
                                    },
                                    None => {},
                                }
                            },
                            None => {},
                        }
                    }
                },
                None => {},
            }
        },
        None => {},
    }
}

// ---------------------------------------------------------------------------
// The migration registry and the resolver.
// ---------------------------------------------------------------------------
/// The registered migration edges of one current schema type: its own tag,
/// and the tags of the prior variants it can convert from.
///
/// Each prior tag stands for one edge; the conversion function itself is
/// supplied by the caller at decode time, keyed by the prior tag.
pub struct MigrationRegistry {
    pub current: u16,
    pub priors: Vec<u16>,
}

impl MigrationRegistry {
    /// At most one edge per distinct prior tag, and no edge from the current
    /// tag to itself.
    pub open spec fn wf(&self) -> bool {
        &&& forall|i: int, j: int|
            0 <= i < j < self.priors@.len() ==> self.priors@[i] != self.priors@[j]
        &&& !self.priors@.contains(self.current)
    }

    /// A registry for a current schema tag, with no edges yet.
    pub fn new(current: u16) -> (r: MigrationRegistry)
        ensures
            r.current == current,
            r.priors@ == Seq::<u16>::empty(),
            r.wf(),
    {
        let r = MigrationRegistry { current, priors: Vec::new() };
        proof {
            assert(!r.priors@.contains(r.current));
        }
        r
    }

    /// Registers one more prior variant. A tag equal to the current one or
    /// already registered is refused, so the registry stays flat: at most
    /// one edge per prior tag.
    pub fn register(&mut self, prior: u16) -> (added: bool)
        ensures
            final(self).current == old(self).current,
            added == (prior != old(self).current && !old(self).priors@.contains(prior)),
            added ==> final(self).priors@ == old(self).priors@.push(prior),
            !added ==> final(self).priors@ == old(self).priors@,
            old(self).wf() ==> final(self).wf(),
    {
        if prior == self.current {
            return false;
        }
        if contains_tag(&self.priors, prior) {
            return false;
        }
        let ghost prev = self.priors@;
        self.priors.push(prior);
        proof {
            assert forall|i: int, j: int|
                0 <= i < j < self.priors@.len() && (forall|a: int, b: int|
                    0 <= a < b < prev.len() ==> prev[a] != prev[b])
                implies self.priors@[i] != self.priors@[j] by {
                if j < prev.len() {
                } else {
                    assert(self.priors@[j] == prior);
                    assert(!prev.contains(prior));
                    assert(prev[i] != prior);
                }
            }
        }
        true
    }
}

fn contains_tag(v: &Vec<u16>, t: u16) -> (r: bool)
    ensures
        r == v@.contains(t),
{
    let mut i: usize = 0;
    while i < v.len()
        invariant
            i <= v@.len(),
            forall|k: int| 0 <= k < i ==> v@[k] != t,
        decreases v@.len() - i,
    {
        if *vstd::std_specs::vec::vec_index(v, i) == t {
            return true;
        }
        i = i + 1;
    }
    false
}

/// The three terminal states of tag resolution.
#[derive(Debug, PartialEq, Eq, Structural)]
pub enum Resolution {
    /// The tag is the current schema's own: decode directly.
    DirectMatch,
    /// The tag is a registered prior variant: decode as that variant and
    /// convert through the edge at this position of the registry.
    MigrateFromEdge(usize),
    /// The tag is neither: the record cannot be interpreted.
    Unresolved,
}

/// Resolves an extracted tag against the registry: the current tag matches
/// directly, a registered prior tag names its (first) edge, anything else is
/// unresolved. A flat one-hop lookup; no transitive chaining.
pub fn resolve(reg: &MigrationRegistry, tag: u16) -> (r: Resolution)
    ensures
        tag == reg.current ==> r == Resolution::DirectMatch,
        tag != reg.current && reg.priors@.contains(tag) ==> (r matches Resolution::MigrateFromEdge(
            i,
        ) && i < reg.priors@.len() && reg.priors@[i as int] == tag && (forall|k: int|
            0 <= k < i ==> reg.priors@[k] != tag)),
        tag != reg.current && !reg.priors@.contains(tag) ==> r == Resolution::Unresolved,
{
    if tag == reg.current {
        return Resolution::DirectMatch;
    }
    let mut i: usize = 0;
    while i < reg.priors.len()
        invariant
            tag != reg.current,
            i <= reg.priors@.len(),
            forall|k: int| 0 <= k < i ==> reg.priors@[k] != tag,
        decreases reg.priors@.len() - i,
    {
        if *vstd::std_specs::vec::vec_index(&reg.priors, i) == tag {
            return Resolution::MigrateFromEdge(i);
        }
        i = i + 1;
    }
    Resolution::Unresolved
}

// ---------------------------------------------------------------------------
// Envelope encoding.
// ---------------------------------------------------------------------------
/// Encodes a value under a schema tag, in one codec pass: the tag as the
/// leading field of the record that also carries the value's fields.
///
/// Fails with `EncodingFailed` exactly when some length of the value exceeds
/// the format's 32-bit counts.
pub fn encode(tag: u16, value: &Record) -> (r: Result<Vec<u8>, SerdeFlowError>)
    ensures
        envelope_ok(tag, value@) ==> (r matches Ok(b) && b@ == envelope_bytes(tag, value@)),
        !envelope_ok(tag, value@) ==> r == Err::<Vec<u8>, SerdeFlowError>(
            SerdeFlowError::EncodingFailed,
        ),
{
    let ghost m = envelope_model(tag, value@);
    proof {
        assert(m.len() == value@.len() + 1);
        assert(m[0] == FieldModel::U16(tag));
        assert(m.drop_first() =~= value@);
        assert(fields_model(value.fields@) == value@);
        assert(value@.len() == value.fields@.len());
    }
    if value.fields.len() > u32::MAX as usize - 1 {
        proof {
            assert(!record_ok(m));
        }
        return Err(SerdeFlowError::EncodingFailed);
    }
    // One codec pass over the value's record with the tag put in front.
    let count: u32 = value.fields.len() as u32 + 1;
    let mut out: Vec<u8> = Vec::new();
    push_u32(&mut out, count);
    out.push(KIND_U16);
    push_u16(&mut out, tag);
    let ok = push_fields(&mut out, &value.fields);
    if ok {
        proof {
            assert forall|i: int| 0 <= i < m.len() implies field_ok(#[trigger] m[i]) by {
                if i >= 1 {
                    assert(m[i] == value@[i - 1]);
                }
            }
            assert(record_ok(m));
            assert(enc_fields(m) == enc_field(m[0]) + enc_fields(m.drop_first()));
            assert(out@ =~= enc_record(m));
        }
        Ok(out)
    } else {
        proof {
            assert(!fields_all_ok(value@));
            let i = choose|i: int| 0 <= i < value@.len() && !field_ok(#[trigger] value@[i]);
            assert(m[i + 1] == value@[i]);
            assert(!record_ok(m));
        }
        Err(SerdeFlowError::EncodingFailed)
    }
}

// ---------------------------------------------------------------------------
// Tag extraction and envelope decoding with migration.
// ---------------------------------------------------------------------------
impl FlowId {
    /// Reads the schema tag at the head of an envelope, without decoding the
    /// rest: fewer than two bytes cannot even address a tag.
    pub fn extract(bytes: &[u8]) -> (r: Result<FlowId, SerdeFlowError>)
        ensures
            bytes@.len() < 2 ==> r == Err::<FlowId, SerdeFlowError>(SerdeFlowError::FormatInvalid),
            bytes@.len() >= 2 ==> match spec_envelope_tag(bytes@) {
                Some(t) => r matches Ok(f) && f.flow_id == t,
                None => r == Err::<FlowId, SerdeFlowError>(SerdeFlowError::ParsingFailed),
            },
    {
        if bytes.len() < 2 {
            return Err(SerdeFlowError::FormatInvalid);
        }
        let (n, j) = match read_u32(bytes, 0) {
            Ok(p) => p,
            Err(e) => {
                return Err(e);
            },
        };
        if n == 0 {
            return Err(SerdeFlowError::ParsingFailed);
        }
        match read_field(bytes, j) {
            Ok((FieldValue::U16(t), _)) => Ok(FlowId { flow_id: t }),
            Ok(_) => Err(SerdeFlowError::ParsingFailed),
            Err(e) => Err(e),
        }
    }
}

/// The conversion closure accepts every record of every registered prior
/// variant.
pub open spec fn converts_all<F: Fn(u16, Record) -> Record>(
    reg: MigrationRegistry,
    convert: F,
) -> bool {
    forall|t: u16, p: Record| reg.priors@.contains(t) ==> call_requires(convert, (t, p))
}

/// Everything `decode` promises, as one statement over the bytes' meaning:
/// too short is `FormatInvalid`; an unreadable tag is `ParsingFailed`; the
/// current tag decodes directly; a registered prior tag decodes as the prior
/// record and comes back converted; any other tag is `VariantNotFound`.
pub open spec fn decode_post<F: Fn(u16, Record) -> Record>(
    reg: MigrationRegistry,
    convert: F,
    b: Seq<u8>,
    r: Result<Record, SerdeFlowError>,
) -> bool {
    if b.len() < 2 {
        r == Err::<Record, SerdeFlowError>(SerdeFlowError::FormatInvalid)
    } else {
        match spec_envelope_tag(b) {
            None => r == Err::<Record, SerdeFlowError>(SerdeFlowError::ParsingFailed),
            Some(t) => {
                if t == reg.current {
                    match spec_envelope(b) {
                        Some(p) => r matches Ok(rec) && rec@ == p.1,
                        None => r == Err::<Record, SerdeFlowError>(SerdeFlowError::ParsingFailed),
                    }
                } else if reg.priors@.contains(t) {
                    match spec_envelope(b) {
                        Some(p) => r matches Ok(rec) && (exists|q: Record|
                            q@ == p.1 && call_ensures(convert, (t, q), rec)),
                        None => r == Err::<Record, SerdeFlowError>(SerdeFlowError::ParsingFailed),
                    }
                } else {
                    r == Err::<Record, SerdeFlowError>(SerdeFlowError::VariantNotFound)
                }
            },
        }
    }
}

proof fn lemma_envelope_of_payload(b: Seq<u8>)
    ensures
        match (spec_envelope_tag(b), dec_payload(b)) {
            (Some(t), Some(m)) => m.len() >= 1 && m[0] == FieldModel::U16(t) && spec_envelope(b)
                == Some((t, m.drop_first())),
            _ => true,
        },
{
    match (spec_envelope_tag(b), dec_payload(b)) {
        (Some(t), Some(m)) => {
            match dec_u32(b, 0) {
                Some((n, j)) => {
                    lemma_dec_fields_len(b, j, n as nat);
                    match dec_field(b, 4) {
                        Some((f0, j2)) => {
                            match dec_fields(b, j2, (n - 1) as nat) {
                                Some(rest) => {
                                    assert(m == seq![f0] + rest.0);
                                    assert(m[0] == f0);
                                },
                                None => {},
                            }
                        },
                        None => {},
                    }
                },
                None => {},
            }
        },
        _ => {},
    }
}

/// Decodes an envelope, resolving its tag against the registry: the current
/// tag decodes directly, a registered prior tag decodes as the prior record
/// and is converted through `convert`, and any other tag is rejected with
/// `VariantNotFound`.
pub fn decode<F: Fn(u16, Record) -> Record>(
    reg: &MigrationRegistry,
    convert: F,
    bytes: &[u8],
) -> (r: Result<Record, SerdeFlowError>)
    requires
        converts_all(*reg, convert),
    ensures
        decode_post(*reg, convert, bytes@, r),
{
    let id = match FlowId::extract(bytes) {
        Ok(f) => f,
        Err(e) => {
            return Err(e);
        },
    };
    let tag = id.flow_id;
    match resolve(reg, tag) {
        Resolution::DirectMatch => {
            let mut rec = match decode_payload(bytes) {
                Ok(rec) => rec,
                Err(e) => {
                    return Err(e);
                },
            };
            proof {
                lemma_envelope_of_payload(bytes@);
                assert(rec@.len() == rec.fields@.len());
            }
            let ghost oldf = rec.fields@;
            rec.fields.remove(0);
            proof {
                assert(fields_model(oldf.remove(0)) =~= fields_model(oldf).drop_first());
            }
            Ok(rec)
        },
        Resolution::MigrateFromEdge(_edge) => {
            let mut rec = match decode_payload(bytes) {
                Ok(rec) => rec,
                Err(e) => {
                    return Err(e);
                },
            };
            proof {
                lemma_envelope_of_payload(bytes@);
                assert(rec@.len() == rec.fields@.len());
            }
            let ghost oldf = rec.fields@;
            rec.fields.remove(0);
            proof {
                assert(fields_model(oldf.remove(0)) =~= fields_model(oldf).drop_first());
                assert(reg.priors@.contains(tag));
            }
            let ghost gq = rec;
            let out = convert(tag, rec);
            proof {
                match spec_envelope(bytes@) {
                    Some(p) => {
                        assert(gq@ == p.1);
                        assert(call_ensures(convert, (tag, gq), out));
                        assert(exists|q: Record|
                            q@ == p.1 && call_ensures(convert, (tag, q), out));
                    },
                    None => {
                        assert(false);
                    },
                }
            }
            Ok(out)
        },
        Resolution::Unresolved => Err(SerdeFlowError::VariantNotFound),
    }
}

/// Loads a value from a storage destination's contents: an absent
/// destination is `FileNotFound`, and present contents decode as `decode`
/// does. The stored bytes are left as they are.
pub fn load<F: Fn(u16, Record) -> Record>(
    contents: Option<&Vec<u8>>,
    reg: &MigrationRegistry,
    convert: F,
) -> (r: Result<Record, SerdeFlowError>)
    requires
        converts_all(*reg, convert),
    ensures
        contents is None ==> r == Err::<Record, SerdeFlowError>(SerdeFlowError::FileNotFound),
        contents matches Some(b) ==> decode_post(*reg, convert, b@, r),
{
    match contents {
        None => Err(SerdeFlowError::FileNotFound),
        Some(b) => decode(reg, convert, b.as_slice()),
    }
}

/// Everything `load_and_migrate` promises of present contents. On a direct
/// match the value comes back with nothing to re-persist; through a
/// migration edge the converted value comes back beside its re-encoding
/// under the current tag, which the caller persists.
pub open spec fn migrate_post<F: Fn(u16, Record) -> Record>(
    reg: MigrationRegistry,
    convert: F,
    b: Seq<u8>,
    r: Result<(Record, Option<Vec<u8>>), SerdeFlowError>,
) -> bool {
    if b.len() < 2 {
        r == Err::<(Record, Option<Vec<u8>>), SerdeFlowError>(SerdeFlowError::FormatInvalid)
    } else {
        match spec_envelope_tag(b) {
            None => r == Err::<(Record, Option<Vec<u8>>), SerdeFlowError>(
                SerdeFlowError::ParsingFailed,
            ),
            Some(t) => {
                if t == reg.current {
                    match spec_envelope(b) {
                        Some(p) => r matches Ok(pair) && pair.0@ == p.1 && pair.1 is None,
                        None => r == Err::<(Record, Option<Vec<u8>>), SerdeFlowError>(
                            SerdeFlowError::ParsingFailed,
                        ),
                    }
                } else if reg.priors@.contains(t) {
                    match spec_envelope(b) {
                        Some(p) => match r {
                            Ok(pair) => (exists|q: Record|
                                q@ == p.1 && call_ensures(convert, (t, q), pair.0))
                                && envelope_ok(reg.current, pair.0@) && (pair.1 matches Some(nb)
                                && nb@ == envelope_bytes(reg.current, pair.0@)),
                            Err(e) => e == SerdeFlowError::EncodingFailed && (exists|
                                v: Record,
                                q: Record,
                            |
                                q@ == p.1 && call_ensures(convert, (t, q), v) && !envelope_ok(
                                    reg.current,
                                    v@,
                                )),
                        },
                        None => r == Err::<(Record, Option<Vec<u8>>), SerdeFlowError>(
                            SerdeFlowError::ParsingFailed,
                        ),
                    }
                } else {
                    r == Err::<(Record, Option<Vec<u8>>), SerdeFlowError>(
                        SerdeFlowError::VariantNotFound,
                    )
                }
            },
        }
    }
}

/// Loads a value and, where a migration edge was taken, also returns the
/// bytes that re-persist it under the current tag, so that the next load
/// takes the direct path.
pub fn load_and_migrate<F: Fn(u16, Record) -> Record>(
    contents: Option<&Vec<u8>>,
    reg: &MigrationRegistry,
    convert: F,
) -> (r: Result<(Record, Option<Vec<u8>>), SerdeFlowError>)
    requires
        converts_all(*reg, convert),
    ensures
        contents is None ==> r == Err::<(Record, Option<Vec<u8>>), SerdeFlowError>(
            SerdeFlowError::FileNotFound,
        ),
        contents matches Some(b) ==> migrate_post(*reg, convert, b@, r),
{
    let bytes = match contents {
        None => {
            return Err(SerdeFlowError::FileNotFound);
        },
        Some(b) => b.as_slice(),
    };
    let id = match FlowId::extract(bytes) {
        Ok(f) => f,
        Err(e) => {
            return Err(e);
        },
    };
    let tag = id.flow_id;
    match resolve(reg, tag) {
        Resolution::DirectMatch => {
            let mut rec = match decode_payload(bytes) {
                Ok(rec) => rec,
                Err(e) => {
                    return Err(e);
                },
            };
            proof {
                lemma_envelope_of_payload(bytes@);
                assert(rec@.len() == rec.fields@.len());
            }
            let ghost oldf = rec.fields@;
            rec.fields.remove(0);
            proof {
                assert(fields_model(oldf.remove(0)) =~= fields_model(oldf).drop_first());
            }
            Ok((rec, None))
        },
        Resolution::MigrateFromEdge(_edge) => {
            let mut rec = match decode_payload(bytes) {
                Ok(rec) => rec,
                Err(e) => {
                    return Err(e);
                },
            };
            proof {
                lemma_envelope_of_payload(bytes@);
                assert(rec@.len() == rec.fields@.len());
            }
            let ghost oldf = rec.fields@;
            rec.fields.remove(0);
            proof {
                assert(fields_model(oldf.remove(0)) =~= fields_model(oldf).drop_first());
                assert(reg.priors@.contains(tag));
            }
            let ghost gq = rec;
            let out = convert(tag, rec);
            proof {
                match spec_envelope(bytes@) {
                    Some(p) => {
                        assert(gq@ == p.1);
                        assert(call_ensures(convert, (tag, gq), out));
                        assert(exists|q: Record|
                            q@ == p.1 && call_ensures(convert, (tag, q), out));
                    },
                    None => {
                        assert(false);
                    },
                }
            }
            match encode(reg.current, &out) {
                Ok(nb) => Ok((out, Some(nb))),
                Err(e) => {
                    proof {
                        assert(!envelope_ok(reg.current, out@));
                        match spec_envelope(bytes@) {
                            Some(p) => {
                                assert(exists|v: Record, q: Record|
                                    q@ == p.1 && call_ensures(convert, (tag, q), v)
                                        && !envelope_ok(reg.current, v@));
                            },
                            None => {},
                        }
                    }
                    Err(e)
                },
            }
        },
        Resolution::Unresolved => Err(SerdeFlowError::VariantNotFound),
    }
}

/// Performs the same resolution and re-persistence as `load_and_migrate`
/// and discards the loaded value.
pub fn migrate<F: Fn(u16, Record) -> Record>(
    contents: Option<&Vec<u8>>,
    reg: &MigrationRegistry,
    convert: F,
) -> (r: Result<Option<Vec<u8>>, SerdeFlowError>)
    requires
        converts_all(*reg, convert),
    ensures
        contents is None ==> r == Err::<Option<Vec<u8>>, SerdeFlowError>(
            SerdeFlowError::FileNotFound,
        ),
        contents matches Some(b) ==> match r {
            Ok(opt) => exists|rec: Record|
                migrate_post(
                    *reg,
                    convert,
                    b@,
                    Ok::<(Record, Option<Vec<u8>>), SerdeFlowError>((rec, opt)),
                ),
            Err(e) => migrate_post(
                *reg,
                convert,
                b@,
                Err::<(Record, Option<Vec<u8>>), SerdeFlowError>(e),
            ),
        },
{
    let r0 = load_and_migrate(contents, reg, convert);
    let ghost gr0 = r0;
    match r0 {
        Ok(pair) => {
            let ghost gp = pair;
            let (_rec, opt) = pair;
            proof {
                if contents is Some {
                    assert(gr0 == Ok::<(Record, Option<Vec<u8>>), SerdeFlowError>((gp.0, gp.1)));
                }
            }
            Ok(opt)
        },
        Err(e) => Err(e),
    }
}

// ---------------------------------------------------------------------------
// The laws of the flow: round trip and migration convergence.
// ---------------------------------------------------------------------------
/// The wire image of a tagged value means exactly that tag and that value.
pub proof fn lemma_envelope_round_trip(tag: u16, fs: Seq<FieldModel>)
    requires
        envelope_ok(tag, fs),
    ensures
        spec_envelope(envelope_bytes(tag, fs)) == Some((tag, fs)),
        spec_envelope_tag(envelope_bytes(tag, fs)) == Some(tag),
        envelope_bytes(tag, fs).len() >= 2,
{
    lemma_codec_round_trip(envelope_model(tag, fs));
    assert(envelope_model(tag, fs)[0] == FieldModel::U16(tag));
    assert(envelope_model(tag, fs).drop_first() =~= fs);
    lemma_envelope_tag_agrees(envelope_bytes(tag, fs));
    vstd::bytes::lemma_auto_spec_u32_to_from_le_bytes();
}

/// Round trip: whatever `decode` returns for the encoding of a value under
/// the registry's current tag is that value itself.
pub proof fn lemma_flow_round_trip<F: Fn(u16, Record) -> Record>(
    reg: MigrationRegistry,
    convert: F,
    v: Record,
    r: Result<Record, SerdeFlowError>,
)
    requires
        envelope_ok(reg.current, v@),
        decode_post(reg, convert, envelope_bytes(reg.current, v@), r),
    ensures
        r matches Ok(w) && w@ == v@,
{
    lemma_envelope_round_trip(reg.current, v@);
}

/// Migration convergence: whatever `decode` returns for bytes encoded under
/// a registered prior tag is a conversion of the encoded prior value through
/// that edge. Together with `lemma_flow_round_trip`, the converted value is
/// schema-tag-stable: re-encoded under the current tag it decodes directly.
pub proof fn lemma_migration_convergence<F: Fn(u16, Record) -> Record>(
    reg: MigrationRegistry,
    convert: F,
    prior_tag: u16,
    p: Record,
    r: Result<Record, SerdeFlowError>,
)
    requires
        reg.wf(),
        reg.priors@.contains(prior_tag),
        envelope_ok(prior_tag, p@),
        decode_post(reg, convert, envelope_bytes(prior_tag, p@), r),
    ensures
        r matches Ok(w) && (exists|q: Record| q@ == p@ && call_ensures(convert, (prior_tag, q), w)),
{
    lemma_envelope_round_trip(prior_tag, p@);
    assert(prior_tag != reg.current);
}

/// A value re-encoded under the current tag presents the current tag, so a
/// later load resolves it as a direct match.
pub proof fn lemma_migration_stability(reg: MigrationRegistry, w: Record)
    requires
        envelope_ok(reg.current, w@),
    ensures
        spec_envelope_tag(envelope_bytes(reg.current, w@)) == Some(reg.current),
{
    lemma_envelope_round_trip(reg.current, w@);
}

} // verus!