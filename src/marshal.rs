use vstd::prelude::*;
use vstd::utf8::{decode_utf8, encode_utf8, valid_utf8};

use crate::error::{UDFConversionError, ValueKind};
use crate::value::{model, models, CLIPSValue, ValueModel};

verus! {

/// A value as the engine holds it: a type tag with its contents. Lexemes
/// (symbols, strings, instance names) are the engine's bytes; a float is its
/// bit pattern.
pub enum RawValue {
    Float(u64),
    Integer(i64),
    Symbol(Vec<u8>),
    String(Vec<u8>),
    InstanceName(Vec<u8>),
    Multifield(Vec<RawValue>),
    FactAddress,
    InstanceAddress,
    ExternalAddress,
    Void,
}

/// The mathematical meaning of a `RawValue`.
pub enum RawModel {
    Float(u64),
    Integer(int),
    Symbol(Seq<u8>),
    Str(Seq<u8>),
    InstanceName(Seq<u8>),
    Multifield(Seq<RawModel>),
    FactAddress,
    InstanceAddress,
    ExternalAddress,
    Void,
}

pub open spec fn raw_model(r: RawValue) -> RawModel
    decreases r,
{
    match r {
        RawValue::Float(b) => RawModel::Float(b),
        RawValue::Integer(i) => RawModel::Integer(i as int),
        RawValue::Symbol(b) => RawModel::Symbol(b@),
        RawValue::String(b) => RawModel::Str(b@),
        RawValue::InstanceName(b) => RawModel::InstanceName(b@),
        RawValue::Multifield(rs) => RawModel::Multifield(
            Seq::new(rs.len() as nat, |i: int| if 0 <= i < rs.len() { raw_model(rs[i]) } else { RawModel::Void }),
        ),
        RawValue::FactAddress => RawModel::FactAddress,
        RawValue::InstanceAddress => RawModel::InstanceAddress,
        RawValue::ExternalAddress => RawModel::ExternalAddress,
        RawValue::Void => RawModel::Void,
    }
}

pub open spec fn raw_models(rs: Seq<RawValue>) -> Seq<RawModel> {
    Seq::new(rs.len(), |i: int| raw_model(rs[i]))
}

proof fn lemma_raw_multifield(rs: Vec<RawValue>)
    ensures
        raw_model(RawValue::Multifield(rs)) == RawModel::Multifield(raw_models(rs@)),
{
    let ms = raw_model(RawValue::Multifield(rs))->Multifield_0;
    assert(ms =~= raw_models(rs@));
}

/// The host value of an engine value: the symbols `TRUE` and `FALSE` are the
/// booleans; text must be valid UTF-8; a multifield converts element by
/// element, failing with the first element that fails. Instance names,
/// addresses and void have no host value.
pub open spec fn inbound(r: RawModel) -> Result<ValueModel, UDFConversionError>
    decreases r, 0int,
{
    match r {
        RawModel::Float(b) => Ok(ValueModel::Float(b)),
        RawModel::Integer(i) => Ok(ValueModel::Int(i)),
        RawModel::Symbol(b) => if !valid_utf8(b) {
            Err(UDFConversionError::ValueNotUnicode)
        } else if decode_utf8(b) == "TRUE"@ {
            Ok(ValueModel::Bool(true))
        } else if decode_utf8(b) == "FALSE"@ {
            Ok(ValueModel::Bool(false))
        } else {
            Ok(ValueModel::Symbol(decode_utf8(b)))
        },
        RawModel::Str(b) => if !valid_utf8(b) {
            Err(UDFConversionError::ValueNotUnicode)
        } else {
            Ok(ValueModel::Str(decode_utf8(b)))
        },
        RawModel::Multifield(rs) => match inbound_items(rs, 0) {
            Ok(ms) => Ok(ValueModel::Multifield(ms)),
            Err(e) => Err(e),
        },
        _ => Err(UDFConversionError::InvalidType(ValueKind::Value)),
    }
}

/// The host values of the elements from index `k` on.
pub open spec fn inbound_items(rs: Seq<RawModel>, k: int) -> Result<Seq<ValueModel>, UDFConversionError>
    decreases rs, rs.len() - k,
{
    if k < 0 || k >= rs.len() {
        Ok(Seq::empty())
    } else {
        match inbound(rs[k]) {
            Err(e) => Err(e),
            Ok(m) => match inbound_items(rs, k + 1) {
                Err(e) => Err(e),
                Ok(ms) => Ok(seq![m] + ms),
            },
        }
    }
}

/// The engine value that the host writes for a value: a boolean as the symbol
/// `TRUE` or `FALSE`, text as its UTF-8 bytes.
pub open spec fn outbound(m: ValueModel) -> RawModel
    decreases m,
{
    match m {
        ValueModel::Symbol(t) => RawModel::Symbol(encode_utf8(t)),
        ValueModel::Int(i) => RawModel::Integer(i),
        ValueModel::Str(t) => RawModel::Str(encode_utf8(t)),
        ValueModel::Float(b) => RawModel::Float(b),
        ValueModel::Bool(b) => RawModel::Symbol(encode_utf8(if b { "TRUE"@ } else { "FALSE"@ })),
        ValueModel::Multifield(ms) => RawModel::Multifield(
            Seq::new(ms.len(), |i: int| if 0 <= i < ms.len() { outbound(ms[i]) } else { RawModel::Void }),
        ),
    }
}

/// No symbol in the value reads as a boolean.
pub open spec fn no_boolean_symbol(m: ValueModel) -> bool
    decreases m,
{
    match m {
        ValueModel::Symbol(t) => t != "TRUE"@ && t != "FALSE"@,
        ValueModel::Multifield(ms) => forall|i: int| 0 <= i < ms.len() ==> no_boolean_symbol(#[trigger] ms[i]),
        _ => true,
    }
}

/// Relies on `String::from_utf8`: it accepts exactly the valid UTF-8 byte
/// sequences and gives the text they encode.
#[verifier::external_body]
fn text_from_bytes(b: Vec<u8>) -> (r: Option<String>)
    ensures
        r is Some <==> valid_utf8(b@),
        r matches Some(t) ==> t@ == decode_utf8(b@),
{
    String::from_utf8(b).ok()
}

/// The UTF-8 bytes of a text.
pub fn text_bytes(t: &str) -> (r: Vec<u8>)
    ensures
        r@ == encode_utf8(t@),
{
    let b = t.as_bytes();
    let mut out: Vec<u8> = Vec::new();
    let mut i: usize = 0;
    while i < b.len()
        invariant
            b@ == encode_utf8(t@),
            0 <= i <= b@.len(),
            out@ == b@.take(i as int),
        decreases b@.len() - i,
    {
        out.push(b[i]);
        assert(out@ =~= b@.take(i + 1));
        i = i + 1;
    }
    assert(b@.take(i as int) =~= b@);
    out
}

fn copy_bytes(b: &Vec<u8>) -> (r: Vec<u8>)
    ensures
        r@ == b@,
{
    let mut out: Vec<u8> = Vec::new();
    let mut i: usize = 0;
    while i < b.len()
        invariant
            0 <= i <= b@.len(),
            out@ == b@.take(i as int),
        decreases b@.len() - i,
    {
        out.push(b[i]);
        assert(out@ =~= b@.take(i + 1));
        i = i + 1;
    }
    assert(b@.take(i as int) =~= b@);
    out
}

/// Whether the bytes spell the text `t`, whose bytes are `tb`.
fn bytes_equal(a: &Vec<u8>, tb: &Vec<u8>) -> (r: bool)
    ensures
        r == (a@ == tb@),
{
    if a.len() != tb.len() {
        return false;
    }
    let mut i: usize = 0;
    while i < a.len()
        invariant
            a@.len() == tb@.len(),
            0 <= i <= a@.len(),
            forall|j: int| 0 <= j < i ==> a@[j] == tb@[j],
        decreases a@.len() - i,
    {
        if a[i] != tb[i] {
            return false;
        }
        i = i + 1;
    }
    assert(a@ =~= tb@);
    true
}

/// The host value of an engine value (see `inbound`).
pub fn extract_clipsvalue(r: &RawValue) -> (res: Result<CLIPSValue, UDFConversionError>)
    ensures
        res matches Ok(v) ==> inbound(raw_model(*r)) == Ok::<ValueModel, UDFConversionError>(model(v)),
        res matches Err(e) ==> inbound(raw_model(*r)) == Err::<ValueModel, UDFConversionError>(e),
    decreases r, 0int,
{
    match r {
        RawValue::Float(b) => Ok(CLIPSValue::Float(*b)),
        RawValue::Integer(i) => Ok(CLIPSValue::Int(*i)),
        RawValue::Symbol(b) => {
            let text = text_from_bytes(copy_bytes(b));
            match text {
                None => Err(UDFConversionError::ValueNotUnicode),
                Some(t) => {
                    let tb = text_bytes("TRUE");
                    let fb = text_bytes("FALSE");
                    proof {
                        vstd::utf8::encode_utf8_decode_utf8("TRUE"@);
                        vstd::utf8::encode_utf8_decode_utf8("FALSE"@);
                        vstd::utf8::decode_utf8_encode_utf8(b@);
                    }
                    if bytes_equal(b, &tb) {
                        Ok(CLIPSValue::Bool(true))
                    } else if bytes_equal(b, &fb) {
                        Ok(CLIPSValue::Bool(false))
                    } else {
                        Ok(CLIPSValue::Symbol(t))
                    }
                },
            }
        },
        RawValue::String(b) => {
            let text = text_from_bytes(copy_bytes(b));
            match text {
                None => Err(UDFConversionError::ValueNotUnicode),
                Some(t) => Ok(CLIPSValue::String(t)),
            }
        },
        RawValue::Multifield(rs) => {
            let mut items: Vec<CLIPSValue> = Vec::new();
            let mut k: usize = 0;
            proof {
                lemma_raw_multifield(*rs);
            }
            while k < rs.len()
                invariant
                    0 <= k <= rs@.len(),
                    *r == RawValue::Multifield(*rs),
                    raw_model(*r) == RawModel::Multifield(raw_models(rs@)),
                    inbound_items(raw_models(rs@), 0) == (match inbound_items(raw_models(rs@), k as int) {
                        Ok(ms) => Ok(models(items@) + ms),
                        Err(e) => Err::<Seq<ValueModel>, UDFConversionError>(e),
                    }),
                    items@.len() == k,
                decreases rs@.len() - k,
            {
                proof {
                    assert(rs@[k as int] == rs[k as int]);
                }
                let x = extract_clipsvalue(&rs[k]);
                let ghost rms = raw_models(rs@);
                assert(rms[k as int] == raw_model(rs@[k as int]));
                match x {
                    Err(e) => {
                        return Err(e);
                    },
                    Ok(w) => {
                        let ghost before = items@;
                        items.push(w);
                        proof {
                            assert(models(items@) =~= models(before).push(model(w)));
                            match inbound_items(rms, k + 1) {
                                Ok(ms) => {
                                    assert(models(items@) + ms =~= models(before) + (seq![model(w)] + ms));
                                },
                                Err(e) => {},
                            }
                        }
                        k = k + 1;
                    },
                }
            }
            proof {
                assert(models(items@) + Seq::<ValueModel>::empty() =~= models(items@));
                crate::value::lemma_multifield_model(items);
            }
            Ok(CLIPSValue::Multifield(items))
        },
        _ => Err(UDFConversionError::InvalidType(ValueKind::Value)),
    }
}

/// The engine value that the host writes for `v` (see `outbound`).
pub fn to_raw(v: &CLIPSValue) -> (r: RawValue)
    ensures
        raw_model(r) == outbound(model(*v)),
    decreases v, 0int,
{
    match v {
        CLIPSValue::Symbol(t) => RawValue::Symbol(text_bytes(t.as_str())),
        CLIPSValue::Int(i) => RawValue::Integer(*i),
        CLIPSValue::String(t) => RawValue::String(text_bytes(t.as_str())),
        CLIPSValue::Float(b) => RawValue::Float(*b),
        CLIPSValue::Bool(b) => {
            if *b {
                RawValue::Symbol(text_bytes("TRUE"))
            } else {
                RawValue::Symbol(text_bytes("FALSE"))
            }
        },
        CLIPSValue::Multifield(vs) => {
            let out = to_raw_items(vs);
            proof {
                lemma_raw_multifield(out);
                crate::value::lemma_multifield_model(*vs);
                assert(raw_models(out@) =~= outbound(model(*v))->Multifield_0);
            }
            RawValue::Multifield(out)
        },
    }
}

fn to_raw_items(vs: &Vec<CLIPSValue>) -> (out: Vec<RawValue>)
    ensures
        out@.len() == vs@.len(),
        forall|j: int| 0 <= j < vs@.len() ==> raw_model(#[trigger] out@[j]) == outbound(model(vs@[j])),
    decreases vs, 1int,
{
    let mut out: Vec<RawValue> = Vec::new();
    let mut k: usize = 0;
    while k < vs.len()
        invariant
            0 <= k <= vs@.len(),
            out@.len() == k,
            forall|j: int| 0 <= j < k ==> raw_model(#[trigger] out@[j]) == outbound(model(vs@[j])),
        decreases vs@.len() - k,
    {
        proof {
            vstd::std_specs::vec::axiom_vec_index_decreases(*vs, k as int);
        }
        let x = to_raw(&vs[k]);
        out.push(x);
        k = k + 1;
    }
    out
}

/// A host value written to the engine and read back is the same value, when
/// none of its symbols is one of the boolean symbols.
pub proof fn lemma_outbound_inbound(m: ValueModel)
    requires
        no_boolean_symbol(m),
    ensures
        inbound(outbound(m)) == Ok::<ValueModel, UDFConversionError>(m),
    decreases m, 1int,
{
    reveal_strlit("TRUE");
    reveal_strlit("FALSE");
    match m {
        ValueModel::Symbol(t) => {
            vstd::utf8::encode_utf8_valid_utf8(t);
            vstd::utf8::encode_utf8_decode_utf8(t);
        },
        ValueModel::Str(t) => {
            vstd::utf8::encode_utf8_valid_utf8(t);
            vstd::utf8::encode_utf8_decode_utf8(t);
        },
        ValueModel::Bool(b) => {
            vstd::utf8::encode_utf8_valid_utf8("TRUE"@);
            vstd::utf8::encode_utf8_decode_utf8("TRUE"@);
            vstd::utf8::encode_utf8_valid_utf8("FALSE"@);
            vstd::utf8::encode_utf8_decode_utf8("FALSE"@);
            assert("TRUE"@ != "FALSE"@);
        },
        ValueModel::Multifield(ms) => {
            let rs = outbound(m)->Multifield_0;
            lemma_items_outbound_inbound(ms, rs, 0);
            assert(ms.skip(0) =~= ms);
        },
        _ => {},
    }
}

proof fn lemma_items_outbound_inbound(ms: Seq<ValueModel>, rs: Seq<RawModel>, k: int)
    requires
        0 <= k <= ms.len(),
        rs.len() == ms.len(),
        forall|i: int| 0 <= i < ms.len() ==> rs[i] == outbound(#[trigger] ms[i]),
        forall|i: int| 0 <= i < ms.len() ==> no_boolean_symbol(#[trigger] ms[i]),
    ensures
        inbound_items(rs, k) == Ok::<Seq<ValueModel>, UDFConversionError>(ms.skip(k)),
    decreases ms, ms.len() - k,
{
    if k < ms.len() {
        lemma_outbound_inbound(ms[k]);
        lemma_items_outbound_inbound(ms, rs, k + 1);
        assert(seq![ms[k]] + ms.skip(k + 1) =~= ms.skip(k));
    } else {
        assert(ms.skip(k) =~= Seq::<ValueModel>::empty());
    }
}

/// An engine value that the host can read, read and written back, is the
/// same engine value.
pub proof fn lemma_inbound_outbound(r: RawModel)
    requires
        inbound(r) is Ok,
    ensures
        outbound(inbound(r)->Ok_0) == r,
    decreases r, 1int,
{
    reveal_strlit("TRUE");
    reveal_strlit("FALSE");
    match r {
        RawModel::Symbol(b) => {
            vstd::utf8::decode_utf8_encode_utf8(b);
        },
        RawModel::Str(b) => {
            vstd::utf8::decode_utf8_encode_utf8(b);
        },
        RawModel::Multifield(rs) => {
            lemma_items_inbound_outbound(rs, 0);
            let ms = inbound_items(rs, 0)->Ok_0;
            assert(outbound(inbound(r)->Ok_0)->Multifield_0 =~= rs);
        },
        _ => {},
    }
}

proof fn lemma_items_inbound_outbound(rs: Seq<RawModel>, k: int)
    requires
        0 <= k <= rs.len(),
        inbound_items(rs, k) is Ok,
    ensures
        inbound_items(rs, k)->Ok_0.len() == rs.len() - k,
        forall|i: int| 0 <= i < rs.len() - k ==> outbound(#[trigger] inbound_items(rs, k)->Ok_0[i]) == rs[k + i],
    decreases rs, rs.len() - k,
{
    if k < rs.len() {
        lemma_inbound_outbound(rs[k]);
        lemma_items_inbound_outbound(rs, k + 1);
        let ms = inbound_items(rs, k)->Ok_0;
        let rest = inbound_items(rs, k + 1)->Ok_0;
        assert forall|i: int| 0 <= i < rs.len() - k implies outbound(#[trigger] ms[i]) == rs[k + i] by {
            if i > 0 {
                assert(ms[i] == rest[i - 1]);
            }
        }
    }
}

/// A symbol, as a host value distinct from a string.
pub struct CLIPSSymbol(pub String);

/// An instance name, as a host value distinct from a string.
pub struct CLIPSInstanceName(pub String);

/// The text of a lexeme's bytes, or why there is none.
pub open spec fn lexeme_text(b: Seq<u8>) -> Result<Seq<char>, UDFConversionError> {
    if valid_utf8(b) {
        Ok(decode_utf8(b))
    } else {
        Err(UDFConversionError::ValueNotUnicode)
    }
}

fn read_lexeme(b: &Vec<u8>) -> (r: Result<String, UDFConversionError>)
    ensures
        r matches Ok(t) ==> lexeme_text(b@) == Ok::<Seq<char>, UDFConversionError>(t@),
        r matches Err(e) ==> lexeme_text(b@) == Err::<Seq<char>, UDFConversionError>(e),
{
    match text_from_bytes(copy_bytes(b)) {
        Some(t) => Ok(t),
        None => Err(UDFConversionError::ValueNotUnicode),
    }
}

impl RawValue {
    /// The integer of an integer value.
    pub fn to_integer(&self) -> (r: Result<i64, UDFConversionError>)
        ensures
            r == (match self {
                RawValue::Integer(i) => Ok(*i),
                _ => Err(UDFConversionError::InvalidType(ValueKind::Integer)),
            }),
    {
        match self {
            RawValue::Integer(i) => Ok(*i),
            _ => Err(UDFConversionError::InvalidType(ValueKind::Integer)),
        }
    }

    /// The integer of an integer value, taken modulo the width of `usize`.
    pub fn to_usize(&self) -> (r: Result<usize, UDFConversionError>)
        ensures
            r == (match self {
                RawValue::Integer(i) => Ok(*i as usize),
                _ => Err(UDFConversionError::InvalidType(ValueKind::Integer)),
            }),
    {
        match self {
            RawValue::Integer(i) => Ok(*i as usize),
            _ => Err(UDFConversionError::InvalidType(ValueKind::Integer)),
        }
    }

    /// The integer of an integer value, taken modulo 2 to the 64.
    pub fn to_u64(&self) -> (r: Result<u64, UDFConversionError>)
        ensures
            r == (match self {
                RawValue::Integer(i) => Ok(*i as u64),
                _ => Err(UDFConversionError::InvalidType(ValueKind::Integer)),
            }),
    {
        match self {
            RawValue::Integer(i) => Ok(*i as u64),
            _ => Err(UDFConversionError::InvalidType(ValueKind::Integer)),
        }
    }

    /// The bit pattern of a float value.
    pub fn to_float_bits(&self) -> (r: Result<u64, UDFConversionError>)
        ensures
            r == (match self {
                RawValue::Float(b) => Ok(*b),
                _ => Err(UDFConversionError::InvalidType(ValueKind::Float)),
            }),
    {
        match self {
            RawValue::Float(b) => Ok(*b),
            _ => Err(UDFConversionError::InvalidType(ValueKind::Float)),
        }
    }

    /// The text of a string value.
    pub fn to_text(&self) -> (r: Result<String, UDFConversionError>)
        ensures
            match self {
                RawValue::String(b) => match r {
                    Ok(t) => lexeme_text(b@) == Ok::<Seq<char>, UDFConversionError>(t@),
                    Err(e) => lexeme_text(b@) == Err::<Seq<char>, UDFConversionError>(e),
                },
                _ => r == Err::<String, UDFConversionError>(UDFConversionError::InvalidType(ValueKind::String)),
            },
    {
        match self {
            RawValue::String(b) => read_lexeme(b),
            _ => Err(UDFConversionError::InvalidType(ValueKind::String)),
        }
    }

    /// The text of a symbol value.
    pub fn to_symbol(&self) -> (r: Result<CLIPSSymbol, UDFConversionError>)
        ensures
            match self {
                RawValue::Symbol(b) => match r {
                    Ok(t) => lexeme_text(b@) == Ok::<Seq<char>, UDFConversionError>(t.0@),
                    Err(e) => lexeme_text(b@) == Err::<Seq<char>, UDFConversionError>(e),
                },
                _ => r matches Err(e) && e == UDFConversionError::InvalidType(ValueKind::Symbol),
            },
    {
        match self {
            RawValue::Symbol(b) => match read_lexeme(b) {
                Ok(t) => Ok(CLIPSSymbol(t)),
                Err(e) => Err(e),
            },
            _ => Err(UDFConversionError::InvalidType(ValueKind::Symbol)),
        }
    }

    /// The text of an instance-name value.
    pub fn to_instance_name(&self) -> (r: Result<CLIPSInstanceName, UDFConversionError>)
        ensures
            match self {
                RawValue::InstanceName(b) => match r {
                    Ok(t) => lexeme_text(b@) == Ok::<Seq<char>, UDFConversionError>(t.0@),
                    Err(e) => lexeme_text(b@) == Err::<Seq<char>, UDFConversionError>(e),
                },
                _ => r matches Err(e) && e == UDFConversionError::InvalidType(ValueKind::InstanceName),
            },
    {
        match self {
            RawValue::InstanceName(b) => match read_lexeme(b) {
                Ok(t) => Ok(CLIPSInstanceName(t)),
                Err(e) => Err(e),
            },
            _ => Err(UDFConversionError::InvalidType(ValueKind::InstanceName)),
        }
    }

    /// The boolean of one of the symbols `TRUE` and `FALSE`; any other
    /// symbol, whether or not its bytes are text, is not a boolean.
    pub fn to_bool(&self) -> (r: Result<bool, UDFConversionError>)
        ensures
            r == (match self {
                RawValue::Symbol(b) => if valid_utf8(b@) && decode_utf8(b@) == "TRUE"@ {
                    Ok(true)
                } else if valid_utf8(b@) && decode_utf8(b@) == "FALSE"@ {
                    Ok(false)
                } else {
                    Err(UDFConversionError::ValueNotBoolean)
                },
                _ => Err(UDFConversionError::InvalidType(ValueKind::Boolean)),
            }),
    {
        match self {
            RawValue::Symbol(b) => {
                let text = text_from_bytes(copy_bytes(b));
                match text {
                    None => Err(UDFConversionError::ValueNotBoolean),
                    Some(_) => {
                        let tb = text_bytes("TRUE");
                        let fb = text_bytes("FALSE");
                        proof {
                            vstd::utf8::encode_utf8_decode_utf8("TRUE"@);
                            vstd::utf8::encode_utf8_decode_utf8("FALSE"@);
                            vstd::utf8::decode_utf8_encode_utf8(b@);
                        }
                        if bytes_equal(b, &tb) {
                            Ok(true)
                        } else if bytes_equal(b, &fb) {
                            Ok(false)
                        } else {
                            Err(UDFConversionError::ValueNotBoolean)
                        }
                    },
                }
            },
            _ => Err(UDFConversionError::InvalidType(ValueKind::Boolean)),
        }
    }
}

} // verus!
