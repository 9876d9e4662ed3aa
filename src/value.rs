use vstd::prelude::*;

verus! {

/// A value of the engine's dynamic type system, as the host sees it.
///
/// A float is carried as its IEEE-754 binary64 bit pattern, so that it passes
/// through the library unchanged.
pub enum CLIPSValue {
    Symbol(String),
    Int(i64),
    String(String),
    Float(u64),
    Bool(bool),
    Multifield(Vec<CLIPSValue>),
}

/// The mathematical meaning of a `CLIPSValue`.
pub enum ValueModel {
    Symbol(Seq<char>),
    Int(int),
    Str(Seq<char>),
    Float(u64),
    Bool(bool),
    Multifield(Seq<ValueModel>),
}

/// The model of a value: text as character sequences, a multifield as the
/// sequence of its elements' models.
pub open spec fn model(v: CLIPSValue) -> ValueModel
    decreases v,
{
    match v {
        CLIPSValue::Symbol(s) => ValueModel::Symbol(s@),
        CLIPSValue::Int(i) => ValueModel::Int(i as int),
        CLIPSValue::String(s) => ValueModel::Str(s@),
        CLIPSValue::Float(b) => ValueModel::Float(b),
        CLIPSValue::Bool(b) => ValueModel::Bool(b),
        CLIPSValue::Multifield(vs) => ValueModel::Multifield(
            Seq::new(vs.len() as nat, |i: int| if 0 <= i < vs.len() { model(vs[i]) } else { ValueModel::Bool(false) }),
        ),
    }
}

/// The models of a sequence of values.
pub open spec fn models(vs: Seq<CLIPSValue>) -> Seq<ValueModel> {
    Seq::new(vs.len(), |i: int| model(vs[i]))
}

/// The model of a multifield is the sequence of its elements' models.
pub proof fn lemma_multifield_model(vs: Vec<CLIPSValue>)
    ensures
        model(CLIPSValue::Multifield(vs)) == ValueModel::Multifield(models(vs@)),
{
    let ms = model(CLIPSValue::Multifield(vs))->Multifield_0;
    assert(ms =~= models(vs@));
}

} // verus!
