use vstd::prelude::*;

use crate::text::{
    at, int_text, is_digit, lemma_at_concat, lemma_at_index, lemma_nat_text, nat_text, parse_nat,
    parse_quoted, push_char, push_text, quoted, text_chars, write_int, write_nat, write_quoted,
};
use vstd::string::*;
use crate::value::{lemma_multifield_model, model, models, CLIPSValue, ValueModel};

verus! {

/// The interchange text of a value: a one-key object naming the variant, as
/// in `{"Int":5}` or `{"Multifield":[{"Symbol":"a"},{"Bool":true}]}`. A float
/// is written as the decimal number of its bit pattern.
pub open spec fn encoding(m: ValueModel) -> Seq<char>
    decreases m, 0int,
{
    match m {
        ValueModel::Symbol(t) => "{\"Symbol\":"@ + quoted(t) + seq!['}'],
        ValueModel::Int(i) => "{\"Int\":"@ + int_text(i) + seq!['}'],
        ValueModel::Str(t) => "{\"String\":"@ + quoted(t) + seq!['}'],
        ValueModel::Float(b) => "{\"Float\":"@ + nat_text(b as nat) + seq!['}'],
        ValueModel::Bool(b) => if b {
            "{\"Bool\":true}"@
        } else {
            "{\"Bool\":false}"@
        },
        ValueModel::Multifield(ms) => "{\"Multifield\":["@ + items_text(ms, 0) + seq![']', '}'],
    }
}

/// The texts of the elements from index `k` on, separated by commas (with a
/// comma before the first of them unless `k` is 0).
pub open spec fn items_text(ms: Seq<ValueModel>, k: int) -> Seq<char>
    decreases ms, ms.len() - k,
{
    if k < 0 || k >= ms.len() {
        Seq::empty()
    } else {
        (if k > 0 {
            seq![',']
        } else {
            Seq::empty()
        }) + encoding(ms[k]) + items_text(ms, k + 1)
    }
}

proof fn lemma_at_three(s: Seq<char>, pos: int, a: Seq<char>, b: Seq<char>, c: Seq<char>)
    requires
        at(s, pos, a),
        at(s, pos + a.len(), b),
        at(s, pos + a.len() + b.len(), c),
    ensures
        at(s, pos, a + b + c),
{
    lemma_at_concat(s, pos, a, b);
    lemma_at_concat(s, pos, a + b, c);
}

proof fn lemma_at_one(s: Seq<char>, pos: int, c: char)
    requires
        0 <= pos < s.len(),
        s[pos] == c,
    ensures
        at(s, pos, seq![c]),
{
    assert(s.subrange(pos, pos + 1) =~= seq![c]);
}

/// Every encoding starts with `{`; the variant tags tell the encodings apart.
proof fn lemma_tags(s: Seq<char>, pos: int)
    ensures
        at(s, pos, "{\"Symbol\":"@) ==> s[pos] == '{' && s[pos + 2] == 'S' && s[pos + 3] == 'y',
        at(s, pos, "{\"Int\":"@) ==> s[pos] == '{' && s[pos + 2] == 'I',
        at(s, pos, "{\"String\":"@) ==> s[pos] == '{' && s[pos + 2] == 'S' && s[pos + 3] == 't',
        at(s, pos, "{\"Float\":"@) ==> s[pos] == '{' && s[pos + 2] == 'F',
        at(s, pos, "{\"Bool\":true}"@) ==> s[pos] == '{' && s[pos + 2] == 'B' && s[pos + 8]
            == 't',
        at(s, pos, "{\"Bool\":false}"@) ==> s[pos] == '{' && s[pos + 2] == 'B' && s[pos + 8]
            == 'f',
        at(s, pos, "{\"Multifield\":["@) ==> s[pos] == '{' && s[pos + 2] == 'M',
{
    reveal_strlit("{\"Symbol\":");
    reveal_strlit("{\"Int\":");
    reveal_strlit("{\"String\":");
    reveal_strlit("{\"Float\":");
    reveal_strlit("{\"Bool\":true}");
    reveal_strlit("{\"Bool\":false}");
    reveal_strlit("{\"Multifield\":[");
    if at(s, pos, "{\"Symbol\":"@) {
        lemma_at_index(s, pos, "{\"Symbol\":"@, 0);
        lemma_at_index(s, pos, "{\"Symbol\":"@, 2);
        lemma_at_index(s, pos, "{\"Symbol\":"@, 3);
    }
    if at(s, pos, "{\"Int\":"@) {
        lemma_at_index(s, pos, "{\"Int\":"@, 0);
        lemma_at_index(s, pos, "{\"Int\":"@, 2);
    }
    if at(s, pos, "{\"String\":"@) {
        lemma_at_index(s, pos, "{\"String\":"@, 0);
        lemma_at_index(s, pos, "{\"String\":"@, 2);
        lemma_at_index(s, pos, "{\"String\":"@, 3);
    }
    if at(s, pos, "{\"Float\":"@) {
        lemma_at_index(s, pos, "{\"Float\":"@, 0);
        lemma_at_index(s, pos, "{\"Float\":"@, 2);
    }
    if at(s, pos, "{\"Bool\":true}"@) {
        lemma_at_index(s, pos, "{\"Bool\":true}"@, 0);
        lemma_at_index(s, pos, "{\"Bool\":true}"@, 2);
        lemma_at_index(s, pos, "{\"Bool\":true}"@, 8);
    }
    if at(s, pos, "{\"Bool\":false}"@) {
        lemma_at_index(s, pos, "{\"Bool\":false}"@, 0);
        lemma_at_index(s, pos, "{\"Bool\":false}"@, 2);
        lemma_at_index(s, pos, "{\"Bool\":false}"@, 8);
    }
    if at(s, pos, "{\"Multifield\":["@) {
        lemma_at_index(s, pos, "{\"Multifield\":["@, 0);
        lemma_at_index(s, pos, "{\"Multifield\":["@, 2);
    }
}

/// Writes the interchange text of `v`.
pub fn encode_into(out: &mut String, v: &CLIPSValue)
    ensures
        final(out)@ == old(out)@ + encoding(model(*v)),
    decreases v, 0int,
{
    match v {
        CLIPSValue::Symbol(t) => {
            push_text(out, "{\"Symbol\":");
            write_quoted(out, t);
            push_char(out, '}');
        },
        CLIPSValue::Int(i) => {
            push_text(out, "{\"Int\":");
            write_int(out, *i);
            push_char(out, '}');
        },
        CLIPSValue::String(t) => {
            push_text(out, "{\"String\":");
            write_quoted(out, t);
            push_char(out, '}');
        },
        CLIPSValue::Float(b) => {
            push_text(out, "{\"Float\":");
            write_nat(out, *b);
            push_char(out, '}');
        },
        CLIPSValue::Bool(b) => {
            if *b {
                push_text(out, "{\"Bool\":true}");
            } else {
                push_text(out, "{\"Bool\":false}");
            }
        },
        CLIPSValue::Multifield(vs) => {
            push_text(out, "{\"Multifield\":[");
            write_items(out, vs, 0);
            push_char(out, ']');
            push_char(out, '}');
            proof {
                lemma_multifield_model(*vs);
            }
        },
    }
    assert(out@ =~= old(out)@ + encoding(model(*v)));
}

/// Writes the elements of `vs` from index `k` on.
fn write_items(out: &mut String, vs: &Vec<CLIPSValue>, k: usize)
    requires
        k <= vs@.len(),
    ensures
        final(out)@ == old(out)@ + items_text(models(vs@), k as int),
    decreases vs, vs@.len() - k,
{
    if k >= vs.len() {
        assert(out@ =~= old(out)@ + items_text(models(vs@), k as int));
        return;
    }
    if k > 0 {
        push_char(out, ',');
    }
    encode_into(out, &vs[k]);
    write_items(out, vs, k + 1);
    assert(out@ =~= old(out)@ + items_text(models(vs@), k as int));
}

/// The interchange text of `v`.
pub fn encode(v: &CLIPSValue) -> (r: String)
    ensures
        r@ == encoding(model(*v)),
{
    let mut out = String::new();
    encode_into(&mut out, v);
    assert(out@ =~= encoding(model(*v)));
    out
}

/// Whether the text `lit` occurs in `s` at `pos`.
fn expect(s: &Vec<char>, pos: usize, lit: &str) -> (r: bool)
    requires
        pos <= s@.len(),
    ensures
        r == at(s@, pos as int, lit@),
{
    let n = lit.unicode_len();
    if n > s.len() - pos {
        return false;
    }
    let mut j: usize = 0;
    while j < n
        invariant
            n == lit@.len(),
            pos + n <= s@.len(),
            s@.len() == s.len(),
            0 <= j <= n,
            forall|jj: int| 0 <= jj < j ==> s@[pos + jj] == lit@[jj],
        decreases n - j,
    {
        if s[pos + j] != lit.get_char(j) {
            proof {
                if at(s@, pos as int, lit@) {
                    lemma_at_index(s@, pos as int, lit@, j as int);
                }
            }
            return false;
        }
        j = j + 1;
    }
    assert(s@.subrange(pos as int, pos + n) =~= lit@);
    true
}

/// What the encoding of `v` is made of, piece by piece, where it occurs at
/// `pos`.
proof fn lemma_value_parts(s: Seq<char>, pos: int, v: CLIPSValue)
    requires
        at(s, pos, encoding(model(v))),
    ensures
        s[pos] == '{',
        match v {
            CLIPSValue::Symbol(t) => at(s, pos, "{\"Symbol\":"@) && at(s, pos + 10, quoted(t@))
                && at(s, pos + 10 + quoted(t@).len(), seq!['}']),
            CLIPSValue::Int(i) => at(s, pos, "{\"Int\":"@) && at(s, pos + 7, int_text(i as int))
                && at(s, pos + 7 + int_text(i as int).len(), seq!['}']),
            CLIPSValue::String(t) => at(s, pos, "{\"String\":"@) && at(s, pos + 10, quoted(t@))
                && at(s, pos + 10 + quoted(t@).len(), seq!['}']),
            CLIPSValue::Float(b) => at(s, pos, "{\"Float\":"@) && at(s, pos + 9, nat_text(b as nat))
                && at(s, pos + 9 + nat_text(b as nat).len(), seq!['}']),
            CLIPSValue::Bool(b) => if b {
                at(s, pos, "{\"Bool\":true}"@)
            } else {
                at(s, pos, "{\"Bool\":false}"@)
            },
            CLIPSValue::Multifield(vs) => at(s, pos, "{\"Multifield\":["@) && at(
                s,
                pos + 15,
                items_text(models(vs@), 0),
            ) && at(s, pos + 15 + items_text(models(vs@), 0).len(), seq![']', '}']),
        },
{
    reveal_strlit("{\"Symbol\":");
    reveal_strlit("{\"Int\":");
    reveal_strlit("{\"String\":");
    reveal_strlit("{\"Float\":");
    reveal_strlit("{\"Bool\":true}");
    reveal_strlit("{\"Bool\":false}");
    reveal_strlit("{\"Multifield\":[");
    match v {
        CLIPSValue::Symbol(t) => {
            lemma_at_concat(s, pos, "{\"Symbol\":"@ + quoted(t@), seq!['}']);
            lemma_at_concat(s, pos, "{\"Symbol\":"@, quoted(t@));
        },
        CLIPSValue::Int(i) => {
            lemma_at_concat(s, pos, "{\"Int\":"@ + int_text(i as int), seq!['}']);
            lemma_at_concat(s, pos, "{\"Int\":"@, int_text(i as int));
        },
        CLIPSValue::String(t) => {
            lemma_at_concat(s, pos, "{\"String\":"@ + quoted(t@), seq!['}']);
            lemma_at_concat(s, pos, "{\"String\":"@, quoted(t@));
        },
        CLIPSValue::Float(b) => {
            lemma_at_concat(s, pos, "{\"Float\":"@ + nat_text(b as nat), seq!['}']);
            lemma_at_concat(s, pos, "{\"Float\":"@, nat_text(b as nat));
        },
        CLIPSValue::Bool(b) => {},
        CLIPSValue::Multifield(vs) => {
            lemma_multifield_model(vs);
            lemma_at_concat(s, pos, "{\"Multifield\":["@ + items_text(models(vs@), 0), seq![']', '}']);
            lemma_at_concat(s, pos, "{\"Multifield\":["@, items_text(models(vs@), 0));
        },
    }
    lemma_tags(s, pos);
}

/// What remains of a multifield's items at the reading position once `k` of
/// them have been read.
spec fn rest_of_items(ms: Seq<ValueModel>, k: int) -> Seq<char> {
    if k < ms.len() {
        encoding(ms[k]) + items_text(ms, k + 1)
    } else {
        Seq::empty()
    }
}

/// The state of reading the items of the multifield `v` encoded at `pos`:
/// `items` are its first elements, and `i` is where the next one starts.
spec fn items_read(s: Seq<char>, pos: int, v: CLIPSValue, items: Seq<CLIPSValue>, i: int, more: bool) -> bool {
    &&& v is Multifield
    &&& {
        let ms = models(v->Multifield_0@);
        let k = items.len() as int;
        &&& k <= ms.len()
        &&& forall|j: int| 0 <= j < k ==> #[trigger] model(items[j]) == ms[j]
        &&& (more <==> k < ms.len())
        &&& at(s, i, rest_of_items(ms, k) + seq![']', '}'])
        &&& i + rest_of_items(ms, k).len() == pos + 15 + items_text(ms, 0).len()
    }
}

proof fn lemma_items_unfold(ms: Seq<ValueModel>, k: int)
    requires
        0 <= k < ms.len(),
    ensures
        items_text(ms, k) == (if k > 0 { seq![','] } else { Seq::<char>::empty() }) + rest_of_items(ms, k),
        k + 1 == ms.len() ==> items_text(ms, k + 1) == Seq::<char>::empty(),
        k + 1 < ms.len() ==> items_text(ms, k + 1) == seq![','] + rest_of_items(ms, k + 1),
{
    assert(items_text(ms, k) =~= (if k > 0 { seq![','] } else { Seq::<char>::empty() }) + rest_of_items(ms, k));
    if k + 1 < ms.len() {
        assert(items_text(ms, k + 1) =~= seq![','] + rest_of_items(ms, k + 1));
    }
}

/// Reads one value at `pos`; the encoding of every value reads back as that
/// value.
pub fn parse_value(s: &Vec<char>, pos: usize) -> (r: Option<(CLIPSValue, usize)>)
    requires
        pos <= s@.len(),
    ensures
        r matches Some((_, e)) ==> pos < e <= s@.len(),
        r matches Some((w, e)) ==> at(s@, pos as int, encoding(model(w))) && e == pos + encoding(
            model(w),
        ).len(),
        forall|v: CLIPSValue|
            #![trigger encoding(model(v))]
            at(s@, pos as int, encoding(model(v))) ==> (r matches Some((w, e)) && model(w)
                == model(v) && e == pos + encoding(model(v)).len()),
    decreases s@.len() - pos,
{
    let len = s.len();
    proof {
        reveal_strlit("{\"Symbol\":");
        reveal_strlit("{\"Int\":");
        reveal_strlit("{\"String\":");
        reveal_strlit("{\"Float\":");
        reveal_strlit("{\"Bool\":true}");
        reveal_strlit("{\"Bool\":false}");
        reveal_strlit("{\"Multifield\":[");
    }
    if expect(s, pos, "{\"Symbol\":") {
        let q = parse_quoted(s, pos + 10);
        if let Some((t, e)) = q {
            if e < s.len() && s[e] == '}' {
                proof {
                    assert forall|v: CLIPSValue| #![trigger encoding(model(v))] at(s@, pos as int, encoding(model(v))) implies model(CLIPSValue::Symbol(t)) == model(v) && e + 1 == pos + encoding(model(v)).len() by {
                        lemma_value_parts(s@, pos as int, v);
                        lemma_tags(s@, pos as int);
                    }
                }
                proof {
                    lemma_at_one(s@, e as int, '}');
                    lemma_at_three(s@, pos as int, "{\"Symbol\":"@, quoted(t@), seq!['}']);
                }
                return Some((CLIPSValue::Symbol(t), e + 1));
            }
        }
        proof {
            assert forall|v: CLIPSValue| #![trigger encoding(model(v))] at(s@, pos as int, encoding(model(v))) implies false by {
                lemma_value_parts(s@, pos as int, v);
                lemma_tags(s@, pos as int);
                let t0 = v->Symbol_0@;
                lemma_at_index(s@, pos + 10 + quoted(t0).len(), seq!['}'], 0);
            }
        }
        return None;
    }
    if expect(s, pos, "{\"String\":") {
        let q = parse_quoted(s, pos + 10);
        if let Some((t, e)) = q {
            if e < s.len() && s[e] == '}' {
                proof {
                    assert forall|v: CLIPSValue| #![trigger encoding(model(v))] at(s@, pos as int, encoding(model(v))) implies model(CLIPSValue::String(t)) == model(v) && e + 1 == pos + encoding(model(v)).len() by {
                        lemma_value_parts(s@, pos as int, v);
                        lemma_tags(s@, pos as int);
                    }
                }
                proof {
                    lemma_at_one(s@, e as int, '}');
                    lemma_at_three(s@, pos as int, "{\"String\":"@, quoted(t@), seq!['}']);
                }
                return Some((CLIPSValue::String(t), e + 1));
            }
        }
        proof {
            assert forall|v: CLIPSValue| #![trigger encoding(model(v))] at(s@, pos as int, encoding(model(v))) implies false by {
                lemma_value_parts(s@, pos as int, v);
                lemma_tags(s@, pos as int);
                let t0 = v->String_0@;
                lemma_at_index(s@, pos + 10 + quoted(t0).len(), seq!['}'], 0);
            }
        }
        return None;
    }
    if expect(s, pos, "{\"Float\":") {
        let q = parse_nat(s, pos + 9);
        if let Some((b, e)) = q {
            if e < s.len() && s[e] == '}' {
                proof {
                    assert forall|v: CLIPSValue| #![trigger encoding(model(v))] at(s@, pos as int, encoding(model(v))) implies model(CLIPSValue::Float(b)) == model(v) && e + 1 == pos + encoding(model(v)).len() by {
                        lemma_value_parts(s@, pos as int, v);
                        lemma_tags(s@, pos as int);
                        let b0 = v->Float_0;
                        lemma_at_concat(s@, pos + 9, nat_text(b0 as nat), seq!['}']);
                    }
                }
                proof {
                    lemma_at_one(s@, e as int, '}');
                    lemma_at_three(s@, pos as int, "{\"Float\":"@, nat_text(b as nat), seq!['}']);
                }
                return Some((CLIPSValue::Float(b), e + 1));
            }
        }
        proof {
            assert forall|v: CLIPSValue| #![trigger encoding(model(v))] at(s@, pos as int, encoding(model(v))) implies false by {
                lemma_value_parts(s@, pos as int, v);
                lemma_tags(s@, pos as int);
                let b0 = v->Float_0;
                lemma_at_concat(s@, pos + 9, nat_text(b0 as nat), seq!['}']);
                lemma_at_index(s@, pos + 9 + nat_text(b0 as nat).len(), seq!['}'], 0);
            }
        }
        return None;
    }
    if expect(s, pos, "{\"Int\":") {
        let p = pos + 7;
        proof {
            assert forall|v: CLIPSValue| #![trigger encoding(model(v))] at(s@, pos as int, encoding(model(v))) implies (v is Int && p < s@.len() && (s@[p as int] == '-' <==> v->Int_0 < 0) && (v->Int_0 < 0 ==> at(s@, p + 1, nat_text((-v->Int_0) as nat) + seq!['}'])) && (v->Int_0 >= 0 ==> at(s@, p as int, nat_text(v->Int_0 as nat) + seq!['}']))) by {
                lemma_value_parts(s@, pos as int, v);
                lemma_tags(s@, pos as int);
                let i0 = v->Int_0 as int;
                if i0 < 0 {
                    let n0 = (-i0) as nat;
                    lemma_at_concat(s@, p as int, seq!['-'], nat_text(n0));
                    lemma_at_index(s@, p as int, seq!['-'], 0);
                    lemma_at_concat(s@, p + 1, nat_text(n0), seq!['}']);
                } else {
                    lemma_nat_text(i0 as nat);
                    lemma_at_index(s@, p as int, nat_text(i0 as nat), 0);
                    assert(is_digit(nat_text(i0 as nat)[0]));
                    lemma_at_concat(s@, p as int, nat_text(i0 as nat), seq!['}']);
                }
            }
        }
        if p < s.len() && s[p] == '-' {
            let q = parse_nat(s, p + 1);
            if let Some((n, e)) = q {
                if 1 <= n && n <= 9223372036854775808u64 && e < s.len() && s[e] == '}' {
                    let i: i64 = if n == 9223372036854775808u64 {
                        i64::MIN
                    } else {
                        -(n as i64)
                    };
                    proof {
                        assert forall|v: CLIPSValue| #![trigger encoding(model(v))] at(s@, pos as int, encoding(model(v))) implies model(CLIPSValue::Int(i)) == model(v) && e + 1 == pos + encoding(model(v)).len() by {
                            lemma_value_parts(s@, pos as int, v);
                        }
                    }
                    proof {
                        lemma_at_one(s@, e as int, '}');
                        lemma_at_one(s@, p as int, '-');
                        assert((-(i as int)) as nat == n as nat);
                        lemma_at_concat(s@, p as int, seq!['-'], nat_text(n as nat));
                        assert(int_text(i as int) == seq!['-'] + nat_text(n as nat));
                        lemma_at_three(s@, pos as int, "{\"Int\":"@, int_text(i as int), seq!['}']);
                    }
                    return Some((CLIPSValue::Int(i), e + 1));
                }
            }
            proof {
                assert forall|v: CLIPSValue| #![trigger encoding(model(v))] at(s@, pos as int, encoding(model(v))) implies false by {
                    let n0 = (-v->Int_0) as nat;
                    lemma_at_concat(s@, p + 1, nat_text(n0), seq!['}']);
                    lemma_at_index(s@, p + 1 + nat_text(n0).len(), seq!['}'], 0);
                }
            }
            return None;
        } else {
            let q = parse_nat(s, p);
            if let Some((n, e)) = q {
                if n <= 9223372036854775807u64 && e < s.len() && s[e] == '}' {
                    proof {
                        assert forall|v: CLIPSValue| #![trigger encoding(model(v))] at(s@, pos as int, encoding(model(v))) implies model(CLIPSValue::Int(n as i64)) == model(v) && e + 1 == pos + encoding(model(v)).len() by {
                            lemma_value_parts(s@, pos as int, v);
                        }
                    }
                    proof {
                        lemma_at_one(s@, e as int, '}');
                        assert(int_text(n as i64 as int) == nat_text(n as nat));
                        lemma_at_three(s@, pos as int, "{\"Int\":"@, int_text(n as i64 as int), seq!['}']);
                    }
                    return Some((CLIPSValue::Int(n as i64), e + 1));
                }
            }
            proof {
                assert forall|v: CLIPSValue| #![trigger encoding(model(v))] at(s@, pos as int, encoding(model(v))) implies false by {
                    let n0 = v->Int_0 as nat;
                    lemma_at_concat(s@, p as int, nat_text(n0), seq!['}']);
                    lemma_at_index(s@, p + nat_text(n0).len(), seq!['}'], 0);
                }
            }
            return None;
        }
    }
    if expect(s, pos, "{\"Bool\":true}") {
        proof {
            assert forall|v: CLIPSValue| #![trigger encoding(model(v))] at(s@, pos as int, encoding(model(v))) implies model(CLIPSValue::Bool(true)) == model(v) && pos + 13 == pos + encoding(model(v)).len() by {
                lemma_value_parts(s@, pos as int, v);
                lemma_tags(s@, pos as int);
            }
        }
        return Some((CLIPSValue::Bool(true), pos + 13));
    }
    if expect(s, pos, "{\"Bool\":false}") {
        proof {
            assert forall|v: CLIPSValue| #![trigger encoding(model(v))] at(s@, pos as int, encoding(model(v))) implies model(CLIPSValue::Bool(false)) == model(v) && pos + 14 == pos + encoding(model(v)).len() by {
                lemma_value_parts(s@, pos as int, v);
                lemma_tags(s@, pos as int);
            }
        }
        return Some((CLIPSValue::Bool(false), pos + 14));
    }
    if expect(s, pos, "{\"Multifield\":[") {
        return parse_multifield(s, pos);
    }
    proof {
        assert forall|v: CLIPSValue| #![trigger encoding(model(v))] at(s@, pos as int, encoding(model(v))) implies false by {
            lemma_value_parts(s@, pos as int, v);
        }
    }
    None
}

/// The items' text after one more element is appended.
proof fn lemma_items_push(ms: Seq<ValueModel>, m: ValueModel, k: int)
    requires
        0 <= k <= ms.len(),
    ensures
        items_text(ms.push(m), k) == items_text(ms, k) + (if ms.len() > 0 { seq![','] } else { Seq::<char>::empty() }) + encoding(m),
    decreases ms.len() - k,
{
    let sep = if ms.len() > 0 { seq![','] } else { Seq::<char>::empty() };
    let pre = if k > 0 { seq![','] } else { Seq::<char>::empty() };
    if k == ms.len() {
        assert(items_text(ms.push(m), k + 1) =~= Seq::<char>::empty());
        assert(items_text(ms, k) =~= Seq::<char>::empty());
        assert(ms.push(m)[k] == m);
        assert(items_text(ms.push(m), k) =~= pre + encoding(m) + Seq::<char>::empty());
        assert(items_text(ms.push(m), k) =~= items_text(ms, k) + sep + encoding(m));
    } else {
        lemma_items_push(ms, m, k + 1);
        assert(ms.push(m)[k] == ms[k]);
        assert(items_text(ms.push(m), k) =~= items_text(ms, k) + sep + encoding(m));
    }
}

/// Reads the items of a multifield whose opening text stands at `pos`.
fn parse_multifield(s: &Vec<char>, pos: usize) -> (r: Option<(CLIPSValue, usize)>)
    requires
        pos <= s@.len(),
        at(s@, pos as int, "{\"Multifield\":["@),
    ensures
        r matches Some((_, e)) ==> pos < e <= s@.len(),
        r matches Some((w, e)) ==> at(s@, pos as int, encoding(model(w))) && e == pos + encoding(
            model(w),
        ).len(),
        forall|v: CLIPSValue|
            #![trigger encoding(model(v))]
            at(s@, pos as int, encoding(model(v))) ==> (r matches Some((w, e)) && model(w)
                == model(v) && e == pos + encoding(model(v)).len()),
    decreases s@.len() - pos, 0int,
{
    let len = s.len();
    proof {
        reveal_strlit("{\"Multifield\":[");
    }
    let mut items: Vec<CLIPSValue> = Vec::new();
    let mut i: usize = pos + 15;
    let mut more: bool = !(i < s.len() && s[i] == ']');
    proof {
        assert(items_text(models(items@), 0) =~= Seq::<char>::empty());
        assert(s@.subrange(pos + 15, pos + 15) =~= Seq::<char>::empty());
    }
    proof {
        assert forall|v: CLIPSValue| #![trigger encoding(model(v))] at(s@, pos as int, encoding(model(v))) implies items_read(s@, pos as int, v, items@, i as int, more) by {
            lemma_value_parts(s@, pos as int, v);
            lemma_tags(s@, pos as int);
            let vs = v->Multifield_0;
            let ms = models(vs@);
            if ms.len() == 0 {
                assert(items_text(ms, 0) =~= Seq::<char>::empty());
                assert(rest_of_items(ms, 0) + seq![']', '}'] =~= seq![']', '}']);
                lemma_at_index(s@, i as int, seq![']', '}'], 0);
            } else {
                lemma_items_unfold(ms, 0);
                assert(items_text(ms, 0) =~= rest_of_items(ms, 0));
                lemma_at_concat(s@, i as int, rest_of_items(ms, 0), seq![']', '}']);
                lemma_at_concat(s@, i as int, encoding(ms[0]), items_text(ms, 1));
                lemma_value_parts(s@, i as int, vs[0]);
            }
        }
    }
    while more
        invariant
            pos + 15 <= i <= s@.len(),
            at(s@, pos + 15, items_text(models(items@), 0)),
            i == pos + 15 + items_text(models(items@), 0).len() + (if more && items@.len() > 0 { 1int } else { 0int }),
            more && items@.len() > 0 ==> s@[i - 1] == ',',
            forall|v: CLIPSValue|
                #![trigger encoding(model(v))]
                at(s@, pos as int, encoding(model(v))) ==> items_read(s@, pos as int, v, items@, i as int, more),
        decreases s@.len() - i,
    {
        let q = parse_value(s, i);
        match q {
            None => {
                proof {
                    assert forall|v: CLIPSValue| #![trigger encoding(model(v))] at(s@, pos as int, encoding(model(v))) implies false by {
                        let vs = v->Multifield_0;
                        let ms = models(vs@);
                        let k = items@.len() as int;
                        lemma_at_concat(s@, i as int, rest_of_items(ms, k), seq![']', '}']);
                        lemma_at_concat(s@, i as int, encoding(ms[k]), items_text(ms, k + 1));
                        assert(encoding(ms[k]) == encoding(model(vs[k])));
                    }
                }
                return None;
            },
            Some((w, e)) => {
                let ghost before = items@;
                let ghost i0 = i;
                items.push(w);
                proof {
                    let old_ms = models(before);
                    let sep = if old_ms.len() > 0 { seq![','] } else { Seq::<char>::empty() };
                    assert(models(items@) =~= old_ms.push(model(w)));
                    lemma_items_push(old_ms, model(w), 0);
                    if old_ms.len() > 0 {
                        lemma_at_one(s@, i0 - 1, ',');
                    } else {
                        assert(s@.subrange(i0 as int, i0 as int) =~= Seq::<char>::empty());
                    }
                    lemma_at_three(s@, pos + 15, items_text(old_ms, 0), sep, encoding(model(w)));
                }
                if e < s.len() && s[e] == ',' {
                    i = e + 1;
                } else {
                    i = e;
                    more = false;
                }
                proof {
                    assert forall|v: CLIPSValue| #![trigger encoding(model(v))] at(s@, pos as int, encoding(model(v))) implies items_read(s@, pos as int, v, items@, i as int, more) by {
                        let vs = v->Multifield_0;
                        let ms = models(vs@);
                        let k = before.len() as int;
                        lemma_at_concat(s@, i0 as int, rest_of_items(ms, k), seq![']', '}']);
                        lemma_at_concat(s@, i0 as int, encoding(ms[k]), items_text(ms, k + 1));
                        assert(encoding(ms[k]) == encoding(model(vs[k])));
                        lemma_items_unfold(ms, k);
                        lemma_at_concat(s@, i0 as int, encoding(ms[k]), items_text(ms, k + 1) + seq![']', '}']);
                        assert(rest_of_items(ms, k) + seq![']', '}'] =~= encoding(ms[k]) + (items_text(ms, k + 1) + seq![']', '}']));
                        if k + 1 < ms.len() {
                            lemma_at_concat(s@, e as int, seq![','], rest_of_items(ms, k + 1) + seq![']', '}']);
                            assert(items_text(ms, k + 1) + seq![']', '}'] =~= seq![','] + (rest_of_items(ms, k + 1) + seq![']', '}']));
                            lemma_at_index(s@, e as int, seq![','], 0);
                        } else {
                            assert(items_text(ms, k + 1) + seq![']', '}'] =~= seq![']', '}']);
                            lemma_at_index(s@, e as int, seq![']', '}'], 0);
                            assert(rest_of_items(ms, k + 1) + seq![']', '}'] =~= seq![']', '}']);
                        }
                        assert forall|j: int| 0 <= j < items@.len() implies #[trigger] model(items@[j]) == ms[j] by {
                            if j < k {
                                assert(items@[j] == before[j]);
                            }
                        }
                    }
                }
            },
        }
    }
    if i < s.len() && s[i] == ']' && i + 1 < s.len() && s[i + 1] == '}' {
        let ghost fin = items@;
        proof {
            lemma_multifield_model(items);
            lemma_at_one(s@, i as int, ']');
            lemma_at_one(s@, i + 1, '}');
            lemma_at_concat(s@, i as int, seq![']'], seq!['}']);
            assert(seq![']'] + seq!['}'] =~= seq![']', '}']);
            lemma_at_three(s@, pos as int, "{\"Multifield\":["@, items_text(models(fin), 0), seq![']', '}']);
        }
        proof {
            assert forall|v: CLIPSValue| #![trigger encoding(model(v))] at(s@, pos as int, encoding(model(v))) implies model(CLIPSValue::Multifield(items)) == model(v) && i + 2 == pos + encoding(model(v)).len() by {
                lemma_value_parts(s@, pos as int, v);
                let vs = v->Multifield_0;
                let ms = models(vs@);
                lemma_multifield_model(vs);
                lemma_multifield_model(items);
                assert(models(fin) =~= ms);
            }
        }
        return Some((CLIPSValue::Multifield(items), i + 2));
    }
    proof {
        assert forall|v: CLIPSValue| #![trigger encoding(model(v))] at(s@, pos as int, encoding(model(v))) implies false by {
            let vs = v->Multifield_0;
            let ms = models(vs@);
            assert(rest_of_items(ms, items@.len() as int) + seq![']', '}'] =~= seq![']', '}']);
            lemma_at_index(s@, i as int, seq![']', '}'], 0);
            lemma_at_index(s@, i as int, seq![']', '}'], 1);
        }
    }
    None
}

/// Decodes the interchange text of a value: gives a value exactly when the
/// text is the encoding of one, and then that value. So the text that
/// `encode` writes for a value decodes to that value.
pub fn decode(text: &str) -> (r: Option<CLIPSValue>)
    ensures
        r matches Some(w) ==> text@ == encoding(model(w)),
        forall|v: CLIPSValue|
            #![trigger encoding(model(v))]
            text@ == encoding(model(v)) ==> (r matches Some(w) && model(w) == model(v)),
{
    let s = text_chars(text);
    proof {
        assert(s@.subrange(0, s@.len() as int) =~= s@);
    }
    match parse_value(&s, 0) {
        Some((w, e)) => {
            if e == s.len() {
                proof {
                    assert(s@.subrange(0, e as int) =~= s@);
                }
                Some(w)
            } else {
                proof {
                    assert forall|v: CLIPSValue| #![trigger encoding(model(v))] text@ == encoding(model(v)) implies false by {
                        assert(s@.subrange(0, s@.len() as int) =~= s@);
                    }
                }
                None
            }
        },
        None => {
            proof {
                assert forall|v: CLIPSValue| #![trigger encoding(model(v))] text@ == encoding(model(v)) implies false by {
                    assert(s@.subrange(0, s@.len() as int) =~= s@);
                }
            }
            None
        },
    }
}

} // verus!
