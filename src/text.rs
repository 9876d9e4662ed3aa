use vstd::prelude::*;

verus! {

/// `t` occurs in `s` starting at position `pos`.
pub open spec fn at(s: Seq<char>, pos: int, t: Seq<char>) -> bool {
    0 <= pos && pos + t.len() <= s.len() && s.subrange(pos, pos + t.len()) == t
}

pub proof fn lemma_at_concat(s: Seq<char>, pos: int, a: Seq<char>, b: Seq<char>)
    ensures
        at(s, pos, a + b) == (at(s, pos, a) && at(s, pos + a.len(), b)),
{
    if at(s, pos, a + b) {
        assert forall|j: int| 0 <= j < a.len() implies s.subrange(pos, pos + a.len())[j] == a[j] by {
            assert(s.subrange(pos, pos + (a + b).len())[j] == (a + b)[j]);
        }
        assert(s.subrange(pos, pos + a.len()) =~= a);
        assert forall|j: int| 0 <= j < b.len() implies s.subrange(
            pos + a.len(),
            pos + a.len() + b.len(),
        )[j] == b[j] by {
            assert(s.subrange(pos, pos + (a + b).len())[a.len() + j] == (a + b)[a.len() + j]);
        }
        assert(s.subrange(pos + a.len(), pos + a.len() + b.len()) =~= b);
    }
    if at(s, pos, a) && at(s, pos + a.len(), b) {
        assert forall|j: int| 0 <= j < (a + b).len() implies s.subrange(pos, pos + (a + b).len())[j]
            == (a + b)[j] by {
            if j < a.len() {
                assert(s.subrange(pos, pos + a.len())[j] == a[j]);
            } else {
                assert(s.subrange(pos + a.len(), pos + a.len() + b.len())[j - a.len()] == b[j
                    - a.len()]);
            }
        }
        assert(s.subrange(pos, pos + (a + b).len()) =~= a + b);
    }
}

pub proof fn lemma_at_index(s: Seq<char>, pos: int, t: Seq<char>, j: int)
    requires
        at(s, pos, t),
        0 <= j < t.len(),
    ensures
        s[pos + j] == t[j],
{
    assert(s.subrange(pos, pos + t.len())[j] == t[j]);
}

/// The decimal digit character for `d` (taken as 9 above 9).
pub open spec fn digit(d: int) -> char {
    if d <= 0 {
        '0'
    } else if d == 1 {
        '1'
    } else if d == 2 {
        '2'
    } else if d == 3 {
        '3'
    } else if d == 4 {
        '4'
    } else if d == 5 {
        '5'
    } else if d == 6 {
        '6'
    } else if d == 7 {
        '7'
    } else if d == 8 {
        '8'
    } else {
        '9'
    }
}

/// The value of a decimal digit character, if it is one.
pub open spec fn digit_value(c: char) -> Option<nat> {
    if c == '0' {
        Some(0)
    } else if c == '1' {
        Some(1)
    } else if c == '2' {
        Some(2)
    } else if c == '3' {
        Some(3)
    } else if c == '4' {
        Some(4)
    } else if c == '5' {
        Some(5)
    } else if c == '6' {
        Some(6)
    } else if c == '7' {
        Some(7)
    } else if c == '8' {
        Some(8)
    } else if c == '9' {
        Some(9)
    } else {
        None
    }
}

/// The shortest decimal text of `n`.
pub open spec fn nat_text(n: nat) -> Seq<char>
    decreases n,
{
    if n < 10 {
        seq![digit(n as int)]
    } else {
        nat_text(n / 10).push(digit((n % 10) as int))
    }
}

/// The decimal text of `i`, with a leading `-` when negative.
pub open spec fn int_text(i: int) -> Seq<char> {
    if i < 0 {
        seq!['-'] + nat_text((-i) as nat)
    } else {
        nat_text(i as nat)
    }
}

pub open spec fn is_digit(c: char) -> bool {
    digit_value(c) is Some
}

/// The number that a sequence of digit characters denotes.
pub open spec fn digits_value(d: Seq<char>) -> nat
    decreases d.len(),
{
    if d.len() == 0 {
        0
    } else {
        digits_value(d.drop_last()) * 10 + match digit_value(d.last()) {
            Some(x) => x,
            None => 0,
        }
    }
}

proof fn lemma_digit_roundtrip(d: int)
    requires
        0 <= d < 10,
    ensures
        digit_value(digit(d)) == Some(d as nat),
{
}

pub(crate) proof fn lemma_nat_text(n: nat)
    ensures
        nat_text(n).len() >= 1,
        digits_value(nat_text(n)) == n,
        forall|j: int| 0 <= j < nat_text(n).len() ==> is_digit(#[trigger] nat_text(n)[j]),
    decreases n,
{
    if n < 10 {
        lemma_digit_roundtrip(n as int);
        assert(nat_text(n).drop_last() =~= Seq::<char>::empty());
        assert(digits_value(Seq::<char>::empty()) == 0);
    } else {
        lemma_nat_text(n / 10);
        lemma_digit_roundtrip((n % 10) as int);
        assert(nat_text(n).drop_last() =~= nat_text(n / 10));
        assert(nat_text(n).last() == digit((n % 10) as int));
        assert(n == (n / 10) * 10 + n % 10);
    }
}

/// Taking digits off the end of a digit string never raises its value.
proof fn lemma_digits_prefix(d: Seq<char>, k: int)
    requires
        0 <= k <= d.len(),
    ensures
        digits_value(d.subrange(0, k)) <= digits_value(d),
    decreases d.len() - k,
{
    if k < d.len() {
        lemma_digits_prefix(d, k + 1);
        assert(d.subrange(0, k + 1).drop_last() =~= d.subrange(0, k));
    } else {
        assert(d.subrange(0, k) =~= d);
    }
}

fn digit_of(c: char) -> (r: Option<u64>)
    ensures
        r matches Some(x) ==> digit_value(c) == Some(x as nat),
        r is None ==> digit_value(c) is None,
{
    if c == '0' {
        Some(0)
    } else if c == '1' {
        Some(1)
    } else if c == '2' {
        Some(2)
    } else if c == '3' {
        Some(3)
    } else if c == '4' {
        Some(4)
    } else if c == '5' {
        Some(5)
    } else if c == '6' {
        Some(6)
    } else if c == '7' {
        Some(7)
    } else if c == '8' {
        Some(8)
    } else if c == '9' {
        Some(9)
    } else {
        None
    }
}

/// Reads the run of decimal digits at `pos`; the text of every `n` that fits
/// in a `u64`, followed by `}`, reads back as `n`.
pub fn parse_nat(s: &Vec<char>, pos: usize) -> (r: Option<(u64, usize)>)
    requires
        pos <= s@.len(),
    ensures
        r matches Some((_, e)) ==> pos < e <= s@.len(),
        r matches Some((n, e)) ==> at(s@, pos as int, nat_text(n as nat)) && e == pos + nat_text(
            n as nat,
        ).len(),
        forall|n: nat|
            #![trigger nat_text(n)]
            n <= u64::MAX && at(s@, pos as int, nat_text(n) + seq!['}']) ==> r == Some(
                (n as u64, (pos + nat_text(n).len()) as usize),
            ),
{
    let mut i: usize = pos;
    let mut acc: u64 = 0;
    let mut stop = false;
    while i < s.len() && !stop
        invariant
            pos <= i <= s@.len(),
            acc == digits_value(s@.subrange(pos as int, i as int)),
            forall|j: int| pos <= j < i ==> is_digit(#[trigger] s@[j]),
            stop ==> i < s@.len() && !is_digit(s@[i as int]),
        decreases s@.len() - i + (if stop { 0int } else { 1int }),
    {
        match digit_of(s[i]) {
            None => {
                stop = true;
            },
            Some(d) => {
                assert(s@.subrange(pos as int, i + 1).drop_last() =~= s@.subrange(
                    pos as int,
                    i as int,
                ));
                if acc > (u64::MAX - d) / 10 {
                    proof {
                        assert forall|n: nat|
                            #![trigger nat_text(n)]
                            n <= u64::MAX && at(
                                s@,
                                pos as int,
                                nat_text(n) + seq!['}'],
                            ) implies false by {
                            lemma_at_concat(s@, pos as int, nat_text(n), seq!['}']);
                            lemma_nat_text(n);
                            let len = nat_text(n).len() as int;
                            lemma_at_index(s@, pos + len, seq!['}'], 0);
                            if i >= pos + len {
                                assert(is_digit(s@[pos + len]));
                            }
                            lemma_digits_prefix(nat_text(n), i + 1 - pos);
                            assert(nat_text(n).subrange(0, i + 1 - pos) =~= s@.subrange(
                                pos as int,
                                i + 1,
                            ));
                            assert(acc * 10 + d > u64::MAX) by (nonlinear_arith)
                                requires
                                    acc > (u64::MAX - d) / 10,
                                    d <= 9,
                            ;
                        }
                    }
                    return None;
                }
                assert(acc * 10 + d <= u64::MAX) by (nonlinear_arith)
                    requires
                        acc <= (u64::MAX - d) / 10,
                        d <= 9,
                ;
                acc = acc * 10 + d;
                i = i + 1;
            },
        }
    }
    proof {
        assert forall|n: nat|
            #![trigger nat_text(n)]
            n <= u64::MAX && at(s@, pos as int, nat_text(n) + seq!['}']) implies i == pos
            + nat_text(n).len() && acc == n by {
            lemma_at_concat(s@, pos as int, nat_text(n), seq!['}']);
            lemma_nat_text(n);
            let len = nat_text(n).len() as int;
            lemma_at_index(s@, pos + len, seq!['}'], 0);
            if i > pos + len {
                assert(is_digit(s@[pos + len]));
            }
            if i < pos + len {
                assert(is_digit(nat_text(n)[i - pos]));
                assert(s@[i as int] == nat_text(n)[i - pos]);
            }
            assert(s@.subrange(pos as int, i as int) =~= nat_text(n));
        }
    }
    if i == pos {
        return None;
    }
    if s[pos] == '0' && i > pos + 1 {
        proof {
            assert forall|n: nat|
                #![trigger nat_text(n)]
                n <= u64::MAX && at(s@, pos as int, nat_text(n) + seq!['}']) implies false by {
                lemma_at_concat(s@, pos as int, nat_text(n), seq!['}']);
                lemma_nat_text(n);
                lemma_canonical(nat_text(n));
                let len = nat_text(n).len() as int;
                lemma_at_index(s@, pos + len, seq!['}'], 0);
                if len > 1 {
                    lemma_at_index(s@, pos as int, nat_text(n), 0);
                } else {
                    lemma_at_index(s@, pos as int, nat_text(n), 0);
                    assert(is_digit(s@[pos + 1]));
                }
            }
        }
        return None;
    }
    proof {
        let d = s@.subrange(pos as int, i as int);
        assert forall|j: int| 0 <= j < d.len() implies is_digit(#[trigger] d[j]) by {
            assert(d[j] == s@[pos + j]);
        }
        lemma_canonical_text(d);
        assert(s@.subrange(pos as int, pos + d.len()) == d);
    }
    Some((acc, i))
}

/// A digit string without a leading zero (other than `0` itself) is the text
/// of its value.
proof fn lemma_canonical_text(d: Seq<char>)
    requires
        d.len() >= 1,
        forall|j: int| 0 <= j < d.len() ==> is_digit(#[trigger] d[j]),
        d[0] == '0' ==> d.len() == 1,
    ensures
        nat_text(digits_value(d)) == d,
    decreases d.len(),
{
    let c = d.last();
    let x = digit_value(c)->Some_0;
    lemma_digit_char(c);
    if d.len() == 1 {
        assert(d.drop_last() =~= Seq::<char>::empty());
        assert(digits_value(Seq::<char>::empty()) == 0);
        assert(nat_text(digits_value(d)) =~= d);
    } else {
        let p = d.drop_last();
        assert forall|j: int| 0 <= j < p.len() implies is_digit(#[trigger] p[j]) by {
            assert(p[j] == d[j]);
        }
        assert(p[0] == d[0]);
        lemma_canonical_text(p);
        lemma_leading_nonzero(p);
        let v = digits_value(d);
        assert(v == digits_value(p) * 10 + x);
        assert(v / 10 == digits_value(p) && v % 10 == x) by (nonlinear_arith)
            requires
                v == digits_value(p) * 10 + x,
                x < 10,
        ;
        assert(nat_text(v) =~= d);
    }
}

/// A digit string that does not start with `0` has a value of at least 1.
proof fn lemma_leading_nonzero(d: Seq<char>)
    requires
        d.len() >= 1,
        forall|j: int| 0 <= j < d.len() ==> is_digit(#[trigger] d[j]),
        d[0] != '0',
    ensures
        digits_value(d) >= 1,
    decreases d.len(),
{
    if d.len() == 1 {
        assert(d.drop_last() =~= Seq::<char>::empty());
        assert(digits_value(Seq::<char>::empty()) == 0);
        lemma_digit_char(d[0]);
    } else {
        let p = d.drop_last();
        assert forall|j: int| 0 <= j < p.len() implies is_digit(#[trigger] p[j]) by {
            assert(p[j] == d[j]);
        }
        assert(p[0] == d[0]);
        lemma_leading_nonzero(p);
    }
}

proof fn lemma_digit_char(c: char)
    requires
        is_digit(c),
    ensures
        digit(digit_value(c)->Some_0 as int) == c,
        digit_value(c)->Some_0 < 10,
        c != '0' ==> digit_value(c)->Some_0 >= 1,
{
}

/// The text of a number never starts with `0` unless it is `0`.
proof fn lemma_canonical(t: Seq<char>)
    requires
        exists|n: nat| nat_text(n) == t,
    ensures
        t[0] == '0' ==> t.len() == 1,
{
    let n = choose|n: nat| nat_text(n) == t;
    lemma_nat_text_first(n);
}

proof fn lemma_nat_text_first(n: nat)
    ensures
        nat_text(n)[0] == '0' ==> n == 0 && nat_text(n).len() == 1,
    decreases n,
{
    if n >= 10 {
        lemma_nat_text_first(n / 10);
        lemma_nat_text(n / 10);
        assert(nat_text(n)[0] == nat_text(n / 10)[0]);
    }
}

/// How one character of a text is written between quotes.
pub open spec fn escape_char(c: char) -> Seq<char> {
    if c == '"' || c == '\\' {
        seq!['\\', c]
    } else {
        seq![c]
    }
}

/// A text with `"` and `\` written as `\"` and `\\`.
pub open spec fn escaped(t: Seq<char>) -> Seq<char>
    decreases t.len(),
{
    if t.len() == 0 {
        Seq::empty()
    } else {
        escaped(t.drop_last()) + escape_char(t.last())
    }
}

/// A text between double quotes.
pub open spec fn quoted(t: Seq<char>) -> Seq<char> {
    seq!['"'] + escaped(t) + seq!['"']
}

proof fn lemma_escaped_append(a: Seq<char>, b: Seq<char>)
    ensures
        escaped(a + b) == escaped(a) + escaped(b),
    decreases b.len(),
{
    if b.len() == 0 {
        assert(a + b =~= a);
        assert(escaped(a) + escaped(b) =~= escaped(a));
    } else {
        assert((a + b).drop_last() =~= a + b.drop_last());
        lemma_escaped_append(a, b.drop_last());
        assert(escaped(a + b) =~= escaped(a) + escaped(b));
    }
}

/// Past the escaped form of the first `k` characters of `t` comes the
/// escaped form of character `k`.
proof fn lemma_escaped_step(t: Seq<char>, k: int)
    requires
        0 <= k < t.len(),
    ensures
        escaped(t) == escaped(t.take(k)) + escape_char(t[k]) + escaped(t.skip(k + 1)),
        escaped(t.take(k + 1)) == escaped(t.take(k)) + escape_char(t[k]),
{
    assert(t =~= t.take(k) + (seq![t[k]] + t.skip(k + 1)));
    lemma_escaped_append(t.take(k), seq![t[k]] + t.skip(k + 1));
    lemma_escaped_append(seq![t[k]], t.skip(k + 1));
    assert(seq![t[k]].drop_last() =~= Seq::<char>::empty());
    assert(escaped(Seq::<char>::empty()) =~= Seq::<char>::empty());
    assert(seq![t[k]].last() == t[k]);
    assert(escaped(seq![t[k]]) =~= escape_char(t[k]));
    assert(t.take(k + 1).drop_last() =~= t.take(k));
    assert(escaped(t) =~= escaped(t.take(k)) + escape_char(t[k]) + escaped(t.skip(k + 1)));
}

/// Reads a quoted text at `pos`; the quoted form of every text reads back as
/// that text.
pub fn parse_quoted(s: &Vec<char>, pos: usize) -> (r: Option<(String, usize)>)
    requires
        pos <= s@.len(),
    ensures
        r matches Some((_, e)) ==> pos < e <= s@.len(),
        r matches Some((w, e)) ==> at(s@, pos as int, quoted(w@)) && e == pos + quoted(w@).len(),
        forall|t: Seq<char>|
            #![trigger quoted(t)]
            at(s@, pos as int, quoted(t)) ==> (r matches Some((w, e)) && w@ == t && e == pos
                + quoted(t).len()),
{
    if pos >= s.len() || s[pos] != '"' {
        proof {
            assert forall|t: Seq<char>| #![trigger quoted(t)] at(s@, pos as int, quoted(t)) implies false by {
                lemma_at_index(s@, pos as int, quoted(t), 0);
            }
        }
        return None;
    }
    let mut i: usize = pos + 1;
    let mut out = String::new();
    proof {
        assert(escaped(out@) =~= Seq::<char>::empty());
        assert(s@.subrange(pos + 1, pos + 1) =~= Seq::<char>::empty());
    }
    loop
        invariant
            pos + 1 <= i <= s@.len(),
            s@[pos as int] == '"',
            at(s@, pos + 1, escaped(out@)),
            i == pos + 1 + escaped(out@).len(),
            forall|t: Seq<char>|
                #![trigger quoted(t)]
                at(s@, pos as int, quoted(t)) ==> out@.len() <= t.len() && out@ == t.take(
                    out@.len() as int,
                ) && i == pos + 1 + escaped(out@).len(),
        decreases s@.len() - i,
    {
        if i >= s.len() {
            proof {
                assert forall|t: Seq<char>| #![trigger quoted(t)] at(s@, pos as int, quoted(t)) implies false by {
                    lemma_escaped_len(t, out@.len() as int);
                }
            }
            return None;
        }
        let c = s[i];
        proof {
            assert forall|t: Seq<char>| #![trigger quoted(t)] at(s@, pos as int, quoted(t)) implies (if out@.len() == t.len() {
                c == '"' && out@ == t
            } else {
                let k = out@.len() as int;
                &&& c != '"'
                &&& (c == '\\' ==> i + 1 < s@.len() && (t[k] == '"' || t[k] == '\\') && s@[i + 1] == t[k])
                &&& (c != '\\' ==> c == t[k])
            }) by {
                let k = out@.len() as int;
                lemma_at_concat(s@, pos as int, seq!['"'] + escaped(t), seq!['"']);
                lemma_at_concat(s@, pos as int, seq!['"'], escaped(t));
                if k == t.len() {
                    assert(out@ =~= t);
                    lemma_at_index(s@, pos as int, quoted(t), i - pos);
                } else {
                    lemma_escaped_step(t, k);
                    assert(t.take(k) =~= out@);
                    lemma_at_concat(s@, pos + 1, escaped(t.take(k)) + escape_char(t[k]), escaped(t.skip(k + 1)));
                    lemma_at_concat(s@, pos + 1, escaped(t.take(k)), escape_char(t[k]));
                    lemma_at_index(s@, i as int, escape_char(t[k]), 0);
                    if t[k] == '"' || t[k] == '\\' {
                        lemma_at_index(s@, i as int, escape_char(t[k]), 1);
                    }
                }
            }
        }
        if c == '"' {
            proof {
                lemma_at_concat(s@, pos as int, seq!['"'], escaped(out@));
                lemma_at_concat(s@, pos as int, seq!['"'] + escaped(out@), seq!['"']);
                assert(s@.subrange(pos as int, pos + 1) =~= seq!['"']);
                assert(s@.subrange(i as int, i + 1) =~= seq!['"']);
            }
            return Some((out, i + 1));
        }
        if c == '\\' {
            if i + 1 < s.len() && (s[i + 1] == '"' || s[i + 1] == '\\') {
                let d = s[i + 1];
                let ghost before = out@;
                push_char(&mut out, d);
                proof {
                    assert(out@.drop_last() =~= before);
                    assert(s@.subrange(i as int, i + 2) =~= escape_char(d));
                    lemma_at_concat(s@, pos + 1, escaped(before), escape_char(d));
                    assert forall|t: Seq<char>| #![trigger quoted(t)] at(s@, pos as int, quoted(t)) implies out@.len() <= t.len() && out@ == t.take(out@.len() as int) && i + 2 == pos + 1 + escaped(out@).len() by {
                        let k = before.len() as int;
                        lemma_escaped_step(t, k);
                        assert(t.take(k + 1) =~= out@);
                    }
                }
                i = i + 2;
            } else {
                return None;
            }
        } else {
            let ghost before = out@;
            push_char(&mut out, c);
            proof {
                assert(out@.drop_last() =~= before);
                assert(s@.subrange(i as int, i + 1) =~= escape_char(c));
                lemma_at_concat(s@, pos + 1, escaped(before), escape_char(c));
                assert forall|t: Seq<char>| #![trigger quoted(t)] at(s@, pos as int, quoted(t)) implies out@.len() <= t.len() && out@ == t.take(out@.len() as int) && i + 1 == pos + 1 + escaped(out@).len() by {
                    let k = before.len() as int;
                    lemma_escaped_step(t, k);
                    assert(t.take(k + 1) =~= out@);
                }
            }
            i = i + 1;
        }
    }
}

proof fn lemma_escaped_len(t: Seq<char>, k: int)
    requires
        0 <= k <= t.len(),
    ensures
        escaped(t.take(k)).len() <= escaped(t).len(),
{
    assert(t =~= t.take(k) + t.skip(k));
    lemma_escaped_append(t.take(k), t.skip(k));
}

/// Relies on `String::push`: appends one character.
#[verifier::external_body]
pub(crate) fn push_char(s: &mut String, c: char)
    ensures
        final(s)@ == old(s)@.push(c),
{
    s.push(c)
}

/// Appends a text.
pub(crate) fn push_text(s: &mut String, t: &str)
    ensures
        final(s)@ == old(s)@ + t@,
{
    let cs = text_chars(t);
    let mut i: usize = 0;
    while i < cs.len()
        invariant
            cs@ == t@,
            0 <= i <= cs@.len(),
            s@ == old(s)@ + cs@.take(i as int),
        decreases cs@.len() - i,
    {
        push_char(s, cs[i]);
        assert(s@ =~= old(s)@ + cs@.take(i + 1));
        i = i + 1;
    }
    assert(cs@.take(i as int) =~= cs@);
}

/// Writes the quoted form of `t`.
pub fn write_quoted(out: &mut String, t: &String)
    ensures
        final(out)@ == old(out)@ + quoted(t@),
{
    push_char(out, '"');
    let ghost start = out@;
    let tv = text_chars(t.as_str());
    let mut i: usize = 0;
    while i < tv.len()
        invariant
            0 <= i <= tv@.len(),
            tv@ == t@,
            start == old(out)@.push('"'),
            out@ == start + escaped(t@.take(i as int)),
        decreases tv@.len() - i,
    {
        let c = tv[i];
        proof {
            lemma_escaped_step(t@, i as int);
        }
        if c == '"' || c == '\\' {
            push_char(out, '\\');
        }
        push_char(out, c);
        assert(out@ =~= start + escaped(t@.take(i + 1)));
        i = i + 1;
    }
    push_char(out, '"');
    assert(t@.take(i as int) =~= t@);
    assert(out@ =~= old(out)@ + quoted(t@));
}

/// The characters of a text, in order.
pub(crate) fn text_chars(t: &str) -> (r: Vec<char>)
    ensures
        r@ == t@,
{
    let mut r: Vec<char> = Vec::new();
    for c in it: t.chars()
        invariant
            r@ == it.seq().take(it.index() as int),
    {
        r.push(c);
        assert(r@ =~= it.seq().take(it.index() as int + 1));
    }
    assert(r@ =~= t@);
    r
}

fn digit_char(d: u64) -> (c: char)
    requires
        d < 10,
    ensures
        c == digit(d as int),
{
    if d == 0 {
        '0'
    } else if d == 1 {
        '1'
    } else if d == 2 {
        '2'
    } else if d == 3 {
        '3'
    } else if d == 4 {
        '4'
    } else if d == 5 {
        '5'
    } else if d == 6 {
        '6'
    } else if d == 7 {
        '7'
    } else if d == 8 {
        '8'
    } else {
        '9'
    }
}

/// Writes the decimal text of `n`.
pub fn write_nat(out: &mut String, n: u64)
    ensures
        final(out)@ == old(out)@ + nat_text(n as nat),
    decreases n,
{
    if n >= 10 {
        write_nat(out, n / 10);
    }
    let c = digit_char(n % 10);
    push_char(out, c);
    assert(out@ =~= old(out)@ + nat_text(n as nat));
}

/// Writes the decimal text of `i`.
pub fn write_int(out: &mut String, i: i64)
    ensures
        final(out)@ == old(out)@ + int_text(i as int),
{
    if i < 0 {
        push_char(out, '-');
        let mag: u64 = if i == i64::MIN {
            9223372036854775808u64
        } else {
            (-i) as u64
        };
        write_nat(out, mag);
        assert(out@ =~= old(out)@ + int_text(i as int));
    } else {
        write_nat(out, i as u64);
    }
}

/// Whether two texts have the same characters.
pub(crate) fn text_eq(a: &str, b: &str) -> (r: bool)
    ensures
        r == (a@ == b@),
{
    let x = text_chars(a);
    let y = text_chars(b);
    if x.len() != y.len() {
        return false;
    }
    let mut i: usize = 0;
    while i < x.len()
        invariant
            x@ == a@,
            y@ == b@,
            x@.len() == y@.len(),
            0 <= i <= x@.len(),
            forall|j: int| 0 <= j < i ==> x@[j] == y@[j],
        decreases x@.len() - i,
    {
        if x[i] != y[i] {
            return false;
        }
        i = i + 1;
    }
    assert(x@ =~= y@);
    true
}

} // verus!
