use vstd::prelude::*;

use crate::error::{CLIPSError, CLIPSResult};
use crate::text::{push_char, text_eq};

verus! {

pub const FLOAT_BIT: u32 = 1;
pub const INTEGER_BIT: u32 = 2;
pub const SYMBOL_BIT: u32 = 4;
pub const STRING_BIT: u32 = 8;
pub const MULTIFIELD_BIT: u32 = 16;
pub const EXTERNAL_ADDRESS_BIT: u32 = 32;
pub const FACT_ADDRESS_BIT: u32 = 64;
pub const INSTANCE_ADDRESS_BIT: u32 = 128;
pub const INSTANCE_NAME_BIT: u32 = 256;
pub const VOID_BIT: u32 = 512;
pub const BOOLEAN_BIT: u32 = 1024;
/// Every type but the boolean: void, every single-field type and multifields.
pub const ANY_BITS: u32 = 1023;

/// A set of engine types, one bit per type, as declared for the arguments and
/// the result of a user function.
#[derive(Debug, Clone, Copy, PartialEq, Eq, Structural)]
pub struct UDFType {
    pub bits: u32,
}

/// The code letter for `bit` when it is in `bits`.
pub open spec fn letter_if(bits: u32, bit: u32, c: char) -> Seq<char> {
    if bits & bit == bit {
        seq![c]
    } else {
        Seq::empty()
    }
}

/// The engine's code for a set of types: `*` when it holds every type,
/// otherwise one letter per type it holds.
pub open spec fn character_code(bits: u32) -> Seq<char> {
    if bits & ANY_BITS == ANY_BITS {
        seq!['*']
    } else {
        letter_if(bits, BOOLEAN_BIT, 'b') + letter_if(bits, FLOAT_BIT, 'd') + letter_if(
            bits,
            EXTERNAL_ADDRESS_BIT,
            'e',
        ) + letter_if(bits, FACT_ADDRESS_BIT, 'f') + letter_if(bits, INSTANCE_ADDRESS_BIT, 'i')
            + letter_if(bits, INTEGER_BIT, 'l') + letter_if(bits, MULTIFIELD_BIT, 'm') + letter_if(
            bits,
            INSTANCE_NAME_BIT,
            'n',
        ) + letter_if(bits, STRING_BIT, 's') + letter_if(bits, SYMBOL_BIT, 'y') + letter_if(
            bits,
            VOID_BIT,
            'v',
        )
    }
}

/// The codes of argument type sets, separated by `;`.
pub open spec fn argument_codes(ts: Seq<UDFType>) -> Seq<char>
    decreases ts.len(),
{
    if ts.len() == 0 {
        Seq::empty()
    } else if ts.len() == 1 {
        character_code(ts[0].bits)
    } else {
        argument_codes(ts.drop_last()) + seq![';'] + character_code(ts.last().bits)
    }
}

fn push_letter_if(out: &mut String, bits: u32, bit: u32, c: char)
    ensures
        final(out)@ == old(out)@ + letter_if(bits, bit, c),
{
    if bits & bit == bit {
        push_char(out, c);
    } else {
        assert(out@ =~= old(out)@ + letter_if(bits, bit, c));
    }
}

impl UDFType {
    pub fn from_bits(bits: u32) -> (r: UDFType)
        ensures
            r.bits == bits,
    {
        UDFType { bits }
    }

    /// Whether every type of `other` is in this set.
    pub fn contains(&self, other: UDFType) -> (r: bool)
        ensures
            r == (self.bits & other.bits == other.bits),
    {
        self.bits & other.bits == other.bits
    }

    /// The types of both sets.
    pub fn union(&self, other: UDFType) -> (r: UDFType)
        ensures
            r.bits == self.bits | other.bits,
    {
        UDFType { bits: self.bits | other.bits }
    }

    /// The engine's code for this set of types (see `character_code`).
    pub fn as_character_code(&self) -> (r: String)
        ensures
            r@ == character_code(self.bits),
    {
        let mut out = String::new();
        if self.bits & ANY_BITS == ANY_BITS {
            push_char(&mut out, '*');
            assert(out@ =~= character_code(self.bits));
            return out;
        }
        let b = self.bits;
        push_letter_if(&mut out, b, BOOLEAN_BIT, 'b');
        push_letter_if(&mut out, b, FLOAT_BIT, 'd');
        push_letter_if(&mut out, b, EXTERNAL_ADDRESS_BIT, 'e');
        push_letter_if(&mut out, b, FACT_ADDRESS_BIT, 'f');
        push_letter_if(&mut out, b, INSTANCE_ADDRESS_BIT, 'i');
        push_letter_if(&mut out, b, INTEGER_BIT, 'l');
        push_letter_if(&mut out, b, MULTIFIELD_BIT, 'm');
        push_letter_if(&mut out, b, INSTANCE_NAME_BIT, 'n');
        push_letter_if(&mut out, b, STRING_BIT, 's');
        push_letter_if(&mut out, b, SYMBOL_BIT, 'y');
        push_letter_if(&mut out, b, VOID_BIT, 'v');
        assert(out@ =~= character_code(self.bits));
        out
    }
}

/// The codes of a user function's argument type sets, separated by `;`.
pub fn argument_type_codes(ts: &Vec<UDFType>) -> (r: String)
    ensures
        r@ == argument_codes(ts@),
{
    let mut out = String::new();
    let mut i: usize = 0;
    while i < ts.len()
        invariant
            0 <= i <= ts@.len(),
            out@ == argument_codes(ts@.take(i as int)),
        decreases ts@.len() - i,
    {
        let ghost before = out@;
        if i > 0 {
            push_char(&mut out, ';');
        }
        let code = ts[i].as_character_code();
        let cv = crate::text::text_chars(code.as_str());
        let mut j: usize = 0;
        let ghost mid = out@;
        while j < cv.len()
            invariant
                0 <= j <= cv@.len(),
                cv@ == code@,
                out@ == mid + cv@.take(j as int),
            decreases cv@.len() - j,
        {
            push_char(&mut out, cv[j]);
            assert(out@ =~= mid + cv@.take(j + 1));
            j = j + 1;
        }
        proof {
            assert(cv@.take(j as int) =~= cv@);
            assert(ts@.take(i + 1).drop_last() =~= ts@.take(i as int));
            if i == 0 {
                assert(before =~= Seq::<char>::empty());
            }
            assert(out@ =~= argument_codes(ts@.take(i + 1)));
        }
        i = i + 1;
    }
    assert(ts@.take(i as int) =~= ts@);
    out
}

/// What the engine is told of a user function.
pub struct UDFDeclaration {
    pub name: String,
    pub min_args: u16,
    pub max_args: u16,
    pub return_types: UDFType,
    pub arg_types: Vec<UDFType>,
}

/// The user functions of an environment, by name.
pub struct UDFRegistry {
    entries: Vec<UDFDeclaration>,
}

impl UDFRegistry {
    /// The names, in order of registration.
    pub closed spec fn names(&self) -> Seq<Seq<char>> {
        Seq::new(self.entries@.len(), |i: int| self.entries@[i].name@)
    }

    /// The bounds on the argument count of each function, in the same order.
    pub closed spec fn arities(&self) -> Seq<(u16, u16)> {
        Seq::new(self.entries@.len(), |i: int| (self.entries@[i].min_args, self.entries@[i].max_args))
    }

    /// Each name occurs once.
    pub closed spec fn wf(&self) -> bool {
        forall|i: int, j: int|
            0 <= i < j < self.entries@.len() ==> self.entries@[i].name@ != self.entries@[j].name@
    }

    pub open spec fn has(&self, name: Seq<char>) -> bool {
        self.names().contains(name)
    }

    pub fn new() -> (r: UDFRegistry)
        ensures
            r.wf(),
            r.names() == Seq::<Seq<char>>::empty(),
    {
        let r = UDFRegistry { entries: Vec::new() };
        assert(r.names() =~= Seq::<Seq<char>>::empty());
        r
    }

    fn find(&self, name: &str) -> (r: Option<usize>)
        ensures
            r matches Some(i) ==> i < self.names().len() && self.names()[i as int] == name@,
            r is None ==> !self.has(name@),
    {
        let mut i: usize = 0;
        while i < self.entries.len()
            invariant
                0 <= i <= self.entries@.len(),
                forall|j: int| 0 <= j < i ==> self.entries@[j].name@ != name@,
            decreases self.entries@.len() - i,
        {
            if text_eq(self.entries[i].name.as_str(), name) {
                return Some(i);
            }
            i = i + 1;
        }
        proof {
            if self.has(name@) {
                let k = choose|k: int| 0 <= k < self.names().len() && self.names()[k] == name@;
                assert(self.entries@[k].name@ == name@);
            }
        }
        None
    }

    /// Whether a function of that name is registered.
    pub fn contains(&self, name: &str) -> (r: bool)
        ensures
            r == self.has(name@),
    {
        self.find(name).is_some()
    }

    /// Registers a user function. A name that is taken, or a minimum argument
    /// count above the maximum, is refused and changes nothing; the minimum is
    /// checked first.
    pub fn register(&mut self, decl: UDFDeclaration) -> (r: CLIPSResult<()>)
        requires
            old(self).wf(),
        ensures
            final(self).wf(),
            decl.min_args > decl.max_args ==> r == Err::<(), CLIPSError>(CLIPSError::MinArgumentsExceedsMax),
            decl.min_args <= decl.max_args && old(self).has(decl.name@) ==> r == Err::<(), CLIPSError>(CLIPSError::NameInUse),
            r is Ok <==> decl.min_args <= decl.max_args && !old(self).has(decl.name@),
            r is Err ==> final(self).names() == old(self).names() && final(self).arities() == old(self).arities(),
            r is Ok ==> final(self).names() == old(self).names().push(decl.name@)
                && final(self).arities() == old(self).arities().push((decl.min_args, decl.max_args)),
    {
        if decl.min_args > decl.max_args {
            return Err(CLIPSError::MinArgumentsExceedsMax);
        }
        if self.find(decl.name.as_str()).is_some() {
            return Err(CLIPSError::NameInUse);
        }
        let ghost old_names = self.names();
        let ghost old_ar = self.arities();
        self.entries.push(decl);
        proof {
            assert(self.names() =~= old_names.push(decl.name@));
            assert(self.arities() =~= old_ar.push((decl.min_args, decl.max_args)));
            assert forall|i: int, j: int| 0 <= i < j < self.entries@.len() implies self.entries@[i].name@ != self.entries@[j].name@ by {
                if j == self.entries@.len() - 1 {
                    assert(old_names[i] == self.entries@[i].name@);
                }
            }
        }
        Ok(())
    }

    /// Removes the function of that name; says whether there was one.
    pub fn remove(&mut self, name: &str) -> (r: bool)
        requires
            old(self).wf(),
        ensures
            final(self).wf(),
            r == old(self).has(name@),
            !final(self).has(name@),
            !r ==> final(self).names() == old(self).names() && final(self).arities() == old(self).arities(),
            forall|n: Seq<char>| n != name@ ==> (final(self).has(n) == old(self).has(n)),
    {
        match self.find(name) {
            None => false,
            Some(i) => {
                let ghost old_names = self.names();
                let ghost old_entries = self.entries@;
                let _ = self.entries.remove(i);
                proof {
                    assert(self.names() =~= old_names.remove(i as int));
                    assert forall|n: Seq<char>| n != name@ implies (self.has(n) == old_names.contains(n)) by {
                        if old_names.contains(n) {
                            let k = choose|k: int| 0 <= k < old_names.len() && old_names[k] == n;
                            if k < i {
                                assert(self.names()[k] == n);
                            } else {
                                assert(k != i);
                                assert(self.names()[k - 1] == n);
                            }
                        }
                    }
                    if self.has(name@) {
                        let k = choose|k: int| 0 <= k < self.names().len() && self.names()[k] == name@;
                        if k < i {
                            assert(old_entries[k].name@ == old_entries[i as int].name@);
                        } else {
                            assert(old_entries[k + 1].name@ == old_entries[i as int].name@);
                        }
                    }
                }
                true
            },
        }
    }
}

} // verus!
