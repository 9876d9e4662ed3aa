use vstd::prelude::*;

use crate::error::{CLIPSError, CLIPSResult};
use crate::text::text_eq;

verus! {

/// What the engine reports for a slot assignment on a builder.
#[derive(Debug, Clone, Copy, PartialEq, Eq, Structural)]
pub enum PutSlotError {
    NoError,
    NullPointer,
    InvalidTarget,
    SlotNotFound,
    Type,
    Range,
    AllowedValues,
    Cardinality,
    AllowedClasses,
}

/// What the engine reports when a fact builder fails to assert.
#[derive(Debug, Clone, Copy, PartialEq, Eq, Structural)]
pub enum FactBuilderError {
    NoError,
    NullPointer,
    DeftemplateNotFound,
    ImpliedDeftemplate,
    CouldNotAssert,
    RuleNetwork,
}

/// What the engine reports when an instance builder fails to make.
#[derive(Debug, Clone, Copy, PartialEq, Eq, Structural)]
pub enum InstanceBuilderError {
    NoError,
    NullPointer,
    DefclassNotFound,
    CouldNotCreate,
    RuleNetwork,
}

/// The library's reading of a slot assignment report.
pub open spec fn put_slot_outcome(code: PutSlotError) -> CLIPSResult<()> {
    match code {
        PutSlotError::NoError => Ok(()),
        PutSlotError::InvalidTarget => Err(CLIPSError::FactOrInstanceRemoved),
        PutSlotError::SlotNotFound => Err(CLIPSError::SlotNotFound),
        PutSlotError::Type => Err(CLIPSError::SlotTypeViolated),
        PutSlotError::Range => Err(CLIPSError::SlotRangeViolated),
        PutSlotError::AllowedValues => Err(CLIPSError::SlotAllowedValuesViolated),
        PutSlotError::Cardinality => Err(CLIPSError::SlotCardinalityViolated),
        PutSlotError::AllowedClasses => Err(CLIPSError::SlotAllowedClassesViolated),
        PutSlotError::NullPointer => Err(CLIPSError::Unknown),
    }
}

/// Translates a slot assignment report. The library always hands the engine
/// the slot's name and value, so a null-pointer report cannot occur.
pub fn translate_put_slot_error(code: PutSlotError) -> (r: CLIPSResult<()>)
    requires
        code != PutSlotError::NullPointer,
    ensures
        r == put_slot_outcome(code),
{
    match code {
        PutSlotError::NoError => Ok(()),
        PutSlotError::InvalidTarget => Err(CLIPSError::FactOrInstanceRemoved),
        PutSlotError::SlotNotFound => Err(CLIPSError::SlotNotFound),
        PutSlotError::Type => Err(CLIPSError::SlotTypeViolated),
        PutSlotError::Range => Err(CLIPSError::SlotRangeViolated),
        PutSlotError::AllowedValues => Err(CLIPSError::SlotAllowedValuesViolated),
        PutSlotError::Cardinality => Err(CLIPSError::SlotCardinalityViolated),
        PutSlotError::AllowedClasses => Err(CLIPSError::SlotAllowedClassesViolated),
        PutSlotError::NullPointer => Err(CLIPSError::Unknown),
    }
}

/// A fact builder of the engine, for one template.
pub struct FactBuilderData {
    pub handle: usize,
    pub template: String,
}

impl FactBuilderData {
    pub fn new(handle: usize, template: String) -> (r: FactBuilderData)
        ensures
            r.handle == handle,
            r.template@ == template@,
    {
        FactBuilderData { handle, template }
    }

    /// The outcome of an assertion: success when the engine gave a fact,
    /// otherwise the error it reported. A builder always has its template,
    /// and a cached builder's template exists, so only the two construction
    /// failures can be reported.
    pub fn commit(&self, asserted: bool, report: FactBuilderError) -> (r: CLIPSResult<()>)
        requires
            asserted || report == FactBuilderError::CouldNotAssert || report
                == FactBuilderError::RuleNetwork,
        ensures
            asserted ==> r is Ok,
            !asserted && report == FactBuilderError::CouldNotAssert ==> r == Err::<(), CLIPSError>(CLIPSError::UnableToAssertFact),
            !asserted && report == FactBuilderError::RuleNetwork ==> r == Err::<(), CLIPSError>(CLIPSError::RuleNetwork),
    {
        if asserted {
            Ok(())
        } else if report == FactBuilderError::CouldNotAssert {
            Err(CLIPSError::UnableToAssertFact)
        } else {
            Err(CLIPSError::RuleNetwork)
        }
    }
}

/// An instance builder of the engine, for one class.
pub struct InstanceBuilderData {
    pub handle: usize,
    pub class: String,
}

impl InstanceBuilderData {
    pub fn new(handle: usize, class: String) -> (r: InstanceBuilderData)
        ensures
            r.handle == handle,
            r.class@ == class@,
    {
        InstanceBuilderData { handle, class }
    }

    /// The outcome of making an instance: success when the engine gave one,
    /// otherwise the error it reported (see `FactBuilderData::commit`).
    pub fn make(&self, made: bool, report: InstanceBuilderError) -> (r: CLIPSResult<()>)
        requires
            made || report == InstanceBuilderError::CouldNotCreate || report
                == InstanceBuilderError::RuleNetwork,
        ensures
            made ==> r is Ok,
            !made && report == InstanceBuilderError::CouldNotCreate ==> r == Err::<(), CLIPSError>(CLIPSError::UnableToMakeInstance),
            !made && report == InstanceBuilderError::RuleNetwork ==> r == Err::<(), CLIPSError>(CLIPSError::RuleNetwork),
    {
        if made {
            Ok(())
        } else if report == InstanceBuilderError::CouldNotCreate {
            Err(CLIPSError::UnableToMakeInstance)
        } else {
            Err(CLIPSError::RuleNetwork)
        }
    }
}

/// The builders of an environment, created on first use and kept for its
/// lifetime, one per template name.
pub struct BuilderCache {
    names: Vec<String>,
    handles: Vec<usize>,
}

impl BuilderCache {
    /// The cached builders, in order of creation: template name and handle.
    pub closed spec fn entries(&self) -> Seq<(Seq<char>, usize)> {
        Seq::new(self.names@.len(), |i: int| (self.names@[i]@, self.handles@[i]))
    }

    /// One builder per name.
    pub closed spec fn wf(&self) -> bool {
        &&& self.names@.len() == self.handles@.len()
        &&& forall|i: int, j: int| 0 <= i < j < self.names@.len() ==> self.names@[i]@ != self.names@[j]@
    }

    /// The handle cached for a template name.
    pub open spec fn cached(&self, name: Seq<char>) -> Option<usize> {
        if exists|i: int| 0 <= i < self.entries().len() && (#[trigger] self.entries()[i]).0 == name {
            let i = choose|i: int| 0 <= i < self.entries().len() && (#[trigger] self.entries()[i]).0 == name;
            Some(self.entries()[i].1)
        } else {
            None
        }
    }

    pub fn new() -> (r: BuilderCache)
        ensures
            r.wf(),
            r.entries() == Seq::<(Seq<char>, usize)>::empty(),
    {
        let r = BuilderCache { names: Vec::new(), handles: Vec::new() };
        assert(r.entries() =~= Seq::<(Seq<char>, usize)>::empty());
        r
    }

    /// The builder cached for `name`, if one was created.
    pub fn get(&self, name: &str) -> (r: Option<usize>)
        requires
            self.wf(),
        ensures
            r == self.cached(name@),
    {
        let mut i: usize = 0;
        while i < self.names.len()
            invariant
                self.wf(),
                0 <= i <= self.names@.len(),
                forall|j: int| 0 <= j < i ==> self.names@[j]@ != name@,
            decreases self.names@.len() - i,
        {
            if text_eq(self.names[i].as_str(), name) {
                proof {
                    assert(self.entries()[i as int].0 == name@);
                    let k = choose|k: int| 0 <= k < self.entries().len() && (#[trigger] self.entries()[k]).0 == name@;
                    assert(k == i);
                }
                return Some(self.handles[i]);
            }
            i = i + 1;
        }
        None
    }

    /// Caches the builder created for `name`.
    pub fn insert(&mut self, name: String, handle: usize)
        requires
            old(self).wf(),
            old(self).cached(name@) is None,
        ensures
            final(self).wf(),
            final(self).entries() == old(self).entries().push((name@, handle)),
            final(self).cached(name@) == Some(handle),
    {
        let ghost e = self.entries();
        let ghost nm = name@;
        self.names.push(name);
        self.handles.push(handle);
        proof {
            assert(self.entries() =~= e.push((nm, handle)));
            assert forall|i: int, j: int| 0 <= i < j < self.names@.len() implies self.names@[i]@ != self.names@[j]@ by {
                if j == self.names@.len() - 1 {
                    assert(e[i].0 == self.names@[i]@);
                }
            }
            let last = self.entries().len() - 1;
            assert(self.entries()[last].0 == nm);
            let k = choose|k: int| 0 <= k < self.entries().len() && (#[trigger] self.entries()[k]).0 == nm;
            if k != last {
                assert(e[k].0 == nm);
            }
        }
    }

    /// The handles, in the order in which they are to be disposed of.
    pub fn handles(&self) -> (r: Vec<usize>)
        requires
            self.wf(),
        ensures
            r@ == Seq::new(self.entries().len(), |i: int| self.entries()[i].1),
    {
        let r = self.handles.clone();
        assert(r@ =~= Seq::new(self.entries().len(), |i: int| self.entries()[i].1));
        r
    }
}

} // verus!
