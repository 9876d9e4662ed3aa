use vstd::prelude::*;

use crate::builder::BuilderCache;
use crate::error::{CLIPSError, CLIPSResult};
use crate::router::{router_slots, signal_recipients, RouterSlots, RouterSupport, SIGNAL};
use crate::text::text_eq;
use crate::udf::{argument_codes, argument_type_codes, character_code, UDFDeclaration, UDFRegistry};

verus! {

/// How the engine orders the activations of its agenda.
#[derive(Debug, Clone, Copy, PartialEq, Eq, Structural)]
pub enum ConflictResolutionStrategy {
    Depth,
    Breadth,
    Lex,
    Mea,
    Complexity,
    Simplicity,
    Random,
}

impl ConflictResolutionStrategy {
    /// The engine's number for the strategy.
    pub fn code(&self) -> (r: u32)
        ensures
            r == match self {
                ConflictResolutionStrategy::Depth => 0u32,
                ConflictResolutionStrategy::Breadth => 1u32,
                ConflictResolutionStrategy::Lex => 2u32,
                ConflictResolutionStrategy::Mea => 3u32,
                ConflictResolutionStrategy::Complexity => 4u32,
                ConflictResolutionStrategy::Simplicity => 5u32,
                ConflictResolutionStrategy::Random => 6u32,
            },
    {
        match self {
            ConflictResolutionStrategy::Depth => 0,
            ConflictResolutionStrategy::Breadth => 1,
            ConflictResolutionStrategy::Lex => 2,
            ConflictResolutionStrategy::Mea => 3,
            ConflictResolutionStrategy::Complexity => 4,
            ConflictResolutionStrategy::Simplicity => 5,
            ConflictResolutionStrategy::Random => 6,
        }
    }
}

/// The type codes the engine is given for a user function.
pub struct UDFCodes {
    pub return_types: String,
    pub arg_types: String,
}

/// An engine instance and the state the host keeps for it: its user
/// functions, its routers and their capabilities, and its builders.
pub struct CLIPSEnvironment {
    /// The address of the engine instance.
    pub raw: usize,
    /// Whether this value owns the instance and releases it at the end.
    pub destroy_on_drop: bool,
    pub fact_builders: BuilderCache,
    pub instance_builders: BuilderCache,
    pub udfs: UDFRegistry,
    pub router_names: Vec<String>,
    pub router_supports: Vec<RouterSupport>,
}

impl CLIPSEnvironment {
    /// The routers, by name, in order of registration.
    pub closed spec fn routers(&self) -> Seq<(Seq<char>, RouterSupport)> {
        Seq::new(self.router_names@.len(), |i: int| (self.router_names@[i]@, self.router_supports@[i]))
    }

    pub open spec fn has_router(&self, name: Seq<char>) -> bool {
        exists|i: int| 0 <= i < self.routers().len() && (#[trigger] self.routers()[i]).0 == name
    }

    pub closed spec fn wf(&self) -> bool {
        &&& self.router_names@.len() == self.router_supports@.len()
        &&& self.udfs.wf()
        &&& self.fact_builders.wf()
        &&& self.instance_builders.wf()
    }

    /// A view of an engine instance that the host does not own, as a callback
    /// gets it: with fresh tables, and not released at the end.
    pub fn from_raw(raw: usize) -> (r: CLIPSEnvironment)
        ensures
            r.wf(),
            r.raw == raw,
            !r.destroy_on_drop,
            r.fact_builders.entries() == Seq::<(Seq<char>, usize)>::empty(),
            r.instance_builders.entries() == Seq::<(Seq<char>, usize)>::empty(),
            r.routers() == Seq::<(Seq<char>, RouterSupport)>::empty(),
            r.udfs.names() == Seq::<Seq<char>>::empty(),
    {
        let r = CLIPSEnvironment {
            raw,
            destroy_on_drop: false,
            fact_builders: BuilderCache::new(),
            instance_builders: BuilderCache::new(),
            udfs: UDFRegistry::new(),
            router_names: Vec::new(),
            router_supports: Vec::new(),
        };
        assert(r.routers() =~= Seq::<(Seq<char>, RouterSupport)>::empty());
        r
    }

    /// The host's state for a new engine instance that it owns.
    pub fn new(raw: usize) -> (r: CLIPSEnvironment)
        ensures
            r.wf(),
            r.raw == raw,
            r.destroy_on_drop,
            r.fact_builders.entries() == Seq::<(Seq<char>, usize)>::empty(),
            r.instance_builders.entries() == Seq::<(Seq<char>, usize)>::empty(),
            r.routers() == Seq::<(Seq<char>, RouterSupport)>::empty(),
            r.udfs.names() == Seq::<Seq<char>>::empty(),
    {
        let mut r = CLIPSEnvironment::from_raw(raw);
        r.destroy_on_drop = true;
        r
    }

    /// Registers a user function and gives the type codes to declare it to
    /// the engine with; refused as `UDFRegistry::register` refuses.
    pub fn add_udf(&mut self, decl: UDFDeclaration) -> (r: CLIPSResult<UDFCodes>)
        requires
            old(self).wf(),
        ensures
            final(self).wf(),
            decl.min_args > decl.max_args ==> r is Err && r->Err_0 == CLIPSError::MinArgumentsExceedsMax,
            decl.min_args <= decl.max_args && old(self).udfs.has(decl.name@) ==> r is Err && r->Err_0 == CLIPSError::NameInUse,
            r is Ok <==> decl.min_args <= decl.max_args && !old(self).udfs.has(decl.name@),
            r is Err ==> final(self).udfs.names() == old(self).udfs.names(),
            r is Ok ==> final(self).udfs.names() == old(self).udfs.names().push(decl.name@)
                && r->Ok_0.return_types@ == character_code(decl.return_types.bits)
                && r->Ok_0.arg_types@ == argument_codes(decl.arg_types@),
            final(self).routers() == old(self).routers(),
    {
        let return_types = decl.return_types.as_character_code();
        let arg_types = argument_type_codes(&decl.arg_types);
        match self.udfs.register(decl) {
            Ok(()) => Ok(UDFCodes { return_types, arg_types }),
            Err(e) => Err(e),
        }
    }

    /// Removes a user function; says whether there was one of that name.
    pub fn remove_udf(&mut self, name: &str) -> (r: bool)
        requires
            old(self).wf(),
        ensures
            final(self).wf(),
            r == old(self).udfs.has(name@),
            !final(self).udfs.has(name@),
            !r ==> final(self).udfs.names() == old(self).udfs.names(),
            forall|n: Seq<char>| n != name@ ==> (final(self).udfs.has(n) == old(self).udfs.has(n)),
            final(self).routers() == old(self).routers(),
    {
        self.udfs.remove(name)
    }

    /// Registers a router and gives the callbacks to install for it. A name
    /// already taken is refused with `AddRouter` and changes nothing.
    pub fn add_router(&mut self, name: String, supports: RouterSupport) -> (r: CLIPSResult<RouterSlots>)
        requires
            old(self).wf(),
        ensures
            final(self).wf(),
            r is Ok <==> !old(self).has_router(name@),
            r is Err ==> r->Err_0 == CLIPSError::AddRouter && final(self).routers() == old(self).routers(),
            r is Ok ==> final(self).routers() == old(self).routers().push((name@, supports))
                && r->Ok_0.query && r->Ok_0.exit
                && r->Ok_0.write == supports.has(crate::router::WRITE)
                && r->Ok_0.read == supports.has(crate::router::READ)
                && r->Ok_0.unread == supports.has(crate::router::READ),
            final(self).udfs.names() == old(self).udfs.names(),
    {
        let mut i: usize = 0;
        while i < self.router_names.len()
            invariant
                self.wf(),
                self.router_names@.len() == self.router_supports@.len(),
                0 <= i <= self.router_names@.len(),
                forall|j: int| 0 <= j < i ==> self.router_names@[j]@ != name@,
            decreases self.router_names@.len() - i,
        {
            if text_eq(self.router_names[i].as_str(), name.as_str()) {
                proof {
                    assert(self.routers()[i as int].0 == name@);
                }
                return Err(CLIPSError::AddRouter);
            }
            i = i + 1;
        }
        let ghost before = self.routers();
        proof {
            if self.has_router(name@) {
                let k = choose|k: int| 0 <= k < before.len() && (#[trigger] before[k]).0 == name@;
                assert(self.router_names@[k]@ == name@);
            }
        }
        let ghost nm = name@;
        self.router_names.push(name);
        self.router_supports.push(supports);
        assert(self.routers() =~= before.push((nm, supports)));
        Ok(router_slots(supports))
    }

    /// Takes back the most recent router registration, for when the engine
    /// refuses the router after the library accepted it.
    pub fn pop_router(&mut self)
        requires
            old(self).wf(),
            old(self).routers().len() > 0,
        ensures
            final(self).wf(),
            final(self).routers() == old(self).routers().drop_last(),
            final(self).udfs.names() == old(self).udfs.names(),
    {
        let ghost before = self.routers();
        let _ = self.router_names.pop();
        let _ = self.router_supports.pop();
        assert(self.routers() =~= before.drop_last());
    }

    /// The routers, by position, to send a signal to: those that take
    /// signals, in order of registration.
    pub fn send_routers_signal(&self) -> (r: Vec<usize>)
        requires
            self.wf(),
        ensures
            forall|k: int| 0 <= k < r@.len() ==> r@[k] < self.routers().len() && self.routers()[r@[k] as int].1.has(SIGNAL),
            forall|i: int| 0 <= i < self.routers().len() && self.routers()[i].1.has(SIGNAL) ==> r@.contains(i as usize),
            r@.no_duplicates(),
    {
        let r = signal_recipients(&self.router_supports);
        proof {
            assert forall|i: int| 0 <= i < self.routers().len() implies self.routers()[i].1 == self.router_supports@[i] by {}
        }
        r
    }
}

/// The count the engine reports for a binary save or load of facts or
/// instances, with -1 for failure, read as a result.
pub fn persistence_count(count: i64, on_failure: CLIPSError) -> (r: CLIPSResult<usize>)
    requires
        count >= -1,
    ensures
        count == -1 ==> r == Err::<usize, CLIPSError>(on_failure),
        count >= 0 ==> r == Ok::<usize, CLIPSError>(count as usize),
{
    if count == -1 {
        Err(on_failure)
    } else {
        Ok(count as usize)
    }
}

/// The limit handed to the engine's run: -1 for no limit.
pub fn run_limit_argument(limit: Option<usize>) -> (r: i64)
    requires
        limit matches Some(l) ==> l <= i64::MAX,
    ensures
        r == (match limit {
            Some(l) => l as i64,
            None => -1i64,
        }),
{
    match limit {
        Some(l) => l as i64,
        None => -1,
    }
}

/// What a user function gets when the engine calls it: the engine instance,
/// the call's context and where its result goes, as addresses.
pub struct UDFData {
    pub env: usize,
    pub context: usize,
    pub result: usize,
}

impl UDFData {
    pub fn new(env: usize, context: usize, result: usize) -> (r: UDFData)
        ensures
            r.env == env,
            r.context == context,
            r.result == result,
    {
        UDFData { env, context, result }
    }

    /// The calling engine instance, not owned by the callback.
    pub fn env(&self) -> (r: CLIPSEnvironment)
        ensures
            r.wf(),
            r.raw == self.env,
            !r.destroy_on_drop,
            r.fact_builders.entries() == Seq::<(Seq<char>, usize)>::empty(),
            r.instance_builders.entries() == Seq::<(Seq<char>, usize)>::empty(),
    {
        CLIPSEnvironment::from_raw(self.env)
    }
}

} // verus!
