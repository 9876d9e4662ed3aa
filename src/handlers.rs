use vstd::prelude::*;

use crate::text::text_eq;

verus! {

/// Handlers by name (user functions, or routers), kept for an engine
/// instance. While a handler runs, the whole table is lent out to it: a
/// callback that reaches the engine again finds the table absent instead of
/// a second live reference to it.
pub struct HandlerTable<H> {
    table: Option<Vec<(String, H)>>,
}

/// The names of a table's handlers, in order.
pub open spec fn handler_names<H>(t: Seq<(String, H)>) -> Seq<Seq<char>> {
    Seq::new(t.len(), |i: int| t[i].0@)
}

/// The position of the handler named `name`.
pub fn find_handler<H>(t: &Vec<(String, H)>, name: &str) -> (r: Option<usize>)
    ensures
        r matches Some(i) ==> i < t@.len() && t@[i as int].0@ == name@,
        r is None ==> !handler_names(t@).contains(name@),
{
    let mut i: usize = 0;
    while i < t.len()
        invariant
            0 <= i <= t@.len(),
            forall|j: int| 0 <= j < i ==> t@[j].0@ != name@,
        decreases t@.len() - i,
    {
        if text_eq(t[i].0.as_str(), name) {
            return Some(i);
        }
        i = i + 1;
    }
    proof {
        if handler_names(t@).contains(name@) {
            let k = choose|k: int| 0 <= k < t@.len() && handler_names(t@)[k] == name@;
            assert(t@[k].0@ == name@);
        }
    }
    None
}

impl<H> HandlerTable<H> {
    /// The names of the handlers, or `None` while the table is lent out.
    pub closed spec fn names(&self) -> Option<Seq<Seq<char>>> {
        match self.table {
            Some(t) => Some(handler_names(t@)),
            None => None,
        }
    }

    pub fn new() -> (r: HandlerTable<H>)
        ensures
            r.names() == Some(Seq::<Seq<char>>::empty()),
    {
        let r = HandlerTable { table: Some(Vec::new()) };
        assert(handler_names(Seq::<(String, H)>::empty()) =~= Seq::<Seq<char>>::empty());
        r
    }

    /// Adds a handler under a name, replacing one of the same name. Gives
    /// back the handler when the table is lent out.
    pub fn insert(&mut self, name: String, h: H) -> (r: Option<H>)
        ensures
            old(self).names() is None ==> r is Some && final(self).names() is None,
            old(self).names() is Some ==> r is None && final(self).names() is Some
                && final(self).names()->Some_0.contains(name@)
                && forall|n: Seq<char>| n != name@ ==> (final(self).names()->Some_0.contains(n) == old(self).names()->Some_0.contains(n)),
    {
        match self.table.take() {
            None => Some(h),
            Some(mut t) => {
                let ghost before = t@;
                let nm = name.clone();
                match find_handler(&t, nm.as_str()) {
                    Some(i) => {
                        t.set(i, (name, h));
                        proof {
                            assert(handler_names(t@) =~= handler_names(before));
                            assert(handler_names(t@)[i as int] == nm@);
                        }
                    },
                    None => {
                        t.push((name, h));
                        proof {
                            assert(handler_names(t@) =~= handler_names(before).push(nm@));
                            assert(handler_names(t@)[before.len() as int] == nm@);
                            assert forall|n: Seq<char>| n != nm@ implies (handler_names(t@).contains(n) == handler_names(before).contains(n)) by {
                                if handler_names(before).contains(n) {
                                    let k = choose|k: int| 0 <= k < before.len() && handler_names(before)[k] == n;
                                    assert(handler_names(t@)[k] == n);
                                }
                            }
                        }
                    },
                }
                self.table = Some(t);
                None
            },
        }
    }

    /// Removes the handler of that name; says whether there was one. Nothing
    /// is removed while the table is lent out.
    pub fn remove(&mut self, name: &str) -> (r: bool)
        ensures
            old(self).names() is None ==> !r && final(self).names() is None,
            old(self).names() is Some ==> final(self).names() is Some
                && r == old(self).names()->Some_0.contains(name@),
    {
        match self.table.take() {
            None => false,
            Some(mut t) => {
                let ghost before = t@;
                let found = match find_handler(&t, name) {
                    Some(i) => {
                        let _ = t.remove(i);
                        proof {
                            assert(handler_names(before)[i as int] == name@);
                        }
                        true
                    },
                    None => false,
                };
                self.table = Some(t);
                found
            },
        }
    }

    /// Takes the table out for the duration of a callback; `None` when it is
    /// already out.
    pub fn lend(&mut self) -> (r: Option<Vec<(String, H)>>)
        ensures
            final(self).names() is None,
            r is None <==> old(self).names() is None,
            r matches Some(t) ==> old(self).names() == Some(handler_names(t@)),
    {
        self.table.take()
    }

    /// Puts the table back after a callback.
    pub fn restore(&mut self, t: Vec<(String, H)>)
        ensures
            final(self).names() == Some(handler_names(t@)),
    {
        self.table = Some(t);
    }
}

} // verus!
