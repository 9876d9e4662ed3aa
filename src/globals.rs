use vstd::prelude::*;

use crate::error::{CLIPSError, CLIPSResult};
use crate::text::text_eq;
use crate::value::{model, models, CLIPSValue, ValueModel};

verus! {

/// A global variable: its module, its name and its current value.
pub struct GlobalEntry {
    pub module: String,
    pub name: String,
    pub value: CLIPSValue,
}

/// The global variables of one module, by name.
pub struct ModuleGlobals {
    pub module: String,
    pub globals: Vec<(String, CLIPSValue)>,
}

/// A snapshot of global variables: module by module, variable by variable.
pub type CLIPSGlobalsHierarchy = Vec<ModuleGlobals>;

/// A global variable as the contracts see it.
pub type GlobalModel = (Seq<char>, Seq<char>, ValueModel);

pub open spec fn entry_model(e: GlobalEntry) -> GlobalModel {
    (e.module@, e.name@, model(e.value))
}

/// The engine's global variables as the environment walks them: the modules
/// in order, and the variables in the order of their definition.
pub struct DefglobalTable {
    pub modules: Vec<String>,
    pub entries: Vec<GlobalEntry>,
}

/// No two variables share a module and a name.
pub open spec fn unique_keys(es: Seq<GlobalModel>) -> bool {
    forall|a: int, b: int|
        0 <= a < b < es.len() ==> !((#[trigger] es[a]).0 == (#[trigger] es[b]).0 && es[a].1 == es[b].1)
}

proof fn lemma_set_keeps_unique(es: Seq<GlobalModel>, m: Seq<char>, n: Seq<char>, v: ValueModel)
    requires
        unique_keys(es),
    ensures
        unique_keys(set_global(es, m, n, v)),
{
    let es1 = set_global(es, m, n, v);
    assert forall|a: int, b: int| 0 <= a < b < es1.len() implies !((#[trigger] es1[a]).0 == (#[trigger] es1[b]).0 && es1[a].1 == es1[b].1) by {
        assert(es1[a].0 == es[a].0 && es1[a].1 == es[a].1);
        assert(es1[b].0 == es[b].0 && es1[b].1 == es[b].1);
    }
}

/// A variable of module `m` named `n` exists.
pub open spec fn has_global(es: Seq<GlobalModel>, m: Seq<char>, n: Seq<char>) -> bool {
    exists|k: int| 0 <= k < es.len() && (#[trigger] es[k]).0 == m && es[k].1 == n
}

/// The variables after the one of module `m` named `n` is given value `v`.
pub open spec fn set_global(es: Seq<GlobalModel>, m: Seq<char>, n: Seq<char>, v: ValueModel) -> Seq<GlobalModel> {
    Seq::new(es.len(), |k: int| if es[k].0 == m && es[k].1 == n { (m, n, v) } else { es[k] })
}

/// Restoring `items` in order: each one is written by its qualified name; the
/// first one whose variable does not exist stops the restore, and what was
/// written before it stays. Gives the variables after, and whether all were
/// found.
pub open spec fn restored(es: Seq<GlobalModel>, items: Seq<GlobalModel>) -> (Seq<GlobalModel>, bool)
    decreases items.len(),
{
    if items.len() == 0 {
        (es, true)
    } else if !has_global(es, items[0].0, items[0].1) {
        (es, false)
    } else {
        restored(set_global(es, items[0].0, items[0].1, items[0].2), items.drop_first())
    }
}

/// The variables of a snapshot, in order, from variable `j` of module `i` on.
pub open spec fn snapshot_items(h: Seq<ModuleGlobals>, i: int, j: int) -> Seq<GlobalModel>
    decreases h.len() - i, (if 0 <= i < h.len() { h[i].globals@.len() - j } else { 0 }),
{
    if i < 0 || i >= h.len() {
        Seq::empty()
    } else if j < 0 || j >= h[i].globals@.len() {
        snapshot_items(h, i + 1, 0)
    } else {
        seq![(h[i].module@, h[i].globals@[j].0@, model(h[i].globals@[j].1))] + snapshot_items(h, i, j + 1)
    }
}

/// The variables of module `m`, by name, in order.
pub open spec fn module_items(es: Seq<GlobalModel>, m: Seq<char>) -> Seq<(Seq<char>, ValueModel)> {
    es.filter(|e: GlobalModel| e.0 == m).map_values(|e: GlobalModel| (e.1, e.2))
}

/// A deep copy of a value.
pub fn copy_value(v: &CLIPSValue) -> (r: CLIPSValue)
    ensures
        model(r) == model(*v),
    decreases v, 0int,
{
    match v {
        CLIPSValue::Symbol(t) => CLIPSValue::Symbol(t.clone()),
        CLIPSValue::Int(i) => CLIPSValue::Int(*i),
        CLIPSValue::String(t) => CLIPSValue::String(t.clone()),
        CLIPSValue::Float(b) => CLIPSValue::Float(*b),
        CLIPSValue::Bool(b) => CLIPSValue::Bool(*b),
        CLIPSValue::Multifield(vs) => {
            let out = copy_values(vs);
            proof {
                crate::value::lemma_multifield_model(out);
                crate::value::lemma_multifield_model(*vs);
                assert(models(out@) =~= models(vs@));
            }
            CLIPSValue::Multifield(out)
        },
    }
}

fn copy_values(vs: &Vec<CLIPSValue>) -> (out: Vec<CLIPSValue>)
    ensures
        models(out@) == models(vs@),
    decreases vs, 1int,
{
    let mut out: Vec<CLIPSValue> = Vec::new();
    let mut k: usize = 0;
    while k < vs.len()
        invariant
            0 <= k <= vs@.len(),
            out@.len() == k,
            forall|j: int| 0 <= j < k ==> model(#[trigger] out@[j]) == model(vs@[j]),
        decreases vs@.len() - k,
    {
        proof {
            vstd::std_specs::vec::axiom_vec_index_decreases(*vs, k as int);
        }
        let x = copy_value(&vs[k]);
        out.push(x);
        k = k + 1;
    }
    assert(models(out@) =~= models(vs@));
    out
}

impl DefglobalTable {
    pub closed spec fn globals(&self) -> Seq<GlobalModel> {
        Seq::new(self.entries@.len(), |k: int| entry_model(self.entries@[k]))
    }

    pub closed spec fn module_names(&self) -> Seq<Seq<char>> {
        Seq::new(self.modules@.len(), |k: int| self.modules@[k]@)
    }

    /// No two variables share a module and a name.
    pub open spec fn wf(&self) -> bool {
        unique_keys(self.globals())
    }

    /// Writes `v` to the variable of module `m` named `n`; says whether it
    /// exists.
    pub fn set_value(&mut self, m: &str, n: &str, v: &CLIPSValue) -> (found: bool)
        requires
            old(self).wf(),
        ensures
            final(self).wf(),
            found == has_global(old(self).globals(), m@, n@),
            final(self).globals() == (if found {
                set_global(old(self).globals(), m@, n@, model(*v))
            } else {
                old(self).globals()
            }),
            final(self).module_names() == old(self).module_names(),
    {
        let ghost g = self.globals();
        let mut k: usize = 0;
        while k < self.entries.len()
            invariant
                0 <= k <= self.entries@.len(),
                g == old(self).globals(),
                unique_keys(g),
                self.entries@ == old(self).entries@,
                self.modules@ == old(self).modules@,
                forall|j: int| 0 <= j < k ==> !(g[j].0 == m@ && g[j].1 == n@),
            decreases self.entries@.len() - k,
        {
            assert(g[k as int] == entry_model(self.entries@[k as int]));
            if text_eq(self.entries[k].module.as_str(), m) && text_eq(self.entries[k].name.as_str(), n) {
                let e = GlobalEntry {
                    module: self.entries[k].module.clone(),
                    name: self.entries[k].name.clone(),
                    value: copy_value(v),
                };
                let ghost old_entries = self.entries@;
                self.entries.set(k, e);
                proof {
                    assert(self.entries@ == old_entries.update(k as int, e));
                    assert forall|j: int| 0 <= j < g.len() implies self.globals()[j] == set_global(g, m@, n@, model(*v))[j] by {
                        if j != k {
                            assert(self.entries@[j] == old_entries[j]);
                            if g[j].0 == m@ && g[j].1 == n@ {
                                if j < k {
                                    assert(false);
                                } else {
                                    assert(unique_keys(g));
                                    assert(!(g[k as int].0 == g[j].0 && g[k as int].1 == g[j].1));
                                }
                            }
                        }
                    }
                    assert(self.globals() =~= set_global(g, m@, n@, model(*v)));
                    lemma_set_keeps_unique(g, m@, n@, model(*v));
                    assert(self.module_names() =~= old(self).module_names());
                    assert(has_global(g, m@, n@)) by {
                        assert(g[k as int].0 == m@ && g[k as int].1 == n@);
                    }
                }
                return true;
            }
            k = k + 1;
        }
        proof {
            assert(self.module_names() =~= old(self).module_names());
            assert(self.globals() =~= g);
        }
        false
    }

    /// Writes back a snapshot, variable by variable in its order, each by its
    /// qualified name. Not transactional: the first variable that does not
    /// exist stops it with `DefglobalNotFound`, and what was written before
    /// stays written.
    pub fn restore_globals(&mut self, globals: &CLIPSGlobalsHierarchy) -> (r: CLIPSResult<()>)
        requires
            old(self).wf(),
        ensures
            final(self).wf(),
            final(self).globals() == restored(old(self).globals(), snapshot_items(globals@, 0, 0)).0,
            r is Ok <==> restored(old(self).globals(), snapshot_items(globals@, 0, 0)).1,
            r is Err ==> r == Err::<(), CLIPSError>(CLIPSError::DefglobalNotFound),
            final(self).module_names() == old(self).module_names(),
    {
        let ghost target = restored(self.globals(), snapshot_items(globals@, 0, 0));
        let ghost mods = self.module_names();
        let mut i: usize = 0;
        let mut j: usize = 0;
        while i < globals.len()
            invariant
                self.wf(),
                0 <= i <= globals@.len(),
                i < globals@.len() ==> j <= globals@[i as int].globals@.len(),
                restored(self.globals(), snapshot_items(globals@, i as int, j as int)) == target,
                target == restored(old(self).globals(), snapshot_items(globals@, 0, 0)),
                self.module_names() == mods,
                mods == old(self).module_names(),
            decreases globals@.len() - i, (if i < globals@.len() { globals@[i as int].globals@.len() - j } else { 0 }),
        {
            let mg = &globals[i];
            if j < mg.globals.len() {
                let pair = &mg.globals[j];
                let ghost item = (mg.module@, pair.0@, model(pair.1));
                let ghost before = self.globals();
                proof {
                    assert(snapshot_items(globals@, i as int, j as int) == seq![item] + snapshot_items(globals@, i as int, j + 1));
                    assert((seq![item] + snapshot_items(globals@, i as int, j + 1)).drop_first() =~= snapshot_items(globals@, i as int, j + 1));
                }
                let found = self.set_value(mg.module.as_str(), pair.0.as_str(), &pair.1);
                if !found {
                    proof {
                        let rest = snapshot_items(globals@, i as int, j + 1);
                        assert((seq![item] + rest)[0] == item);
                        assert(restored(before, seq![item] + rest) == (before, false));
                    }
                    return Err(CLIPSError::DefglobalNotFound);
                }
                proof {
                    let rest = snapshot_items(globals@, i as int, j + 1);
                    assert((seq![item] + rest)[0] == item);
                }
                j = j + 1;
            } else {
                i = i + 1;
                j = 0;
            }
        }
        Ok(())
    }

    /// The current values of all variables, module by module in the order of
    /// the modules, every module included.
    pub fn retrieve_globals_values(&self) -> (r: CLIPSGlobalsHierarchy)
        ensures
            r@.len() == self.module_names().len(),
            forall|i: int| 0 <= i < r@.len() ==> (#[trigger] r@[i]).module@ == self.module_names()[i]
                && Seq::new(r@[i].globals@.len(), |k: int| (r@[i].globals@[k].0@, model(r@[i].globals@[k].1)))
                == module_items(self.globals(), self.module_names()[i]),
    {
        let mut r: Vec<ModuleGlobals> = Vec::new();
        let mut i: usize = 0;
        while i < self.modules.len()
            invariant
                0 <= i <= self.modules@.len(),
                r@.len() == i,
                forall|a: int| 0 <= a < i ==> (#[trigger] r@[a]).module@ == self.module_names()[a]
                    && Seq::new(r@[a].globals@.len(), |k: int| (r@[a].globals@[k].0@, model(r@[a].globals@[k].1)))
                    == module_items(self.globals(), self.module_names()[a]),
            decreases self.modules@.len() - i,
        {
            let m = &self.modules[i];
            let mut gs: Vec<(String, CLIPSValue)> = Vec::new();
            let mut k: usize = 0;
            let ghost g = self.globals();
            while k < self.entries.len()
                invariant
                    0 <= k <= self.entries@.len(),
                    g == self.globals(),
                    m@ == self.module_names()[i as int],
                    Seq::new(gs@.len(), |q: int| (gs@[q].0@, model(gs@[q].1))) == module_items(g.take(k as int), m@),
                decreases self.entries@.len() - k,
            {
                let ghost before = gs@;
                proof {
                    reveal(Seq::filter);
                    assert(g.take(k + 1).drop_last() =~= g.take(k as int));
                    assert(g.take(k + 1).last() == g[k as int]);
                }
                if text_eq(self.entries[k].module.as_str(), m.as_str()) {
                    let name = self.entries[k].name.clone();
                    let value = copy_value(&self.entries[k].value);
                    gs.push((name, value));
                    proof {
                        assert(Seq::new(gs@.len(), |q: int| (gs@[q].0@, model(gs@[q].1))) =~= Seq::new(before.len(), |q: int| (before[q].0@, model(before[q].1))).push((g[k as int].1, g[k as int].2)));
                        assert(module_items(g.take(k + 1), m@) =~= module_items(g.take(k as int), m@).push((g[k as int].1, g[k as int].2)));
                    }
                } else {
                    proof {
                        assert(module_items(g.take(k + 1), m@) =~= module_items(g.take(k as int), m@));
                    }
                }
                k = k + 1;
            }
            proof {
                assert(g.take(k as int) =~= g);
            }
            r.push(ModuleGlobals { module: m.clone(), globals: gs });
            i = i + 1;
        }
        r
    }
}

/// Restoring is not transactional: when the first `k` variables of a restore
/// exist and the next one does not, the restore fails having written exactly
/// those `k`.
pub proof fn lemma_restore_partial(es: Seq<GlobalModel>, items: Seq<GlobalModel>, k: int)
    requires
        0 <= k < items.len(),
        forall|j: int| 0 <= j < k ==> has_global(es, (#[trigger] items[j]).0, items[j].1),
        !has_global(es, items[k].0, items[k].1),
    ensures
        restored(es, items) == (written(es, items.take(k)), false),
    decreases k,
{
    if k == 0 {
        assert(items.take(0) =~= Seq::<GlobalModel>::empty());
    } else {
        let es1 = set_global(es, items[0].0, items[0].1, items[0].2);
        lemma_set_keeps_names(es, items[0].0, items[0].1, items[0].2);
        assert forall|j: int| 0 <= j < k - 1 implies has_global(es1, (#[trigger] items.drop_first()[j]).0, items.drop_first()[j].1) by {
            assert(items.drop_first()[j] == items[j + 1]);
        }
        assert(items.drop_first()[k - 1] == items[k]);
        lemma_restore_partial(es1, items.drop_first(), k - 1);
        assert(items.take(k).drop_first() =~= items.drop_first().take(k - 1));
    }
}

/// The variables after writing `items` in order, each that exists.
pub open spec fn written(es: Seq<GlobalModel>, items: Seq<GlobalModel>) -> Seq<GlobalModel>
    decreases items.len(),
{
    if items.len() == 0 {
        es
    } else {
        written(set_global(es, items[0].0, items[0].1, items[0].2), items.drop_first())
    }
}

proof fn lemma_set_keeps_names(es: Seq<GlobalModel>, m: Seq<char>, n: Seq<char>, v: ValueModel)
    ensures
        forall|a: Seq<char>, b: Seq<char>| has_global(set_global(es, m, n, v), a, b) == has_global(es, a, b),
{
    let es1 = set_global(es, m, n, v);
    assert forall|a: Seq<char>, b: Seq<char>| has_global(es1, a, b) == has_global(es, a, b) by {
        if has_global(es, a, b) {
            let k = choose|k: int| 0 <= k < es.len() && (#[trigger] es[k]).0 == a && es[k].1 == b;
            assert(es1[k].0 == a && es1[k].1 == b);
        }
        if has_global(es1, a, b) {
            let k = choose|k: int| 0 <= k < es1.len() && (#[trigger] es1[k]).0 == a && es1[k].1 == b;
            assert(es[k].0 == a && es[k].1 == b);
        }
    }
}

} // verus!
