use vstd::prelude::*;

use crate::BuildError;
use crate::SourceType;
use crate::module::BoxModule;
use crate::options::complier_options::ComplierOptions;
use crate::plugin::api::{ParseModuleArgs, Plugin};
use crate::resolve_module_job::JobContext;

verus! {

/// The plugin index a dispatch table maps a source type to, if any.
pub open spec fn registered_index(mp: Seq<(SourceType, usize)>, st: SourceType) -> Option<usize> {
    if exists|i: int| 0 <= i < mp.len() && mp[i].0 == st {
        Some(mp[choose|i: int| 0 <= i < mp.len() && mp[i].0 == st].1)
    } else {
        None
    }
}

/// No two table rows share a source type.
pub open spec fn parser_keys_unique(mp: Seq<(SourceType, usize)>) -> bool {
    forall|i: int, j: int| 0 <= i < j < mp.len() ==> mp[i].0 != mp[j].0
}

/// With unique keys, the table maps a source type to the row holding it.
pub proof fn lemma_registered_at(mp: Seq<(SourceType, usize)>, st: SourceType, i: int)
    requires
        parser_keys_unique(mp),
        0 <= i < mp.len(),
        mp[i].0 == st,
    ensures
        registered_index(mp, st) == Some(mp[i].1),
{
    let j = choose|j: int| 0 <= j < mp.len() && mp[j].0 == st;
    if j != i {
        if j < i {
            assert(mp[j].0 != mp[i].0);
        } else {
            assert(mp[i].0 != mp[j].0);
        }
    }
}

/// Membership in a prefix of a source-type list is membership at an index
/// below the cut.
proof fn lemma_take_contains_st(s: Seq<SourceType>, n: int, x: SourceType)
    requires
        0 <= n <= s.len(),
    ensures
        s.take(n).contains(x) <==> exists|w: int| 0 <= w < n && #[trigger] s[w] == x,
{
    if s.take(n).contains(x) {
        let w = choose|w: int| 0 <= w < s.take(n).len() && s.take(n)[w] == x;
        assert(s[w] == x);
    }
    if exists|w: int| 0 <= w < n && #[trigger] s[w] == x {
        let w = choose|w: int| 0 <= w < n && s[w] == x;
        assert(s.take(n)[w] == x);
    }
}

/// The row holding `st`, if any.
fn find_type_index(mp: &Vec<(SourceType, usize)>, st: SourceType) -> (r: Option<usize>)
    ensures
        match r {
            Some(i) => i < mp@.len() && mp@[i as int].0 == st,
            None => forall|i: int| 0 <= i < mp@.len() ==> mp@[i].0 != st,
        },
{
    let mn = mp.len();
    let mut k: usize = 0;
    while k < mn
        invariant
            mn == mp@.len(),
            k <= mn,
            forall|i: int| 0 <= i < k ==> mp@[i].0 != st,
        decreases mn - k,
    {
        if mp[k].0 == st {
            return Some(k);
        }
        k = k + 1;
    }
    None
}

/// Folds one plugin's registration into the dispatch table: every source
/// type it declares now maps to that plugin's index, overwriting any
/// earlier registrant; every other source type keeps its mapping.
pub fn register_types(
    module_parser: &mut Vec<(SourceType, usize)>,
    types: &Vec<SourceType>,
    index: usize,
)
    requires
        parser_keys_unique(old(module_parser)@),
    ensures
        parser_keys_unique(final(module_parser)@),
        forall|st: SourceType|
            #[trigger] registered_index(final(module_parser)@, st) == if types@.contains(st) {
                Some(index)
            } else {
                registered_index(old(module_parser)@, st)
            },
        forall|i: int|
            0 <= i < final(module_parser)@.len() ==> (#[trigger] final(module_parser)@[i]).1
                == index || old(module_parser)@.contains(final(module_parser)@[i]),
{
    let ghost orig = module_parser@;
    let tn = types.len();
    let mut t: usize = 0;
    while t < tn
        invariant
            parser_keys_unique(orig),
            tn == types@.len(),
            t <= tn,
            parser_keys_unique(module_parser@),
            forall|st: SourceType|
                #[trigger] registered_index(module_parser@, st) == if types@.take(
                    t as int,
                ).contains(st) {
                    Some(index)
                } else {
                    registered_index(orig, st)
                },
            forall|i: int|
                0 <= i < module_parser@.len() ==> (#[trigger] module_parser@[i]).1 == index
                    || orig.contains(module_parser@[i]),
        decreases tn - t,
    {
        let st = types[t];
        let ghost pre = module_parser@;
        if let Some(k) = find_type_index(module_parser, st) {
            proof {
                assert(pre[k as int].0 == st);
            }
            module_parser.remove(k);
            module_parser.insert(k, (st, index));
            proof {
                assert(module_parser@ =~= pre.update(k as int, (st, index)));
                assert forall|i: int, j: int|
                    0 <= i < j < module_parser@.len() implies module_parser@[i].0
                    != module_parser@[j].0 by {
                    assert(pre[i].0 != pre[j].0);
                }
                lemma_registered_at(module_parser@, st, k as int);
                assert forall|st2: SourceType| st2 != st implies #[trigger] registered_index(
                    module_parser@,
                    st2,
                ) == registered_index(pre, st2) by {
                    if exists|i: int|
                        0 <= i < module_parser@.len() && module_parser@[i].0 == st2 {
                        let i = choose|i: int|
                            0 <= i < module_parser@.len() && module_parser@[i].0 == st2;
                        assert(pre[i].0 == st2);
                        lemma_registered_at(module_parser@, st2, i);
                        lemma_registered_at(pre, st2, i);
                    } else {
                        if exists|i: int| 0 <= i < pre.len() && pre[i].0 == st2 {
                            let i = choose|i: int| 0 <= i < pre.len() && pre[i].0 == st2;
                            assert(module_parser@[i].0 == st2);
                        }
                    }
                }
            }
        } else {
            proof {
                if exists|i: int| 0 <= i < pre.len() && pre[i].0 == st {
                    let i = choose|i: int| 0 <= i < pre.len() && pre[i].0 == st;
                    assert(pre[i].0 != st);
                }
            }
            module_parser.push((st, index));
            proof {
                assert forall|i: int, j: int|
                    0 <= i < j < module_parser@.len() implies module_parser@[i].0
                    != module_parser@[j].0 by {
                    if j < pre.len() {
                        assert(pre[i].0 != pre[j].0);
                    } else {
                        assert(pre[i].0 != st);
                    }
                }
                lemma_registered_at(module_parser@, st, pre.len() as int);
                assert forall|st2: SourceType| st2 != st implies #[trigger] registered_index(
                    module_parser@,
                    st2,
                ) == registered_index(pre, st2) by {
                    if exists|i: int|
                        0 <= i < module_parser@.len() && module_parser@[i].0 == st2 {
                        let i = choose|i: int|
                            0 <= i < module_parser@.len() && module_parser@[i].0 == st2;
                        assert(i < pre.len());
                        lemma_registered_at(module_parser@, st2, i);
                        lemma_registered_at(pre, st2, i);
                    } else {
                        if exists|i: int| 0 <= i < pre.len() && pre[i].0 == st2 {
                            let i = choose|i: int| 0 <= i < pre.len() && pre[i].0 == st2;
                            assert(module_parser@[i].0 == st2);
                        }
                    }
                }
            }
        }
        proof {
            assert(types@.take(t + 1 as int).drop_last() =~= types@.take(t as int));
            assert(types@.take(t + 1 as int).last() == types@[t as int]);
            assert forall|st2: SourceType| true implies #[trigger] registered_index(
                module_parser@,
                st2,
            ) == if types@.take(t + 1 as int).contains(st2) {
                Some(index)
            } else {
                registered_index(orig, st2)
            } by {
                lemma_take_contains_st(types@, t + 1 as int, st2);
                lemma_take_contains_st(types@, t as int, st2);
                if st2 == st {
                } else {
                    assert(registered_index(module_parser@, st2) == registered_index(pre, st2));
                }
            }
        }
        t = t + 1;
    }
    proof {
        assert(types@.take(tn as int) =~= types@);
    }
}

/// Drives the registered plugins: parsing dispatch is an exact-match
/// lookup from a module's source type to the one plugin that parses it;
/// the last registrant of a type wins.
pub struct PluginDriver {
    pub options: ComplierOptions,
    pub plugins: Vec<Box<dyn Plugin>>,
    pub module_parser: Vec<(SourceType, usize)>,
}

impl PluginDriver {
    /// The registry's invariant: one registrant per source type, each a
    /// real plugin index.
    pub open spec fn wf(self) -> bool {
        &&& parser_keys_unique(self.module_parser@)
        &&& forall|i: int|
            0 <= i < self.module_parser@.len() ==> (#[trigger] self.module_parser@[i]).1
                < self.plugins@.len()
    }

    /// Some plugin registered for `st`.
    pub open spec fn registered(self, st: SourceType) -> bool {
        registered_index(self.module_parser@, st) is Some
    }

    /// Builds the dispatch table by folding each plugin's registration in
    /// plugin order, so the last registrant of a source type wins. A
    /// plugin that registers nothing leaves the table alone; no plugins
    /// leave it empty.
    pub fn new(options: ComplierOptions, plugins: Vec<Box<dyn Plugin>>) -> (r: Self)
        ensures
            r.wf(),
            r.plugins@.len() == plugins@.len(),
            plugins@.len() == 0 ==> r.module_parser@.len() == 0,
            r.options == options,
    {
        let mut module_parser: Vec<(SourceType, usize)> = Vec::new();
        let pn = plugins.len();
        let mut index: usize = 0;
        while index < pn
            invariant
                pn == plugins@.len(),
                index <= pn,
                pn == 0 ==> module_parser@.len() == 0,
                parser_keys_unique(module_parser@),
                forall|i: int|
                    0 <= i < module_parser@.len() ==> (#[trigger] module_parser@[i]).1 < pn,
            decreases pn - index,
        {
            match plugins[index].register_parse_module() {
                Some(types) => {
                    let ghost pre = module_parser@;
                    register_types(&mut module_parser, &types, index);
                    proof {
                        assert forall|i: int|
                            0 <= i < module_parser@.len() implies (
                        #[trigger] module_parser@[i]).1 < pn by {
                            if module_parser@[i].1 != index {
                                let w = choose|w: int|
                                    0 <= w < pre.len() && pre[w] == module_parser@[i];
                            }
                        }
                    }
                },
                None => {
                },
            }
            index = index + 1;
        }
        Self { options, plugins, module_parser }
    }

    /// Parses a module through the one plugin registered for the job's
    /// source type. An unset or unregistered source type, or a plugin
    /// that yields nothing, is the unsupported-source-type failure — the
    /// only failure this dispatch produces.
    pub fn parse_module(&self, args: ParseModuleArgs, job_ctx: &mut JobContext) -> (r: Result<
        BoxModule,
        BuildError,
    >)
        requires
            self.wf(),
        ensures
            old(job_ctx).source_type is None ==> r == Result::<BoxModule, BuildError>::Err(
                BuildError::UnsupportedSourceType,
            ),
            (old(job_ctx).source_type matches Some(st) && !self.registered(st)) ==> r
                == Result::<BoxModule, BuildError>::Err(BuildError::UnsupportedSourceType),
            r is Err ==> r == Result::<BoxModule, BuildError>::Err(
                BuildError::UnsupportedSourceType,
            ),
    {
        let st: SourceType = match &job_ctx.source_type {
            Some(st) => *st,
            None => {
                return Err(BuildError::UnsupportedSourceType);
            },
        };
        let mn = self.module_parser.len();
        let mut k: usize = 0;
        while k < mn
            invariant
                self.wf(),
                old(job_ctx).source_type == Some(st),
                mn == self.module_parser@.len(),
                k <= mn,
                forall|i: int| 0 <= i < k ==> self.module_parser@[i].0 != st,
            decreases mn - k,
        {
            if self.module_parser[k].0 == st {
                proof {
                    assert(self.module_parser@[k as int].0 == st);
                    lemma_registered_at(self.module_parser@, st, k as int);
                }
                let index = self.module_parser[k].1;
                match self.plugins[index].parse_module(job_ctx, args) {
                    Some(module) => {
                        return Ok(module);
                    },
                    None => {
                        return Err(BuildError::UnsupportedSourceType);
                    },
                }
            }
            k = k + 1;
        }
        proof {
            if self.registered(st) {
                let i = choose|i: int|
                    0 <= i < self.module_parser@.len() && self.module_parser@[i].0 == st;
                assert(self.module_parser@[i].0 != st);
            }
        }
        Err(BuildError::UnsupportedSourceType)
    }
}

} // verus!
