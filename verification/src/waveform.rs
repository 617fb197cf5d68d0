//! One trace as callers see it: its hierarchy, and the signals of its
//! variables, loaded on request and kept in a cache.

use std::sync::Arc;
use vstd::prelude::*;
use vstd::string::StringExecFns;
use crate::codes::FstHandle;
use crate::hierarchy::Hierarchy;
use crate::hierarchy::SignalRef;
use crate::hierarchy::Var;
use crate::hierarchy::VarView;
use crate::signal::Signal;
use crate::source::answer;
use crate::source::decoded;
use crate::source::ids_of;
use crate::source::planned;
use crate::source::samples_of;
use crate::source::scan_of;
use crate::source::served;
use crate::source::lemma_served_entries;
use crate::shared::share;
use crate::source::BatchPlan;
use crate::source::BlockScan;
use crate::source::LoadStep;
use crate::source::ScanRequest;
use crate::source::SignalSource;

verus! {

/// The request that loads the signal of `var`.
pub open spec fn request_of(var: VarView) -> (SignalRef, FstHandle, bool, bool) {
    (var.signal_ref, var.fst_handle, var.var_type.spec_is_real(), var.var_type.spec_is_string())
}

/// The requests that load the signals of `vars`, in the same order.
pub open spec fn requests_of(vars: Seq<Var>) -> Seq<(SignalRef, FstHandle, bool, bool)> {
    vars.map_values(|v: Var| request_of(v@))
}

/// Whether `cache` holds the signal of every variable of `vars`.
pub open spec fn all_cached(cache: Map<usize, Arc<Signal>>, vars: Seq<Var>) -> bool {
    forall|i: int| 0 <= i < vars.len() ==> cache.contains_key((#[trigger] vars[i]).signal_ref.0)
}

/// The signals of `vars` as `cache` holds them: one for each variable, in the
/// order of the variables.
pub open spec fn collected(cache: Map<usize, Arc<Signal>>, vars: Seq<Var>) -> Seq<Arc<Signal>> {
    Seq::new(vars.len(), |i: int| cache[vars[i].signal_ref.0])
}

/// A trace: its hierarchy and, once the body is loaded, its time range and
/// the cache of its signals.
pub struct Waveform {
    pub hierarchy: Arc<Hierarchy>,
    /// The cache of signals; `None` until the body is loaded.
    pub wave_source: Option<SignalSource>,
    /// The first and last time of the trace; `None` until the body is loaded.
    pub time_range: Option<(u64, u64)>,
    /// The first and last time that the trace records.
    pub trace_span: (u64, u64),
    /// Whether the waveform was opened for loads on several threads.
    pub multi_threaded: bool,
}

/// The position of the first entry of `loaded` for the identity
/// `signal_ref`, if there is one.
pub open spec fn first_entry(loaded: Seq<(SignalRef, Arc<Signal>)>, signal_ref: SignalRef) -> Option<
    int,
>
    decreases loaded.len(),
{
    if loaded.len() == 0 {
        None
    } else {
        match first_entry(loaded.drop_last(), signal_ref) {
            Some(i) => Some(i),
            None => if loaded.last().0 == signal_ref {
                Some(loaded.len() - 1)
            } else {
                None
            },
        }
    }
}

/// Whether `loaded` holds an entry for the signal of every variable of
/// `vars`.
pub open spec fn all_loaded(loaded: Seq<(SignalRef, Arc<Signal>)>, vars: Seq<Var>) -> bool {
    forall|i: int| 0 <= i < vars.len() ==> first_entry(loaded, (#[trigger] vars[i]).signal_ref) is Some
}

/// The signals of `vars` picked from `loaded`: for each variable, in the
/// order of the variables, the signal of the first entry for its identity.
pub open spec fn assembled(loaded: Seq<(SignalRef, Arc<Signal>)>, vars: Seq<Var>) -> Seq<
    Arc<Signal>,
> {
    Seq::new(vars.len(), |i: int| loaded[first_entry(loaded, vars[i].signal_ref)->0].1)
}

/// The first entry for an identity holds that identity and no entry before it
/// does; where there is none, no entry holds the identity.
pub proof fn lemma_first_entry(loaded: Seq<(SignalRef, Arc<Signal>)>, signal_ref: SignalRef)
    ensures
        match first_entry(loaded, signal_ref) {
            Some(k) => {
                &&& 0 <= k < loaded.len()
                &&& loaded[k].0 == signal_ref
                &&& forall|j: int| 0 <= j < k ==> (#[trigger] loaded[j]).0 != signal_ref
            },
            None => forall|j: int| 0 <= j < loaded.len() ==> (#[trigger] loaded[j]).0 != signal_ref,
        },
    decreases loaded.len(),
{
    if loaded.len() > 0 {
        let rest = loaded.drop_last();
        lemma_first_entry(rest, signal_ref);
        match first_entry(rest, signal_ref) {
            Some(k) => {
                assert(rest[k] == loaded[k]);
                assert forall|j: int| 0 <= j < k implies (#[trigger] loaded[j]).0 != signal_ref by {
                    assert(rest[j] == loaded[j]);
                }
            },
            None => {
                assert forall|j: int| 0 <= j < rest.len() implies (#[trigger] loaded[j]).0
                    != signal_ref by {
                    assert(rest[j] == loaded[j]);
                }
            },
        }
    }
}

/// Where a prefix of `loaded` holds an entry for an identity, the first entry
/// of `loaded` for it is the first entry of that prefix.
pub proof fn lemma_first_entry_prefix(
    loaded: Seq<(SignalRef, Arc<Signal>)>,
    n: int,
    signal_ref: SignalRef,
)
    requires
        0 <= n <= loaded.len(),
        first_entry(loaded.take(n), signal_ref) is Some,
    ensures
        first_entry(loaded, signal_ref) == first_entry(loaded.take(n), signal_ref),
    decreases loaded.len() - n,
{
    if n == loaded.len() {
        assert(loaded.take(n) =~= loaded);
    } else {
        assert(loaded.drop_last().take(n) =~= loaded.take(n));
        lemma_first_entry_prefix(loaded.drop_last(), n, signal_ref);
    }
}

/// The position of the first entry of `loaded` for `signal_ref`.
fn find_entry(loaded: &Vec<(SignalRef, Arc<Signal>)>, signal_ref: SignalRef) -> (r: Option<usize>)
    ensures
        match r {
            Some(k) => first_entry(loaded@, signal_ref) == Some(k as int) && k < loaded@.len(),
            None => first_entry(loaded@, signal_ref) is None,
        },
{
    let mut i: usize = 0;
    while i < loaded.len()
        invariant
            i <= loaded@.len(),
            first_entry(loaded@.take(i as int), signal_ref) is None,
        decreases loaded@.len() - i,
    {
        assert(loaded@.take(i + 1).drop_last() =~= loaded@.take(i as int));
        if loaded[i].0.0 == signal_ref.0 {
            proof {
                lemma_first_entry_prefix(loaded@, i + 1, signal_ref);
            }
            return Some(i);
        }
        i += 1;
    }
    assert(loaded@.take(i as int) =~= loaded@);
    None
}

/// Puts the signals of a batch in the order of the variables asked for:
/// for each variable the signal that `loaded` holds for its identity,
/// whatever the order of `loaded`. Where `loaded` holds none for a variable,
/// the first such variable is named in the error.
pub fn assemble(vars: &[Var], loaded: &Vec<(SignalRef, Arc<Signal>)>) -> (r: Result<
    Vec<Arc<Signal>>,
    String,
>)
    ensures
        match r {
            Ok(signals) => all_loaded(loaded@, vars@) && signals@ == assembled(loaded@, vars@),
            Err(e) => exists|m: int|
                {
                    &&& 0 <= m < vars@.len()
                    &&& all_loaded(loaded@, vars@.take(m))
                    &&& first_entry(loaded@, (#[trigger] vars@[m]).signal_ref) is None
                    &&& e@ == "Failed to load signal for "@ + vars@[m].name@
                },
        },
{
    let mut out: Vec<Arc<Signal>> = Vec::new();
    let mut i: usize = 0;
    while i < vars.len()
        invariant
            i <= vars@.len(),
            all_loaded(loaded@, vars@.take(i as int)),
            out@ == assembled(loaded@, vars@.take(i as int)),
        decreases vars@.len() - i,
    {
        let var = &vars[i];
        match find_entry(loaded, var.signal_ref) {
            Some(k) => {
                out.push(share(&loaded[k].1));
            },
            None => {
                let mut message = "Failed to load signal for ".to_owned();
                message.append(var.name.as_str());
                return Err(message);
            },
        }
        i += 1;
        proof {
            assert forall|k: int| 0 <= k < i implies first_entry(
                loaded@,
                (#[trigger] vars@.take(i as int)[k]).signal_ref,
            ) is Some by {
                if k < i - 1 {
                    assert(vars@.take(i - 1)[k] == vars@[k]);
                }
            }
            assert(out@ =~= assembled(loaded@, vars@.take(i as int)));
        }
    }
    assert(vars@.take(i as int) =~= vars@);
    Ok(out)
}

/// What a batch assembles does not depend on the order in which its signals
/// were loaded: two lists that hold the same entries, with one signal for
/// each identity, give the same signals for the same variables.
pub proof fn lemma_assembled_in_any_order(
    first: Seq<(SignalRef, Arc<Signal>)>,
    second: Seq<(SignalRef, Arc<Signal>)>,
    vars: Seq<Var>,
)
    requires
        forall|e: (SignalRef, Arc<Signal>)| first.contains(e) <==> second.contains(e),
        forall|i: int, j: int|
            0 <= i < first.len() && 0 <= j < first.len() && (#[trigger] first[i]).0 == (
            #[trigger] first[j]).0 ==> first[i].1 == first[j].1,
    ensures
        all_loaded(first, vars) <==> all_loaded(second, vars),
        all_loaded(first, vars) ==> assembled(first, vars) == assembled(second, vars),
{
    assert forall|v: int| 0 <= v < vars.len() implies (first_entry(
        first,
        (#[trigger] vars[v]).signal_ref,
    ) is Some <==> first_entry(second, vars[v].signal_ref) is Some) && (first_entry(
        first,
        vars[v].signal_ref,
    ) is Some ==> first[first_entry(first, vars[v].signal_ref)->0].1 == second[first_entry(
        second,
        vars[v].signal_ref,
    )->0].1) by {
        let signal_ref = vars[v].signal_ref;
        lemma_first_entry(first, signal_ref);
        lemma_first_entry(second, signal_ref);
        if first_entry(first, signal_ref) is Some {
            let k = first_entry(first, signal_ref)->0;
            assert(first.contains(first[k]));
            assert(second.contains(first[k]));
            let j = choose|j: int| 0 <= j < second.len() && second[j] == first[k];
            assert(second[j].0 == signal_ref);
            let m = first_entry(second, signal_ref)->0;
            assert(second.contains(second[m]));
            assert(first.contains(second[m]));
            let n = choose|n: int| 0 <= n < first.len() && first[n] == second[m];
            assert(first[n].0 == first[k].0);
        }
        if first_entry(second, signal_ref) is Some {
            let m = first_entry(second, signal_ref)->0;
            assert(second.contains(second[m]));
            assert(first.contains(second[m]));
            let n = choose|n: int| 0 <= n < first.len() && first[n] == second[m];
            assert(first[n].0 == signal_ref);
        }
    }
    if all_loaded(first, vars) {
        assert(assembled(first, vars) =~= assembled(second, vars));
    }
}

/// What a batch assembles from what it found in the cache is what the cache
/// holds for its variables.
pub proof fn lemma_assembled_from_cache(cache: Map<usize, Arc<Signal>>, vars: Seq<Var>)
    ensures
        forall|i: int|
            0 <= i < vars.len() ==> (first_entry(
                served(cache, requests_of(vars)),
                (#[trigger] vars[i]).signal_ref,
            ) is Some <==> cache.contains_key(vars[i].signal_ref.0)),
        all_loaded(served(cache, requests_of(vars)), vars) <==> all_cached(cache, vars),
        all_cached(cache, vars) ==> assembled(served(cache, requests_of(vars)), vars) == collected(
            cache,
            vars,
        ),
{
    let requests = requests_of(vars);
    let loaded = served(cache, requests);
    lemma_served_entries(cache, requests);
    assert forall|i: int| 0 <= i < vars.len() implies (first_entry(
        loaded,
        (#[trigger] vars[i]).signal_ref,
    ) is Some <==> cache.contains_key(vars[i].signal_ref.0)) && (cache.contains_key(
        vars[i].signal_ref.0,
    ) ==> loaded[first_entry(loaded, vars[i].signal_ref)->0].1 == cache[vars[i].signal_ref.0]) by {
        let signal_ref = vars[i].signal_ref;
        lemma_first_entry(loaded, signal_ref);
        assert(requests[i].0 == signal_ref);
        if cache.contains_key(signal_ref.0) {
            let k = choose|k: int| 0 <= k < loaded.len() && (#[trigger] loaded[k]).0 == requests[i].0;
            assert(first_entry(loaded, signal_ref) is Some);
        }
        if first_entry(loaded, signal_ref) is Some {
            let k = first_entry(loaded, signal_ref)->0;
            assert(cache.contains_key(loaded[k].0.0));
        }
    }
    if all_cached(cache, vars) {
        assert(assembled(loaded, vars) =~= collected(cache, vars));
    }
}

/// The requests that load the signals of `vars`.
fn requests_for(vars: &[Var]) -> (requests: Vec<(SignalRef, FstHandle, bool, bool)>)
    ensures
        requests@ == requests_of(vars@),
{
    let mut requests: Vec<(SignalRef, FstHandle, bool, bool)> = Vec::new();
    let mut i: usize = 0;
    while i < vars.len()
        invariant
            i <= vars@.len(),
            requests@ == requests_of(vars@).take(i as int),
        decreases vars@.len() - i,
    {
        let var = &vars[i];
        requests.push((var.signal_ref, var.fst_handle, var.is_real(), var.is_string()));
        i += 1;
        assert(requests@ =~= requests_of(vars@).take(i as int));
    }
    assert(requests_of(vars@).take(i as int) =~= requests_of(vars@));
    requests
}

impl Waveform {
    /// Whether the body is loaded.
    pub open spec fn loaded(&self) -> bool {
        self.wave_source is Some
    }

    /// The cached signals by identity; none while the body is not loaded.
    pub open spec fn cache(&self) -> Map<usize, Arc<Signal>> {
        match self.wave_source {
            Some(source) => source@,
            None => Map::empty(),
        }
    }

    /// The waveform that loading the body gives: one that is loaded stays as
    /// it is, any other gets the time range of the trace and an empty cache.
    pub open spec fn with_body(&self, after: &Waveform) -> bool {
        &&& after.hierarchy == self.hierarchy
        &&& after.trace_span == self.trace_span
        &&& after.multi_threaded == self.multi_threaded
        &&& after.loaded()
        &&& after.cache() == self.cache()
        &&& after.time_range == if self.loaded() {
            self.time_range
        } else {
            Some(self.trace_span)
        }
    }

    /// A waveform over `hierarchy` for a trace that runs from `start_time` to
    /// `end_time`. With `load_body` the body is loaded at once. Scopes with
    /// an empty name are kept whatever `_remove_scopes_with_empty_name` says.
    pub fn new(
        hierarchy: Hierarchy,
        start_time: u64,
        end_time: u64,
        multi_threaded: bool,
        _remove_scopes_with_empty_name: bool,
        load_body: bool,
    ) -> (r: Self)
        ensures
            *r.hierarchy == hierarchy,
            r.trace_span == (start_time, end_time),
            r.multi_threaded == multi_threaded,
            r.loaded() == load_body,
            r.cache() == Map::<usize, Arc<Signal>>::empty(),
            r.time_range == if load_body {
                Some((start_time, end_time))
            } else {
                None
            },
    {
        let mut waveform = Waveform {
            hierarchy: Arc::new(hierarchy),
            wave_source: None,
            time_range: None,
            trace_span: (start_time, end_time),
            multi_threaded,
        };
        if load_body {
            waveform.load_body();
        }
        waveform
    }

    /// Loads the body: records the time range of the trace and sets up the
    /// cache. Loading a body that is loaded changes nothing.
    pub fn load_body(&mut self)
        ensures
            old(self).with_body(final(self)),
    {
        if self.wave_source.is_some() {
            return ;
        }
        self.time_range = Some(self.trace_span);
        self.wave_source = Some(SignalSource::new());
    }

    /// Whether the body is loaded.
    pub fn body_loaded(&self) -> (r: bool)
        ensures
            r == self.loaded(),
    {
        self.wave_source.is_some()
    }

    /// Answers a request for the signal of `var`, loading the body first: the
    /// cached signal of its identity where there is one, and otherwise the
    /// scan that loads it.
    pub fn get_signal(&mut self, var: &Var) -> (step: LoadStep)
        ensures
            old(self).with_body(final(self)),
            step == answer(old(self).cache(), scan_of(request_of(var@))),
    {
        self.load_body();
        match &self.wave_source {
            Some(source) => source.load_signal(
                var.signal_ref,
                var.fst_handle,
                var.is_real(),
                var.is_string(),
            ),
            None => LoadStep::Scan(
                ScanRequest {
                    signal_ref: var.signal_ref,
                    handle: var.fst_handle,
                    is_real: var.is_real(),
                    is_string: var.is_string(),
                },
            ),
        }
    }

    /// Answers a request for the signal of the variable registered under the
    /// full dotted path `abs_hierarchy_path`. A path that names no variable
    /// is an error, and the waveform stays as it was.
    pub fn get_signal_from_path(&mut self, abs_hierarchy_path: &str) -> (r: Result<LoadStep, String>)
        ensures
            match r {
                Ok(step) => {
                    let h = old(self).hierarchy;
                    let path = abs_hierarchy_path@;
                    &&& h.path_to_var@.contains_key(path)
                    &&& h.path_to_var@[path].0 < h.vars@.len()
                    &&& old(self).with_body(final(self))
                    &&& step == answer(
                        old(self).cache(),
                        scan_of(request_of(h.vars@[h.path_to_var@[path].0 as int]@)),
                    )
                },
                Err(e) => {
                    let h = old(self).hierarchy;
                    let path = abs_hierarchy_path@;
                    &&& !(h.path_to_var@.contains_key(path) && h.path_to_var@[path].0
                        < h.vars@.len())
                    &&& e@ == "Variable not found: "@ + path
                    &&& *final(self) == *old(self)
                },
            },
    {
        let found: Option<ScanRequest> = match self.hierarchy.var_by_path(abs_hierarchy_path) {
            Some(var) => Some(
                ScanRequest {
                    signal_ref: var.signal_ref,
                    handle: var.fst_handle,
                    is_real: var.is_real(),
                    is_string: var.is_string(),
                },
            ),
            None => None,
        };
        match found {
            Some(request) => {
                self.load_body();
                match &self.wave_source {
                    Some(source) => Ok(
                        source.load_signal(
                            request.signal_ref,
                            request.handle,
                            request.is_real,
                            request.is_string,
                        ),
                    ),
                    None => Ok(LoadStep::Scan(request)),
                }
            },
            None => {
                let mut message = "Variable not found: ".to_owned();
                message.append(abs_hierarchy_path);
                Err(message)
            },
        }
    }

    /// Takes what the scan for `request` gave: builds the signal, caches it
    /// under the identity of the request and returns it. A scan that did not
    /// run to the end, and a waveform whose body is not loaded, give an error
    /// and leave the waveform as it was.
    pub fn complete_load(&mut self, request: &ScanRequest, scan: &BlockScan) -> (r: Result<
        Arc<Signal>,
        String,
    >)
        ensures
            final(self).hierarchy == old(self).hierarchy,
            final(self).trace_span == old(self).trace_span,
            final(self).multi_threaded == old(self).multi_threaded,
            final(self).time_range == old(self).time_range,
            final(self).loaded() == old(self).loaded(),
            match r {
                Ok(signal) => {
                    &&& old(self).loaded()
                    &&& scan.completed
                    &&& signal@ == decoded(
                        samples_of(scan.samples@),
                        request.is_real,
                        request.is_string,
                    )
                    &&& final(self).cache() == old(self).cache().insert(
                        request.signal_ref.0,
                        signal,
                    )
                },
                Err(e) => {
                    &&& final(self).cache() == old(self).cache()
                    &&& !(old(self).loaded() && scan.completed)
                    &&& e@ == if !old(self).loaded() {
                        "Wave source not available"@
                    } else {
                        "Failed to iterate blocks"@
                    }
                },
            },
    {
        match &mut self.wave_source {
            Some(source) => source.complete_load(request, scan),
            None => Err("Wave source not available".to_owned()),
        }
    }

    /// The scans that loading the signals of `vars` needs, for loads run one
    /// after another. The body is loaded first.
    pub fn load_signals(&mut self, vars: &[Var]) -> (plan: BatchPlan)
        ensures
            old(self).with_body(final(self)),
            plan.scans@ == planned(old(self).cache().dom(), requests_of(vars@)),
            !plan.parallel,
    {
        self.plan_loads(vars, false)
    }

    /// The scans that loading the signals of `vars` needs, for loads handed
    /// out to several threads. The body is loaded first.
    pub fn load_signals_multithreaded(&mut self, vars: &[Var]) -> (plan: BatchPlan)
        ensures
            old(self).with_body(final(self)),
            plan.scans@ == planned(old(self).cache().dom(), requests_of(vars@)),
            plan.parallel,
    {
        self.plan_loads(vars, true)
    }

    /// Loads the body and plans the scans for `vars`.
    fn plan_loads(&mut self, vars: &[Var], multi_threaded: bool) -> (plan: BatchPlan)
        ensures
            old(self).with_body(final(self)),
            plan.scans@ == planned(old(self).cache().dom(), requests_of(vars@)),
            plan.parallel == multi_threaded,
    {
        self.load_body();
        let requests = requests_for(vars);
        match &self.wave_source {
            Some(source) => source.load_signals(&requests, multi_threaded),
            None => BatchPlan { scans: Vec::new(), parallel: multi_threaded },
        }
    }

    /// The signals of `vars` once their loads are done, one for each variable
    /// and in the order of the variables, whatever the order in which they
    /// were loaded. With `multi_threaded` the cache is read on several
    /// threads. Where the signal of a variable is missing, the first such
    /// variable is named in the error.
    pub fn collect_signals(&self, vars: &[Var], multi_threaded: bool) -> (r: Result<
        Vec<Arc<Signal>>,
        String,
    >)
        ensures
            match r {
                Ok(signals) => {
                    &&& self.loaded()
                    &&& all_cached(self.cache(), vars@)
                    &&& signals@ == collected(self.cache(), vars@)
                },
                Err(e) => if !self.loaded() {
                    e@ == "Wave source not available"@
                } else {
                    exists|m: int|
                        {
                            &&& 0 <= m < vars@.len()
                            &&& all_cached(self.cache(), vars@.take(m))
                            &&& !self.cache().contains_key((#[trigger] vars@[m]).signal_ref.0)
                            &&& e@ == "Failed to load signal for "@ + vars@[m].name@
                        }
                },
            },
    {
        let source = match &self.wave_source {
            Some(source) => source,
            None => {
                return Err("Wave source not available".to_owned());
            },
        };
        let requests = requests_for(vars);
        let loaded = source.loaded_signals(&requests, multi_threaded);
        let r = assemble(vars, &loaded);
        proof {
            lemma_assembled_from_cache(self.cache(), vars@);
            match &r {
                Ok(_) => {},
                Err(e) => {
                    let m = choose|m: int|
                        {
                            &&& 0 <= m < vars@.len()
                            &&& all_loaded(loaded@, vars@.take(m))
                            &&& first_entry(loaded@, (#[trigger] vars@[m]).signal_ref) is None
                            &&& e@ == "Failed to load signal for "@ + vars@[m].name@
                        };
                    assert forall|k: int| 0 <= k < m implies self.cache().contains_key(
                        (#[trigger] vars@.take(m)[k]).signal_ref.0,
                    ) by {
                        assert(vars@.take(m)[k] == vars@[k]);
                        assert(first_entry(loaded@, vars@.take(m)[k].signal_ref) is Some);
                    }
                },
            }
        }
        r
    }

    /// Drops the signals of the identities `signal_refs` from the cache.
    /// Every other signal stays; without a loaded body nothing changes.
    pub fn unload_signals(&mut self, signal_refs: &[SignalRef])
        ensures
            final(self).hierarchy == old(self).hierarchy,
            final(self).trace_span == old(self).trace_span,
            final(self).multi_threaded == old(self).multi_threaded,
            final(self).time_range == old(self).time_range,
            final(self).loaded() == old(self).loaded(),
            final(self).cache() == old(self).cache().remove_keys(ids_of(signal_refs@)),
    {
        match &mut self.wave_source {
            Some(source) => {
                source.unload_signals(signal_refs);
            },
            None => {
                assert(self.cache() =~= old(self).cache().remove_keys(ids_of(signal_refs@)));
            },
        }
    }
}

/// The order in which two signals of different identities are put into the
/// cache does not show in what a batch collects: its signals come in the
/// order of the variables asked for.
pub proof fn lemma_load_order_irrelevant(
    cache: Map<usize, Arc<Signal>>,
    first: usize,
    first_signal: Arc<Signal>,
    second: usize,
    second_signal: Arc<Signal>,
    vars: Seq<Var>,
)
    requires
        first != second,
    ensures
        cache.insert(first, first_signal).insert(second, second_signal) == cache.insert(
            second,
            second_signal,
        ).insert(first, first_signal),
        collected(cache.insert(first, first_signal).insert(second, second_signal), vars)
            == collected(cache.insert(second, second_signal).insert(first, first_signal), vars),
{
    assert(cache.insert(first, first_signal).insert(second, second_signal) =~= cache.insert(
        second,
        second_signal,
    ).insert(first, first_signal));
}

/// What a batch collects holds, at each position, the cached signal of the
/// variable at that position.
pub proof fn lemma_collected_in_request_order(cache: Map<usize, Arc<Signal>>, vars: Seq<Var>, i: int)
    requires
        0 <= i < vars.len(),
    ensures
        collected(cache, vars).len() == vars.len(),
        collected(cache, vars)[i] == cache[vars[i].signal_ref.0],
{
}

} // verus!
