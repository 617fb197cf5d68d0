//! Building a hierarchy from the flat stream of hierarchy events.
//!
//! The events are those that a reader of the trace hands out in order:
//! entering and leaving scopes, declaring variables, and markers that carry no
//! structure. The builder keeps a stack of the scopes that are open and the
//! names along it.

use std::collections::HashMap;
use vstd::prelude::*;
use vstd::hash_map::StringHashMap;
use crate::codes;
use crate::hierarchy::declared_var;
use crate::hierarchy::full_name;
use crate::hierarchy::identities_dense;
use crate::hierarchy::lemma_scope_path_stable;
use crate::hierarchy::paths_registered;
use crate::hierarchy::scope_path;
use crate::hierarchy::scope_path_of;
use crate::hierarchy::tree_linked;
use crate::hierarchy::children_at;
use crate::hierarchy::parent_at;
use crate::hierarchy::scope_of;
use crate::hierarchy::vars_at;
use crate::hierarchy::refs_valid;
use crate::hierarchy::signals_deduplicated;
use crate::hierarchy::Hierarchy;
use crate::hierarchy::HierarchyView;
use crate::hierarchy::Scope;
use crate::hierarchy::ScopeRef;
use crate::hierarchy::ScopeType;
use crate::hierarchy::ScopeView;
use crate::hierarchy::SignalRef;
use crate::hierarchy::Timescale;
use crate::hierarchy::TimescaleUnit;
use crate::hierarchy::Var;
use crate::hierarchy::VarDirection;
use crate::hierarchy::VarRef;
use crate::hierarchy::VarType;
use crate::hierarchy::VarView;
use crate::text::dotted;
use crate::text::join_dotted;
use crate::text::texts_of;

verus! {

broadcast use vstd::std_specs::hash::group_hash_axioms;

/// One entry of the hierarchy stream, decoded from the trace.
#[derive(Debug)]
pub enum HierarchyEvent {
    /// A scope opens. `kind` is the trace's code for the scope kind.
    EnterScope { name: String, kind: u8 },
    /// The innermost open scope closes.
    ExitScope,
    /// A variable is declared in the innermost open scope. `kind` and
    /// `direction` are the trace's codes; a `bit_length` of zero stands for
    /// no declared length.
    DeclareVar { name: String, kind: u8, direction: u8, bit_length: u32, handle: codes::FstHandle },
    AttrBegin,
    AttrEnd,
    TreeBegin,
    TreeEnd,
    /// An entry of a kind that the builder does not know.
    Other,
    /// The end of the stream.
    End,
}

/// A [`HierarchyEvent`] with its name as a sequence of characters.
pub enum EventView {
    EnterScope { name: Seq<char>, kind: u8 },
    ExitScope,
    DeclareVar { name: Seq<char>, kind: u8, direction: u8, bit_length: u32, handle: codes::FstHandle },
    AttrBegin,
    AttrEnd,
    TreeBegin,
    TreeEnd,
    Other,
    End,
}

impl View for HierarchyEvent {
    type V = EventView;

    open spec fn view(&self) -> EventView {
        match *self {
            HierarchyEvent::EnterScope { name, kind } => EventView::EnterScope { name: name@, kind },
            HierarchyEvent::ExitScope => EventView::ExitScope,
            HierarchyEvent::DeclareVar { name, kind, direction, bit_length, handle } => {
                EventView::DeclareVar { name: name@, kind, direction, bit_length, handle }
            },
            HierarchyEvent::AttrBegin => EventView::AttrBegin,
            HierarchyEvent::AttrEnd => EventView::AttrEnd,
            HierarchyEvent::TreeBegin => EventView::TreeBegin,
            HierarchyEvent::TreeEnd => EventView::TreeEnd,
            HierarchyEvent::Other => EventView::Other,
            HierarchyEvent::End => EventView::End,
        }
    }
}

/// The events of `events` with their names as sequences of characters.
pub open spec fn events_of(events: Seq<HierarchyEvent>) -> Seq<EventView> {
    events.map_values(|e: HierarchyEvent| e@)
}

/// What has been built after some events: the two arenas and the two lookup
/// tables, the stack of open scopes with the names along it, and the next
/// unused signal identity.
pub struct BuildState {
    pub scopes: Seq<ScopeView>,
    pub vars: Seq<VarView>,
    pub path_to_var: Map<Seq<char>, VarRef>,
    pub signal_ref_map: Map<codes::FstHandle, SignalRef>,
    pub scope_stack: Seq<ScopeRef>,
    pub path: Seq<Seq<char>>,
    pub signal_counter: nat,
}

impl BuildState {
    /// Nothing built, no scope open.
    pub open spec fn initial() -> BuildState {
        BuildState {
            scopes: Seq::empty(),
            vars: Seq::empty(),
            path_to_var: Map::empty(),
            signal_ref_map: Map::empty(),
            scope_stack: Seq::empty(),
            path: Seq::empty(),
            signal_counter: 0,
        }
    }

    /// The innermost open scope.
    pub open spec fn innermost(self) -> Option<ScopeRef> {
        if self.scope_stack.len() > 0 {
            Some(self.scope_stack.last())
        } else {
            None
        }
    }

    /// A scope opens: it becomes a child of the innermost open scope, or a
    /// top scope where none is open, and is the innermost scope from now on.
    pub open spec fn enter_scope(self, name: Seq<char>, kind: u8) -> BuildState {
        let parent = self.innermost();
        let me = ScopeRef(self.scopes.len() as usize);
        let added = self.scopes.push(
            ScopeView {
                name,
                scope_type: ScopeType::of_code(kind),
                parent,
                children: Seq::empty(),
                vars: Seq::empty(),
            },
        );
        BuildState {
            scopes: with_child(added, parent, me),
            scope_stack: self.scope_stack.push(me),
            path: self.path.push(name),
            ..self
        }
    }

    /// The innermost open scope closes. With no scope open nothing changes.
    pub open spec fn exit_scope(self) -> BuildState {
        BuildState {
            scope_stack: if self.scope_stack.len() > 0 {
                self.scope_stack.drop_last()
            } else {
                self.scope_stack
            },
            path: if self.path.len() > 0 {
                self.path.drop_last()
            } else {
                self.path
            },
            ..self
        }
    }

    /// The signal identity of a variable declared with `handle`: the one
    /// already given to that handle, or else the next unused one.
    pub open spec fn signal_ref_for(self, handle: codes::FstHandle) -> SignalRef {
        if self.signal_ref_map.contains_key(handle) {
            self.signal_ref_map[handle]
        } else {
            SignalRef(self.signal_counter as usize)
        }
    }

    /// The variable that a declaration makes in this state.
    pub open spec fn new_var(
        self,
        name: Seq<char>,
        kind: u8,
        direction: u8,
        bit_length: u32,
        handle: codes::FstHandle,
    ) -> VarView {
        declared_var(
            name,
            VarType::of_code(kind),
            VarDirection::of_code(direction),
            if bit_length > 0 {
                Some(bit_length)
            } else {
                None
            },
            self.signal_ref_for(handle),
            handle,
            self.innermost(),
        )
    }

    /// A variable is declared: it joins the variable arena and the innermost
    /// open scope, and is registered under the dotted path of the open scopes
    /// and its display name. A handle seen for the first time gets the next
    /// signal identity.
    pub open spec fn declare_var(
        self,
        name: Seq<char>,
        kind: u8,
        direction: u8,
        bit_length: u32,
        handle: codes::FstHandle,
    ) -> BuildState {
        let var = self.new_var(name, kind, direction, bit_length, handle);
        let me = VarRef(self.vars.len() as usize);
        let fresh = !self.signal_ref_map.contains_key(handle);
        BuildState {
            scopes: with_var(self.scopes, self.innermost(), me),
            vars: self.vars.push(var),
            path_to_var: self.path_to_var.insert(dotted(self.path.push(var.name)), me),
            signal_ref_map: if fresh {
                self.signal_ref_map.insert(handle, var.signal_ref)
            } else {
                self.signal_ref_map
            },
            signal_counter: if fresh {
                self.signal_counter + 1
            } else {
                self.signal_counter
            },
            ..self
        }
    }

    /// The state after one more event. Markers, unknown entries and the end
    /// of the stream change nothing.
    pub open spec fn apply(self, event: EventView) -> BuildState {
        match event {
            EventView::EnterScope { name, kind } => self.enter_scope(name, kind),
            EventView::ExitScope => self.exit_scope(),
            EventView::DeclareVar { name, kind, direction, bit_length, handle } => {
                self.declare_var(name, kind, direction, bit_length, handle)
            },
            _ => self,
        }
    }

    /// The state after the events of `events` up to its first `End`, or after
    /// all of them where it holds none.
    pub open spec fn run(self, events: Seq<EventView>) -> BuildState
        decreases events.len(),
    {
        if events.len() == 0 || events[0] is End {
            self
        } else {
            self.apply(events[0]).run(events.skip(1))
        }
    }

    /// The hierarchy that the state holds, for a trace with the given date,
    /// version and timescale exponent. An exponent of zero records no
    /// timescale.
    pub open spec fn hierarchy(
        self,
        date: Seq<char>,
        version: Seq<char>,
        timescale_exp: i8,
    ) -> HierarchyView {
        HierarchyView {
            scopes: self.scopes,
            vars: self.vars,
            path_to_var: self.path_to_var,
            signal_ref_map: self.signal_ref_map,
            timescale: if timescale_exp != 0 {
                Some(Timescale { factor: 1, unit: TimescaleUnit::of_exponent(timescale_exp) })
            } else {
                None
            },
            date,
            version,
            file_format: seq!['F', 'S', 'T'],
        }
    }

    /// What holds of every state that events have built from nothing: the
    /// references are valid, parents are older than their children, the open
    /// scopes exist, and signal identities stand one for one for handles.
    pub open spec fn consistent(self) -> bool {
        &&& refs_valid(self.scopes, self.vars, self.path_to_var)
        &&& signals_deduplicated(self.vars, self.signal_ref_map)
        &&& self.path.len() == self.scope_stack.len()
        &&& forall|k: int|
            0 <= k < self.scope_stack.len() ==> (#[trigger] self.scope_stack[k]).0
                < self.scopes.len()
        &&& forall|h: codes::FstHandle| #[trigger]
            self.signal_ref_map.contains_key(h) ==> self.signal_ref_map[h].0 < self.signal_counter
        &&& self.signal_counter <= self.vars.len()
        &&& self.scopes.len() <= usize::MAX
        &&& self.vars.len() <= usize::MAX
    }
}

/// The scopes with `child` added to the children of `parent`.
pub open spec fn with_child(scopes: Seq<ScopeView>, parent: Option<ScopeRef>, child: ScopeRef) -> Seq<
    ScopeView,
> {
    match parent {
        Some(p) => if p.0 < scopes.len() {
            scopes.update(
                p.0 as int,
                ScopeView { children: scopes[p.0 as int].children.push(child), ..scopes[p.0 as int] },
            )
        } else {
            scopes
        },
        None => scopes,
    }
}

/// The scopes with `var` added to the variables of `scope`.
pub open spec fn with_var(scopes: Seq<ScopeView>, scope: Option<ScopeRef>, var: VarRef) -> Seq<
    ScopeView,
> {
    match scope {
        Some(s) => if s.0 < scopes.len() {
            scopes.update(
                s.0 as int,
                ScopeView { vars: scopes[s.0 as int].vars.push(var), ..scopes[s.0 as int] },
            )
        } else {
            scopes
        },
        None => scopes,
    }
}

/// Opening a scope keeps the state consistent.
pub proof fn lemma_enter_scope_consistent(s: BuildState, name: Seq<char>, kind: u8)
    requires
        s.consistent(),
        s.scopes.len() < usize::MAX,
    ensures
        s.enter_scope(name, kind).consistent(),
{
    let t = s.enter_scope(name, kind);
    let h = s.hierarchy(Seq::empty(), Seq::empty(), 0);
    let g = t.hierarchy(Seq::empty(), Seq::empty(), 0);
    let me = ScopeRef(s.scopes.len() as usize);
    assert(me.0 == s.scopes.len());
    assert forall|i: int| 0 <= i < g.scopes.len() implies ((#[trigger] g.scopes[i]).parent matches Some(
        p,
    ) ==> p.0 < i) by {
        if i < s.scopes.len() {
            assert(g.scopes[i].parent == h.scopes[i].parent);
        } else {
            if s.scope_stack.len() > 0 {
                assert(s.scope_stack[s.scope_stack.len() - 1].0 < s.scopes.len());
            }
        }
    }
    assert forall|i: int, k: int|
        0 <= i < g.scopes.len() && 0 <= k < g.scopes[i].children.len() implies (
    #[trigger] g.scopes[i].children[k]).0 < g.scopes.len() by {
        if i < s.scopes.len() {
            if k < h.scopes[i].children.len() {
                assert(g.scopes[i].children[k] == h.scopes[i].children[k]);
            }
        }
    }
    assert forall|i: int, k: int|
        0 <= i < g.scopes.len() && 0 <= k < g.scopes[i].vars.len() implies (
    #[trigger] g.scopes[i].vars[k]).0 < g.vars.len() by {
        if i < s.scopes.len() {
            assert(g.scopes[i].vars == h.scopes[i].vars);
            assert(g.scopes[i].vars[k] == h.scopes[i].vars[k]);
        }
    }
    assert forall|k: int| 0 <= k < t.scope_stack.len() implies (#[trigger] t.scope_stack[k]).0
        < t.scopes.len() by {
        if k < s.scope_stack.len() {
            assert(t.scope_stack[k] == s.scope_stack[k]);
        }
    }
    assert forall|v: int| 0 <= v < g.vars.len() implies ((#[trigger] g.vars[v]).scope matches Some(
        sc,
    ) ==> sc.0 < g.scopes.len()) by {
        assert(g.vars[v] == h.vars[v]);
    }
    assert forall|path: Seq<char>| #[trigger] g.path_to_var.contains_key(path) implies g.path_to_var[path].0
        < g.vars.len() by {
        assert(h.path_to_var.contains_key(path));
    }
    assert(refs_valid(g.scopes, g.vars, g.path_to_var));
    assert forall|v: int| 0 <= v < g.vars.len() implies g.signal_ref_map.contains_key(
        (#[trigger] g.vars[v]).fst_handle,
    ) && g.signal_ref_map[g.vars[v].fst_handle] == g.vars[v].signal_ref by {
        assert(g.vars[v] == h.vars[v]);
    }
    assert(g.signal_ref_map == h.signal_ref_map);
    assert forall|h1: codes::FstHandle, h2: codes::FstHandle|
        g.signal_ref_map.contains_key(h1) && g.signal_ref_map.contains_key(h2)
            && #[trigger] g.signal_ref_map[h1] == #[trigger] g.signal_ref_map[h2] implies h1
        == h2 by {
        assert(h.signal_ref_map[h1] == h.signal_ref_map[h2]);
    }
    assert(signals_deduplicated(g.vars, g.signal_ref_map));
}

/// Closing a scope keeps the state consistent.
pub proof fn lemma_exit_scope_consistent(s: BuildState)
    requires
        s.consistent(),
    ensures
        s.exit_scope().consistent(),
{
    let t = s.exit_scope();
    assert forall|k: int| 0 <= k < t.scope_stack.len() implies (#[trigger] t.scope_stack[k]).0
        < t.scopes.len() by {
        assert(t.scope_stack[k] == s.scope_stack[k]);
    }
}

/// Declaring a variable keeps the state consistent.
pub proof fn lemma_declare_var_consistent(
    s: BuildState,
    name: Seq<char>,
    kind: u8,
    direction: u8,
    bit_length: u32,
    handle: codes::FstHandle,
)
    requires
        s.consistent(),
        s.vars.len() < usize::MAX,
    ensures
        s.declare_var(name, kind, direction, bit_length, handle).consistent(),
{
    let t = s.declare_var(name, kind, direction, bit_length, handle);
    let h = s.hierarchy(Seq::empty(), Seq::empty(), 0);
    let g = t.hierarchy(Seq::empty(), Seq::empty(), 0);
    let me = VarRef(s.vars.len() as usize);
    let var = s.new_var(name, kind, direction, bit_length, handle);
    assert(me.0 == s.vars.len());
    assert(SignalRef(s.signal_counter as usize).0 == s.signal_counter);
    if s.scope_stack.len() > 0 {
        assert(s.scope_stack[s.scope_stack.len() - 1].0 < s.scopes.len());
    }
    assert forall|i: int| 0 <= i < g.scopes.len() implies ((#[trigger] g.scopes[i]).parent matches Some(
        p,
    ) ==> p.0 < i) by {
        assert(g.scopes[i].parent == h.scopes[i].parent);
    }
    assert forall|i: int, k: int|
        0 <= i < g.scopes.len() && 0 <= k < g.scopes[i].children.len() implies (
    #[trigger] g.scopes[i].children[k]).0 < g.scopes.len() by {
        assert(g.scopes[i].children == h.scopes[i].children);
        assert(g.scopes[i].children[k] == h.scopes[i].children[k]);
    }
    assert forall|i: int, k: int|
        0 <= i < g.scopes.len() && 0 <= k < g.scopes[i].vars.len() implies (
    #[trigger] g.scopes[i].vars[k]).0 < g.vars.len() by {
        if k < h.scopes[i].vars.len() {
            assert(g.scopes[i].vars[k] == h.scopes[i].vars[k]);
        }
    }
    assert forall|v: int| 0 <= v < g.vars.len() implies ((#[trigger] g.vars[v]).scope matches Some(
        sc,
    ) ==> sc.0 < g.scopes.len()) by {
        if v < s.vars.len() {
            assert(g.vars[v] == h.vars[v]);
        }
    }
    assert forall|path: Seq<char>| #[trigger] g.path_to_var.contains_key(path) implies g.path_to_var[path].0
        < g.vars.len() by {
        if path != dotted(s.path.push(var.name)) {
            assert(h.path_to_var.contains_key(path));
        }
    }
    assert(refs_valid(g.scopes, g.vars, g.path_to_var));
    assert forall|v: int| 0 <= v < g.vars.len() implies g.signal_ref_map.contains_key(
        (#[trigger] g.vars[v]).fst_handle,
    ) && g.signal_ref_map[g.vars[v].fst_handle] == g.vars[v].signal_ref by {
        if v < s.vars.len() {
            assert(g.vars[v] == h.vars[v]);
            assert(h.signal_ref_map.contains_key(h.vars[v].fst_handle));
        }
    }
    assert forall|h1: codes::FstHandle, h2: codes::FstHandle|
        g.signal_ref_map.contains_key(h1) && g.signal_ref_map.contains_key(h2)
            && #[trigger] g.signal_ref_map[h1] == #[trigger] g.signal_ref_map[h2] implies h1
        == h2 by {
        if h1 != handle && h2 != handle {
            assert(h.signal_ref_map.contains_key(h1) && h.signal_ref_map.contains_key(h2));
        } else if h1 != handle {
            assert(h.signal_ref_map.contains_key(h1));
        } else if h2 != handle {
            assert(h.signal_ref_map.contains_key(h2));
        }
    }
    assert(signals_deduplicated(g.vars, g.signal_ref_map));
    assert forall|k: codes::FstHandle| #[trigger] t.signal_ref_map.contains_key(k) implies t.signal_ref_map[k].0
        < t.signal_counter by {
        if k != handle {
            assert(s.signal_ref_map.contains_key(k));
        }
    }
}

/// Every event keeps the state consistent.
pub proof fn lemma_apply_consistent(s: BuildState, event: EventView)
    requires
        s.consistent(),
        s.scopes.len() < usize::MAX,
        s.vars.len() < usize::MAX,
    ensures
        s.apply(event).consistent(),
        s.apply(event).scopes.len() <= s.scopes.len() + 1,
        s.apply(event).vars.len() <= s.vars.len() + 1,
{
    match event {
        EventView::EnterScope { name, kind } => lemma_enter_scope_consistent(s, name, kind),
        EventView::ExitScope => lemma_exit_scope_consistent(s),
        EventView::DeclareVar { name, kind, direction, bit_length, handle } => {
            lemma_declare_var_consistent(s, name, kind, direction, bit_length, handle)
        },
        _ => {},
    }
}

/// A run of events keeps the state consistent, as long as the arenas stay
/// within what the machine can address.
pub proof fn lemma_run_consistent(s: BuildState, events: Seq<EventView>)
    requires
        s.consistent(),
        s.scopes.len() + events.len() <= usize::MAX,
        s.vars.len() + events.len() <= usize::MAX,
    ensures
        s.run(events).consistent(),
    decreases events.len(),
{
    if events.len() == 0 || events[0] is End {
    } else {
        lemma_apply_consistent(s, events[0]);
        lemma_run_consistent(s.apply(events[0]), events.skip(1));
    }
}

impl BuildState {
    /// Whether the stack of open scopes is a chain from a top scope down to
    /// the innermost open scope, with the names of its scopes along it.
    pub open spec fn stack_linked(self) -> bool {
        &&& self.path.len() == self.scope_stack.len()
        &&& forall|k: int|
            0 <= k < self.scope_stack.len() ==> {
                let scope = #[trigger] self.scope_stack[k];
                &&& scope.0 < self.scopes.len()
                &&& self.scopes[scope.0 as int].name == self.path[k]
                &&& self.scopes[scope.0 as int].parent == if k == 0 {
                    None
                } else {
                    Some(self.scope_stack[k - 1])
                }
            }
    }

    /// Whether every variable declared so far is registered under its full
    /// name, and the open scopes are linked so that the next one will be.
    pub open spec fn registered(self) -> bool {
        self.stack_linked() && paths_registered(self.scopes, self.vars, self.path_to_var)
    }
}

/// Along a linked stack the path of each open scope is the names of the
/// stack up to it, so the path of the innermost open scope is the names of
/// the whole stack.
pub proof fn lemma_stack_path(s: BuildState, k: int)
    requires
        s.consistent(),
        s.stack_linked(),
        0 <= k < s.scope_stack.len(),
    ensures
        scope_path(s.scopes, s.scope_stack[k]) == s.path.take(k + 1),
    decreases k,
{
    let scope = s.scope_stack[k];
    let here = s.scopes[scope.0 as int];
    if k == 0 {
        assert(here.parent is None);
        assert(s.path.take(1) =~= seq![here.name]);
    } else {
        let above = s.scope_stack[k - 1];
        assert(here.parent == Some(above));
        assert(above.0 < scope.0);
        lemma_stack_path(s, k - 1);
        assert(s.path.take(k + 1) =~= s.path.take(k).push(here.name));
    }
}

/// The names along a linked stack are the path of the innermost open scope.
pub proof fn lemma_innermost_path(s: BuildState)
    requires
        s.consistent(),
        s.stack_linked(),
    ensures
        scope_path_of(s.scopes, s.innermost()) == s.path,
{
    if s.scope_stack.len() > 0 {
        lemma_stack_path(s, s.scope_stack.len() - 1);
        assert(s.path.take(s.path.len() as int) =~= s.path);
    }
}

/// An event that leaves the names and parents of the scopes as they were
/// leaves the full name of every variable as it was.
pub proof fn lemma_full_name_stable(
    before: Seq<ScopeView>,
    after: Seq<ScopeView>,
    var: VarView,
)
    requires
        before.len() <= after.len(),
        var.scope matches Some(scope) ==> scope.0 < before.len(),
        forall|i: int|
            0 <= i < before.len() ==> (#[trigger] after[i]).name == before[i].name && after[i].parent
                == before[i].parent,
    ensures
        full_name(after, var) == full_name(before, var),
{
    match var.scope {
        Some(scope) => lemma_scope_path_stable(before, after, scope),
        None => {},
    }
}

/// Every event keeps the variables registered under their full names.
pub proof fn lemma_apply_registered(s: BuildState, event: EventView)
    requires
        s.consistent(),
        s.registered(),
        s.scopes.len() < usize::MAX,
        s.vars.len() < usize::MAX,
    ensures
        s.apply(event).registered(),
{
    let t = s.apply(event);
    lemma_apply_consistent(s, event);
    assert forall|i: int| 0 <= i < s.scopes.len() implies (#[trigger] t.scopes[i]).name
        == s.scopes[i].name && t.scopes[i].parent == s.scopes[i].parent by {
        if s.scope_stack.len() > 0 {
            assert(s.scope_stack[s.scope_stack.len() - 1].0 < s.scopes.len());
        }
    }
    match event {
        EventView::EnterScope { name, kind } => {
            let me = ScopeRef(s.scopes.len() as usize);
            assert(me.0 == s.scopes.len());
            assert(t.scopes[me.0 as int].name == name);
            assert(t.scopes[me.0 as int].parent == s.innermost());
            assert forall|k: int| 0 <= k < t.scope_stack.len() implies {
                let scope = #[trigger] t.scope_stack[k];
                &&& scope.0 < t.scopes.len()
                &&& t.scopes[scope.0 as int].name == t.path[k]
                &&& t.scopes[scope.0 as int].parent == if k == 0 {
                    None
                } else {
                    Some(t.scope_stack[k - 1])
                }
            } by {
                if k < s.scope_stack.len() {
                    assert(t.scope_stack[k] == s.scope_stack[k]);
                    assert(t.path[k] == s.path[k]);
                    let scope = s.scope_stack[k];
                    assert(t.scopes[scope.0 as int].name == s.scopes[scope.0 as int].name);
                }
            }
            assert forall|v: int| 0 <= v < t.vars.len() implies {
                let path = full_name(t.scopes, #[trigger] t.vars[v]);
                &&& t.path_to_var.contains_key(path)
                &&& t.path_to_var[path].0 < t.vars.len()
                &&& full_name(t.scopes, t.vars[t.path_to_var[path].0 as int]) == path
            } by {
                let path = full_name(s.scopes, s.vars[v]);
                lemma_full_name_stable(s.scopes, t.scopes, s.vars[v]);
                lemma_full_name_stable(s.scopes, t.scopes, s.vars[s.path_to_var[path].0 as int]);
            }
        },
        EventView::ExitScope => {
            assert forall|k: int| 0 <= k < t.scope_stack.len() implies {
                let scope = #[trigger] t.scope_stack[k];
                &&& scope.0 < t.scopes.len()
                &&& t.scopes[scope.0 as int].name == t.path[k]
                &&& t.scopes[scope.0 as int].parent == if k == 0 {
                    None
                } else {
                    Some(t.scope_stack[k - 1])
                }
            } by {
                assert(t.scope_stack[k] == s.scope_stack[k]);
                assert(t.path[k] == s.path[k]);
            }
        },
        EventView::DeclareVar { name, kind, direction, bit_length, handle } => {
            let var = s.new_var(name, kind, direction, bit_length, handle);
            let me = VarRef(s.vars.len() as usize);
            let key = dotted(s.path.push(var.name));
            assert(me.0 == s.vars.len());
            lemma_innermost_path(s);
            lemma_full_name_stable(s.scopes, t.scopes, var);
            assert(full_name(t.scopes, var) == key);
            assert forall|k: int| 0 <= k < t.scope_stack.len() implies {
                let scope = #[trigger] t.scope_stack[k];
                &&& scope.0 < t.scopes.len()
                &&& t.scopes[scope.0 as int].name == t.path[k]
                &&& t.scopes[scope.0 as int].parent == if k == 0 {
                    None
                } else {
                    Some(t.scope_stack[k - 1])
                }
            } by {
                let scope = s.scope_stack[k];
                assert(t.scopes[scope.0 as int].name == s.scopes[scope.0 as int].name);
            }
            assert forall|v: int| 0 <= v < t.vars.len() implies {
                let path = full_name(t.scopes, #[trigger] t.vars[v]);
                &&& t.path_to_var.contains_key(path)
                &&& t.path_to_var[path].0 < t.vars.len()
                &&& full_name(t.scopes, t.vars[t.path_to_var[path].0 as int]) == path
            } by {
                if v < s.vars.len() {
                    let path = full_name(s.scopes, s.vars[v]);
                    assert(t.vars[v] == s.vars[v]);
                    lemma_full_name_stable(s.scopes, t.scopes, s.vars[v]);
                    if path != key {
                        let w = s.path_to_var[path].0 as int;
                        assert(t.vars[w] == s.vars[w]);
                        lemma_full_name_stable(s.scopes, t.scopes, s.vars[w]);
                    }
                } else {
                    assert(t.vars[v] == var);
                }
            }
        },
        _ => {},
    }
}

/// A run of events keeps the variables registered under their full names.
pub proof fn lemma_run_registered(s: BuildState, events: Seq<EventView>)
    requires
        s.consistent(),
        s.registered(),
        s.scopes.len() + events.len() <= usize::MAX,
        s.vars.len() + events.len() <= usize::MAX,
    ensures
        s.run(events).registered(),
        s.run(events).consistent(),
    decreases events.len(),
{
    if events.len() == 0 || events[0] is End {
    } else {
        lemma_apply_consistent(s, events[0]);
        lemma_apply_registered(s, events[0]);
        lemma_run_registered(s.apply(events[0]), events.skip(1));
    }
}

/// Opening a scope keeps the links of the tree in agreement.
pub proof fn lemma_enter_scope_tree_linked(s: BuildState, name: Seq<char>, kind: u8)
    requires
        s.consistent(),
        tree_linked(s.scopes, s.vars),
        s.scopes.len() < usize::MAX,
    ensures
        tree_linked(s.enter_scope(name, kind).scopes, s.enter_scope(name, kind).vars),
{
    reveal(tree_linked);
    let t = s.enter_scope(name, kind);
    let me = ScopeRef(s.scopes.len() as usize);
    let parent = s.innermost();
    assert(me.0 == s.scopes.len());
    if s.scope_stack.len() > 0 {
        assert(s.scope_stack[s.scope_stack.len() - 1].0 < s.scopes.len());
    }
    assert(t.vars == s.vars);
    assert(parent_at(t.scopes, me) == parent);
    assert(children_at(t.scopes, me) =~= Seq::<ScopeRef>::empty());
    assert(vars_at(t.scopes, me) =~= Seq::<VarRef>::empty());
    assert forall|q: ScopeRef| q.0 < s.scopes.len() implies parent_at(t.scopes, q) == parent_at(
        s.scopes,
        q,
    ) && vars_at(t.scopes, q) == vars_at(s.scopes, q) && #[trigger] children_at(t.scopes, q) == (
    if parent == Some(q) {
        children_at(s.scopes, q).push(me)
    } else {
        children_at(s.scopes, q)
    }) by {}
    assert forall|p: ScopeRef, k: int|
        p.0 < t.scopes.len() && 0 <= k < children_at(t.scopes, p).len() implies {
        let child = #[trigger] children_at(t.scopes, p)[k];
        child.0 < t.scopes.len() && parent_at(t.scopes, child) == Some(p)
    } by {
        if k < children_at(s.scopes, p).len() {
            let child = children_at(s.scopes, p)[k];
            assert(children_at(t.scopes, p)[k] == child);
            assert(parent_at(s.scopes, child) == Some(p));
        }
    }
    assert forall|c: ScopeRef| c.0 < t.scopes.len() implies (#[trigger] parent_at(
        t.scopes,
        c,
    ) matches Some(p) ==> p.0 < t.scopes.len() && children_at(t.scopes, p).contains(c)) by {
        match parent_at(t.scopes, c) {
            Some(p) => {
                if c.0 < s.scopes.len() {
                    assert(parent_at(s.scopes, c) == Some(p));
                    let k = choose|k: int|
                        0 <= k < children_at(s.scopes, p).len() && children_at(s.scopes, p)[k] == c;
                    assert(children_at(t.scopes, p)[k] == c);
                } else {
                    assert(c == me);
                    let last = children_at(s.scopes, p).len() as int;
                    assert(children_at(t.scopes, p)[last] == c);
                }
            },
            None => {},
        }
    }
    assert forall|q: ScopeRef, k: int|
        q.0 < t.scopes.len() && 0 <= k < vars_at(t.scopes, q).len() implies {
        let var = #[trigger] vars_at(t.scopes, q)[k];
        var.0 < t.vars.len() && scope_of(t.vars, var) == Some(q)
    } by {
        assert(vars_at(s.scopes, q)[k] == vars_at(t.scopes, q)[k]);
    }
    assert forall|v: VarRef| v.0 < t.vars.len() implies (#[trigger] scope_of(
        t.vars,
        v,
    ) matches Some(q) ==> q.0 < t.scopes.len() && vars_at(t.scopes, q).contains(v)) by {
        match scope_of(s.vars, v) {
            Some(q) => {
                assert(vars_at(t.scopes, q) == vars_at(s.scopes, q));
            },
            None => {},
        }
    }
    assert forall|p: ScopeRef, k: int, m: int|
        p.0 < t.scopes.len() && 0 <= k < m < children_at(t.scopes, p).len() implies (
    #[trigger] children_at(t.scopes, p)[k]).0 < (#[trigger] children_at(t.scopes, p)[m]).0 by {
        assert(children_at(t.scopes, p)[k] == children_at(s.scopes, p)[k]);
        if m < children_at(s.scopes, p).len() {
            assert(children_at(t.scopes, p)[m] == children_at(s.scopes, p)[m]);
        }
    }
    assert forall|q: ScopeRef, k: int, m: int|
        q.0 < t.scopes.len() && 0 <= k < m < vars_at(t.scopes, q).len() implies (
    #[trigger] vars_at(t.scopes, q)[k]).0 < (#[trigger] vars_at(t.scopes, q)[m]).0 by {
        assert(vars_at(t.scopes, q)[k] == vars_at(s.scopes, q)[k]);
        assert(vars_at(t.scopes, q)[m] == vars_at(s.scopes, q)[m]);
    }
}

/// Declaring a variable keeps the links of the tree in agreement.
pub proof fn lemma_declare_var_tree_linked(
    s: BuildState,
    name: Seq<char>,
    kind: u8,
    direction: u8,
    bit_length: u32,
    handle: codes::FstHandle,
)
    requires
        s.consistent(),
        tree_linked(s.scopes, s.vars),
        s.vars.len() < usize::MAX,
    ensures
        tree_linked(
            s.declare_var(name, kind, direction, bit_length, handle).scopes,
            s.declare_var(name, kind, direction, bit_length, handle).vars,
        ),
{
    reveal(tree_linked);
    let t = s.declare_var(name, kind, direction, bit_length, handle);
    let me = VarRef(s.vars.len() as usize);
    let var = s.new_var(name, kind, direction, bit_length, handle);
    let scope = s.innermost();
    assert(me.0 == s.vars.len());
    if s.scope_stack.len() > 0 {
        assert(s.scope_stack[s.scope_stack.len() - 1].0 < s.scopes.len());
    }
    assert(scope_of(t.vars, me) == scope);
    assert forall|v: VarRef| v.0 < s.vars.len() implies #[trigger] scope_of(t.vars, v) == scope_of(
        s.vars,
        v,
    ) by {}
    assert forall|q: ScopeRef| q.0 < s.scopes.len() implies parent_at(t.scopes, q) == parent_at(
        s.scopes,
        q,
    ) && children_at(t.scopes, q) == children_at(s.scopes, q) && #[trigger] vars_at(t.scopes, q) == (
    if scope == Some(q) {
        vars_at(s.scopes, q).push(me)
    } else {
        vars_at(s.scopes, q)
    }) by {}
    assert forall|p: ScopeRef, k: int|
        p.0 < t.scopes.len() && 0 <= k < children_at(t.scopes, p).len() implies {
        let child = #[trigger] children_at(t.scopes, p)[k];
        child.0 < t.scopes.len() && parent_at(t.scopes, child) == Some(p)
    } by {
        let child = children_at(s.scopes, p)[k];
        assert(parent_at(s.scopes, child) == Some(p));
    }
    assert forall|c: ScopeRef| c.0 < t.scopes.len() implies (#[trigger] parent_at(
        t.scopes,
        c,
    ) matches Some(p) ==> p.0 < t.scopes.len() && children_at(t.scopes, p).contains(c)) by {
        match parent_at(s.scopes, c) {
            Some(p) => {
                assert(children_at(t.scopes, p) == children_at(s.scopes, p));
            },
            None => {},
        }
    }
    assert forall|q: ScopeRef, k: int|
        q.0 < t.scopes.len() && 0 <= k < vars_at(t.scopes, q).len() implies {
        let v = #[trigger] vars_at(t.scopes, q)[k];
        v.0 < t.vars.len() && scope_of(t.vars, v) == Some(q)
    } by {
        if k < vars_at(s.scopes, q).len() {
            let v = vars_at(s.scopes, q)[k];
            assert(vars_at(t.scopes, q)[k] == v);
            assert(scope_of(s.vars, v) == Some(q));
        } else {
            assert(vars_at(t.scopes, q)[k] == me);
        }
    }
    assert forall|v: VarRef| v.0 < t.vars.len() implies (#[trigger] scope_of(
        t.vars,
        v,
    ) matches Some(q) ==> q.0 < t.scopes.len() && vars_at(t.scopes, q).contains(v)) by {
        match scope_of(t.vars, v) {
            Some(q) => {
                if v.0 < s.vars.len() {
                    assert(scope_of(s.vars, v) == Some(q));
                    let k = choose|k: int|
                        0 <= k < vars_at(s.scopes, q).len() && vars_at(s.scopes, q)[k] == v;
                    assert(vars_at(t.scopes, q)[k] == v);
                } else {
                    assert(v == me);
                    let last = vars_at(s.scopes, q).len() as int;
                    assert(vars_at(t.scopes, q)[last] == v);
                }
            },
            None => {},
        }
    }
    assert forall|p: ScopeRef, k: int, m: int|
        p.0 < t.scopes.len() && 0 <= k < m < children_at(t.scopes, p).len() implies (
    #[trigger] children_at(t.scopes, p)[k]).0 < (#[trigger] children_at(t.scopes, p)[m]).0 by {
        assert(children_at(t.scopes, p)[k] == children_at(s.scopes, p)[k]);
        assert(children_at(t.scopes, p)[m] == children_at(s.scopes, p)[m]);
    }
    assert forall|q: ScopeRef, k: int, m: int|
        q.0 < t.scopes.len() && 0 <= k < m < vars_at(t.scopes, q).len() implies (
    #[trigger] vars_at(t.scopes, q)[k]).0 < (#[trigger] vars_at(t.scopes, q)[m]).0 by {
        assert(vars_at(t.scopes, q)[k] == vars_at(s.scopes, q)[k]);
        if m < vars_at(s.scopes, q).len() {
            assert(vars_at(t.scopes, q)[m] == vars_at(s.scopes, q)[m]);
        }
    }
}

/// Every event keeps the links of the tree in agreement.
pub proof fn lemma_apply_tree_linked(s: BuildState, event: EventView)
    requires
        s.consistent(),
        tree_linked(s.scopes, s.vars),
        s.scopes.len() < usize::MAX,
        s.vars.len() < usize::MAX,
    ensures
        tree_linked(s.apply(event).scopes, s.apply(event).vars),
{
    match event {
        EventView::EnterScope { name, kind } => lemma_enter_scope_tree_linked(s, name, kind),
        EventView::DeclareVar { name, kind, direction, bit_length, handle } => {
            lemma_declare_var_tree_linked(s, name, kind, direction, bit_length, handle)
        },
        _ => {},
    }
}

/// A run of events keeps the links of the tree in agreement.
pub proof fn lemma_run_tree_linked(s: BuildState, events: Seq<EventView>)
    requires
        s.consistent(),
        tree_linked(s.scopes, s.vars),
        s.scopes.len() + events.len() <= usize::MAX,
        s.vars.len() + events.len() <= usize::MAX,
    ensures
        tree_linked(s.run(events).scopes, s.run(events).vars),
    decreases events.len(),
{
    if events.len() == 0 || events[0] is End {
    } else {
        lemma_apply_consistent(s, events[0]);
        lemma_apply_tree_linked(s, events[0]);
        lemma_run_tree_linked(s.apply(events[0]), events.skip(1));
    }
}

impl BuildState {
    /// Whether the next unused signal identity is the number of handles seen
    /// so far.
    pub open spec fn identities_counted(self) -> bool {
        self.signal_ref_map.dom().finite() && self.signal_ref_map.dom().len()
            == self.signal_counter
    }
}

/// Every event keeps the next unused identity equal to the number of handles
/// seen: identities are given out in order, one for each new handle.
pub proof fn lemma_apply_identities_counted(s: BuildState, event: EventView)
    requires
        s.identities_counted(),
    ensures
        s.apply(event).identities_counted(),
{
    match event {
        EventView::DeclareVar { name, kind, direction, bit_length, handle } => {
            assert(s.signal_ref_map.insert(handle, s.signal_ref_for(handle)).dom()
                =~= s.signal_ref_map.dom().insert(handle));
        },
        _ => {},
    }
}

/// After a run of events the identities are the numbers from zero up to the
/// number of handles seen.
pub proof fn lemma_run_identities_dense(s: BuildState, events: Seq<EventView>)
    requires
        s.consistent(),
        s.identities_counted(),
        s.scopes.len() + events.len() <= usize::MAX,
        s.vars.len() + events.len() <= usize::MAX,
    ensures
        s.run(events).identities_counted(),
        identities_dense(s.run(events).signal_ref_map),
    decreases events.len(),
{
    if events.len() == 0 || events[0] is End {
    } else {
        lemma_apply_consistent(s, events[0]);
        lemma_apply_identities_counted(s, events[0]);
        lemma_run_identities_dense(s.apply(events[0]), events.skip(1));
    }
}

/// The hierarchy under construction with the builder's working state.
struct Builder {
    hierarchy: Hierarchy,
    scope_stack: Vec<ScopeRef>,
    current_path: Vec<String>,
    signal_counter: usize,
}

impl Builder {
    /// What has been built so far.
    spec fn state(&self) -> BuildState {
        BuildState {
            scopes: self.hierarchy@.scopes,
            vars: self.hierarchy@.vars,
            path_to_var: self.hierarchy@.path_to_var,
            signal_ref_map: self.hierarchy@.signal_ref_map,
            scope_stack: self.scope_stack@,
            path: texts_of(self.current_path@),
            signal_counter: self.signal_counter as nat,
        }
    }

    /// The trace-level data of the hierarchy, which no event touches.
    spec fn header(&self) -> (Option<Timescale>, Seq<char>, Seq<char>, Seq<char>) {
        (
            self.hierarchy.timescale,
            self.hierarchy.date@,
            self.hierarchy.version@,
            self.hierarchy.file_format@,
        )
    }

    /// The innermost open scope.
    fn innermost(&self) -> (r: Option<ScopeRef>)
        ensures
            r == self.state().innermost(),
    {
        if self.scope_stack.len() > 0 {
            Some(self.scope_stack[self.scope_stack.len() - 1])
        } else {
            None
        }
    }

    fn enter_scope(&mut self, name: &String, kind: u8)
        requires
            old(self).state().consistent(),
        ensures
            final(self).state() == old(self).state().enter_scope(name@, kind),
            final(self).state().consistent(),
            final(self).header() == old(self).header(),
    {
        let ghost before = self.state();
        let parent = self.innermost();
        let scope_ref = ScopeRef(self.hierarchy.scopes.len());
        self.hierarchy.scopes.push(Scope::new(name.clone(), ScopeType::from_fst(kind), parent));
        assert(self.hierarchy.scopes@.len() == self.hierarchy.scopes.len());
        if let Some(parent_ref) = parent {
            assert(before.scope_stack[before.scope_stack.len() - 1].0 < before.scopes.len());
            self.hierarchy.scopes[parent_ref.0].children.push(scope_ref);
        }
        self.scope_stack.push(scope_ref);
        self.current_path.push(name.clone());
        proof {
            assert(self.state().scopes =~= before.enter_scope(name@, kind).scopes);
            assert(self.state().path =~= before.path.push(name@));
            assert(self.state().vars =~= before.vars);
            lemma_enter_scope_consistent(before, name@, kind);
        }
    }

    fn exit_scope(&mut self)
        requires
            old(self).state().consistent(),
        ensures
            final(self).state() == old(self).state().exit_scope(),
            final(self).state().consistent(),
            final(self).header() == old(self).header(),
    {
        let ghost before = self.state();
        self.scope_stack.pop();
        self.current_path.pop();
        proof {
            assert(self.state().path =~= before.exit_scope().path);
            assert(self.state().scope_stack =~= before.exit_scope().scope_stack);
            lemma_exit_scope_consistent(before);
        }
    }

    fn declare_var(
        &mut self,
        name: &String,
        kind: u8,
        direction: u8,
        bit_length: u32,
        handle: codes::FstHandle,
    )
        requires
            old(self).state().consistent(),
        ensures
            final(self).state() == old(self).state().declare_var(
                name@,
                kind,
                direction,
                bit_length,
                handle,
            ),
            final(self).state().consistent(),
            final(self).header() == old(self).header(),
    {
        let ghost before = self.state();
        let length = if bit_length > 0 {
            Some(bit_length)
        } else {
            None
        };
        let known: Option<SignalRef> = match self.hierarchy.signal_ref_map.get(&handle) {
            Some(signal_ref) => Some(*signal_ref),
            None => None,
        };
        let signal_ref = match known {
            Some(signal_ref) => signal_ref,
            None => {
                let fresh = SignalRef(self.signal_counter);
                self.hierarchy.signal_ref_map.insert(handle, fresh);
                fresh
            },
        };
        let scope = self.innermost();
        let var_ref = VarRef(self.hierarchy.vars.len());
        let var = Var::new(
            name.clone(),
            VarType::from_fst(kind),
            VarDirection::from_fst(direction),
            length,
            signal_ref,
            handle,
            scope,
        );
        assert(var@ == before.new_var(name@, kind, direction, bit_length, handle));
        self.current_path.push(var.name.clone());
        assert(texts_of(self.current_path@) =~= before.path.push(var.name@));
        let path = join_dotted(&self.current_path);
        self.current_path.pop();
        assert(texts_of(self.current_path@) =~= before.path);
        self.hierarchy.vars.push(var);
        assert(self.hierarchy.vars@.len() == self.hierarchy.vars.len());
        if known.is_none() {
            self.signal_counter = self.signal_counter + 1;
        }
        self.hierarchy.path_to_var.insert(path, var_ref);
        if let Some(scope_ref) = scope {
            assert(before.scope_stack[before.scope_stack.len() - 1].0 < before.scopes.len());
            self.hierarchy.scopes[scope_ref.0].vars.push(var_ref);
        }
        proof {
            let after = before.declare_var(name@, kind, direction, bit_length, handle);
            assert(self.state().scopes =~= after.scopes);
            assert(self.state().vars =~= after.vars);
            assert(self.state().path_to_var =~= after.path_to_var);
            assert(self.state().signal_ref_map =~= after.signal_ref_map);
            lemma_declare_var_consistent(before, name@, kind, direction, bit_length, handle);
        }
    }

    fn apply(&mut self, event: &HierarchyEvent)
        requires
            old(self).state().consistent(),
        ensures
            final(self).state() == old(self).state().apply(event@),
            final(self).state().consistent(),
            final(self).header() == old(self).header(),
    {
        match event {
            HierarchyEvent::EnterScope { name, kind } => self.enter_scope(name, *kind),
            HierarchyEvent::ExitScope => self.exit_scope(),
            HierarchyEvent::DeclareVar { name, kind, direction, bit_length, handle } => {
                self.declare_var(name, *kind, *direction, *bit_length, *handle)
            },
            _ => {},
        }
    }
}

impl Hierarchy {
    /// Builds the hierarchy of a trace from its stream of hierarchy events.
    ///
    /// The events are applied in order up to the first `End`; what follows it
    /// is not read. `date` and `version` are the trace's free-text header
    /// fields and `timescale_exp` the power of ten of its time unit; an
    /// exponent of zero records no timescale.
    pub fn from_fst(
        events: &Vec<HierarchyEvent>,
        date: String,
        version: String,
        timescale_exp: i8,
    ) -> (r: Self)
        ensures
            r@ == BuildState::initial().run(events_of(events@)).hierarchy(
                date@,
                version@,
                timescale_exp,
            ),
            r@.wf(),
            paths_registered(r@.scopes, r@.vars, r@.path_to_var),
            tree_linked(r@.scopes, r@.vars),
            identities_dense(r@.signal_ref_map),
    {
        proof {
            reveal_strlit("FST");
            assert(events@.len() == events.len());
            lemma_run_registered(BuildState::initial(), events_of(events@));
            assert(tree_linked(BuildState::initial().scopes, BuildState::initial().vars)) by {
                reveal(tree_linked);
            }
            lemma_run_tree_linked(BuildState::initial(), events_of(events@));
            lemma_run_identities_dense(BuildState::initial(), events_of(events@));
        }
        let timescale = if timescale_exp != 0 {
            Some(Timescale::from_fst_exponent(timescale_exp))
        } else {
            None
        };
        let hierarchy = Hierarchy {
            scopes: Vec::new(),
            vars: Vec::new(),
            path_to_var: StringHashMap::new(),
            signal_ref_map: HashMap::new(),
            timescale,
            date,
            version,
            file_format: "FST".to_owned(),
        };
        let mut builder = Builder {
            hierarchy,
            scope_stack: Vec::new(),
            current_path: Vec::new(),
            signal_counter: 0,
        };
        let ghost all = events_of(events@);
        proof {
            assert(builder.state().scopes =~= BuildState::initial().scopes);
            assert(builder.state().vars =~= BuildState::initial().vars);
            assert(builder.state().path =~= BuildState::initial().path);
            assert(builder.state() == BuildState::initial());
            assert("FST"@ =~= seq!['F', 'S', 'T']);
            assert(all.skip(0) =~= all);
        }
        let mut i: usize = 0;
        while i < events.len()
            invariant
                i <= events@.len(),
                all == events_of(events@),
                builder.state().consistent(),
                builder.state().run(all.skip(i as int)) == BuildState::initial().run(all),
                builder.header() == (timescale, date@, version@, seq!['F', 'S', 'T']),
            ensures
                builder.state() == BuildState::initial().run(all),
            decreases events@.len() - i,
        {
            let event = &events[i];
            assert(all.skip(i as int)[0] == event@);
            if let HierarchyEvent::End = event {
                break ;
            }
            assert(all.skip(i as int).skip(1) =~= all.skip(i + 1));
            builder.apply(event);
            i += 1;
        }
        proof {
            let built = builder.state();
            assert(builder.hierarchy@ =~= built.hierarchy(date@, version@, timescale_exp));
        }
        builder.hierarchy
    }
}

/// Two declarations with one handle make two variables, one after the other
/// in the arena, with one signal identity between them.
pub proof fn lemma_declared_twice(
    s: BuildState,
    first: (Seq<char>, u8, u8, u32),
    second: (Seq<char>, u8, u8, u32),
    handle: codes::FstHandle,
)
    ensures
        ({
            let once = s.declare_var(first.0, first.1, first.2, first.3, handle);
            let twice = once.declare_var(second.0, second.1, second.2, second.3, handle);
            let n = s.vars.len() as int;
            &&& twice.vars.len() == n + 2
            &&& twice.vars[n].signal_ref == twice.vars[n + 1].signal_ref
            &&& twice.vars[n].fst_handle == handle
            &&& twice.vars[n + 1].fst_handle == handle
            &&& twice.signal_ref_map[handle] == twice.vars[n].signal_ref
        }),
{
}

} // verus!
