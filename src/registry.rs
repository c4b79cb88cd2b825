use vstd::prelude::*;
use crate::settings::{Settings, plugin_enabled};

verus! {

/// Starts a workflow run.
#[derive(Clone, Copy, PartialEq, Eq, Structural)]
pub struct TriggerExecutor;

/// Calls out to a web endpoint.
#[derive(Clone, Copy, PartialEq, Eq, Structural)]
pub struct HttpExecutor;

/// Transforms the items it is given.
#[derive(Clone, Copy, PartialEq, Eq, Structural)]
pub struct FunctionExecutor;

/// A fresh executor, as a factory hands it out.
#[derive(Clone, Copy, PartialEq, Eq, Structural)]
pub enum Executor {
    Trigger(TriggerExecutor),
    Http(HttpExecutor),
    Function(FunctionExecutor),
}

/// Produces executors for one node type, under one plugin name.
pub trait NodeExecutorFactory {
    spec fn spec_supported_type(&self) -> Seq<char>;

    spec fn spec_plugin_name(&self) -> Seq<char>;

    spec fn spec_create(&self) -> Executor;

    fn create(&self) -> (r: Executor)
        ensures
            r == self.spec_create(),
    ;

    fn supported_type(&self) -> (r: &'static str)
        ensures
            r@ == self.spec_supported_type(),
    ;

    fn plugin_name(&self) -> (r: &'static str)
        ensures
            r@ == self.spec_plugin_name(),
    ;
}

pub struct TriggerFactory;

impl NodeExecutorFactory for TriggerFactory {
    open spec fn spec_supported_type(&self) -> Seq<char> {
        "trigger"@
    }

    open spec fn spec_plugin_name(&self) -> Seq<char> {
        "default"@
    }

    open spec fn spec_create(&self) -> Executor {
        Executor::Trigger(TriggerExecutor)
    }

    fn create(&self) -> (r: Executor) {
        Executor::Trigger(TriggerExecutor)
    }

    fn supported_type(&self) -> (r: &'static str) {
        "trigger"
    }

    fn plugin_name(&self) -> (r: &'static str) {
        "default"
    }
}

pub struct HttpFactory;

impl NodeExecutorFactory for HttpFactory {
    open spec fn spec_supported_type(&self) -> Seq<char> {
        "action"@
    }

    open spec fn spec_plugin_name(&self) -> Seq<char> {
        "http"@
    }

    open spec fn spec_create(&self) -> Executor {
        Executor::Http(HttpExecutor)
    }

    fn create(&self) -> (r: Executor) {
        Executor::Http(HttpExecutor)
    }

    fn supported_type(&self) -> (r: &'static str) {
        "action"
    }

    fn plugin_name(&self) -> (r: &'static str) {
        "http"
    }
}

pub struct FunctionFactory;

impl NodeExecutorFactory for FunctionFactory {
    open spec fn spec_supported_type(&self) -> Seq<char> {
        "function"@
    }

    open spec fn spec_plugin_name(&self) -> Seq<char> {
        "js_engine"@
    }

    open spec fn spec_create(&self) -> Executor {
        Executor::Function(FunctionExecutor)
    }

    fn create(&self) -> (r: Executor) {
        Executor::Function(FunctionExecutor)
    }

    fn supported_type(&self) -> (r: &'static str) {
        "function"
    }

    fn plugin_name(&self) -> (r: &'static str) {
        "js_engine"
    }
}

/// The executor registered for node type `t` in `entries`; a later entry wins.
pub open spec fn lookup(entries: Seq<(Seq<char>, Executor)>, t: Seq<char>) -> Option<Executor>
    decreases entries.len(),
{
    if entries.len() == 0 {
        None
    } else if entries.last().0 == t {
        Some(entries.last().1)
    } else {
        lookup(entries.drop_last(), t)
    }
}

pub open spec fn entries_view(entries: Seq<(String, Executor)>) -> Seq<(Seq<char>, Executor)> {
    entries.map_values(|e: (String, Executor)| (e.0@, e.1))
}

/// `after` maps type `ty` to `made`, and every other type as `before` does.
pub open spec fn registered(
    before: Seq<(Seq<char>, Executor)>,
    after: Seq<(Seq<char>, Executor)>,
    ty: Seq<char>,
    made: Executor,
) -> bool {
    forall|t: Seq<char>|
        #[trigger] lookup(after, t) == if t == ty {
            Some(made)
        } else {
            lookup(before, t)
        }
}

/// The entries whose type is not `t`, in order.
fn without_type(entries: &Vec<(String, Executor)>, node_type: &String) -> (kept: Vec<(String, Executor)>)
    ensures
        forall|t: Seq<char>|
            #[trigger] lookup(entries_view(kept@), t) == if t == node_type@ {
                None
            } else {
                lookup(entries_view(entries@), t)
            },
{
    let ghost all = entries_view(entries@);
    let mut kept: Vec<(String, Executor)> = Vec::new();
    let mut i: usize = 0;
    while i < entries.len()
        invariant
            i <= entries@.len(),
            all == entries_view(entries@),
            forall|t: Seq<char>|
                #[trigger] lookup(entries_view(kept@), t) == if t == node_type@ {
                    None
                } else {
                    lookup(all.take(i as int), t)
                },
        decreases entries@.len() - i,
    {
        let ghost before = entries_view(kept@);
        let name = entries[i].0.clone();
        let ex = entries[i].1;
        if name != *node_type {
            kept.push((name, ex));
        }
        proof {
            let after = entries_view(kept@);
            let pre = all.take(i as int + 1);
            assert(pre.drop_last() =~= all.take(i as int));
            assert(pre.last() == (name@, ex));
            if name@ != node_type@ {
                assert(after.drop_last() =~= before);
                assert(after.last() == (name@, ex));
            } else {
                assert(after =~= before);
            }
            assert forall|t: Seq<char>|
                #[trigger] lookup(after, t) == if t == node_type@ {
                    None
                } else {
                    lookup(pre, t)
                } by {
                if name@ != node_type@ {
                    assert(lookup(after, t) == if after.last().0 == t { Some(after.last().1) } else { lookup(before, t) });
                }
                assert(lookup(pre, t) == if pre.last().0 == t { Some(pre.last().1) } else { lookup(all.take(i as int), t) });
            }
        }
        i = i + 1;
    }
    assert(all.take(all.len() as int) =~= all);
    kept
}

/// Maps node types to the executors that run them.
pub struct NodeRegistry {
    entries: Vec<(String, Executor)>,
}

impl View for NodeRegistry {
    type V = Seq<(Seq<char>, Executor)>;

    closed spec fn view(&self) -> Seq<(Seq<char>, Executor)> {
        entries_view(self.entries@)
    }
}

impl NodeRegistry {
    pub fn new() -> (r: NodeRegistry)
        ensures
            forall|t: Seq<char>| lookup(r@, t) is None,
    {
        NodeRegistry { entries: Vec::new() }
    }

    /// Records `factory` under the node type it supports, replacing any
    /// factory registered for that type before.
    pub fn register<F: NodeExecutorFactory>(&mut self, factory: F)
        ensures
            registered(old(self)@, final(self)@, factory.spec_supported_type(), factory.spec_create()),
    {
        let node_type = factory.supported_type().to_owned();
        let executor = factory.create();
        let mut kept = without_type(&self.entries, &node_type);
        let ghost before = entries_view(kept@);
        kept.push((node_type, executor));
        *self = NodeRegistry { entries: kept };
        proof {
            assert(self@.drop_last() =~= before);
            assert forall|t: Seq<char>|
                #[trigger] lookup(self@, t) == if t == factory.spec_supported_type() {
                    Some(factory.spec_create())
                } else {
                    lookup(old(self)@, t)
                } by {
                assert(lookup(self@, t) == if self@.last().0 == t { Some(self@.last().1) } else { lookup(before, t) });
            }
        }
    }

    /// A fresh executor for node type `node_type`, if one is registered.
    pub fn create_executor(&self, node_type: &str) -> (r: Option<Executor>)
        ensures
            r == lookup(self@, node_type@),
    {
        let t = node_type.to_owned();
        let mut i: usize = self.entries.len();
        assert(self@.take(i as int) =~= self@);
        while i > 0
            invariant
                i <= self.entries@.len(),
                t@ == node_type@,
                lookup(self@, t@) == lookup(self@.take(i as int), t@),
            decreases i,
        {
            assert(self@.take(i as int).drop_last() =~= self@.take(i as int - 1));
            if self.entries[i - 1].0 == t {
                return Some(self.entries[i - 1].1);
            }
            i = i - 1;
        }
        None
    }

    /// The node types that have a registered executor.
    pub fn supported_types(&self) -> (r: Vec<String>)
        ensures
            forall|t: Seq<char>| (exists|i: int| 0 <= i < r@.len() && #[trigger] r@[i]@ == t) ==> lookup(self@, t) is Some,
            forall|t: Seq<char>| #[trigger] lookup(self@, t) is Some ==> exists|i: int| 0 <= i < r@.len() && r@[i]@ == t,
    {
        let mut r: Vec<String> = Vec::new();
        let mut i: usize = 0;
        while i < self.entries.len()
            invariant
                i <= self.entries@.len(),
                r@.len() == i,
                forall|k: int| 0 <= k < i ==> #[trigger] r@[k]@ == self@[k].0,
            decreases self.entries@.len() - i,
        {
            r.push(self.entries[i].0.clone());
            i = i + 1;
        }
        proof {
            assert forall|t: Seq<char>| lookup(self@, t) is Some <==> exists|k: int| 0 <= k < self@.len() && self@[k].0 == t by {
                lemma_lookup_found(self@, t);
            }
            assert forall|t: Seq<char>| #[trigger] lookup(self@, t) is Some implies exists|i: int| 0 <= i < r@.len() && r@[i]@ == t by {
                let k = choose|k: int| 0 <= k < self@.len() && self@[k].0 == t;
                assert(r@[k]@ == t);
            }
        }
        r
    }
}

proof fn lemma_lookup_found(s: Seq<(Seq<char>, Executor)>, t: Seq<char>)
    ensures
        lookup(s, t) is Some <==> exists|k: int| 0 <= k < s.len() && s[k].0 == t,
    decreases s.len(),
{
    if s.len() > 0 {
        lemma_lookup_found(s.drop_last(), t);
        if exists|k: int| 0 <= k < s.len() && s[k].0 == t {
            let k = choose|k: int| 0 <= k < s.len() && s[k].0 == t;
            if k < s.len() - 1 {
                assert(s.drop_last()[k].0 == t);
            }
        }
        if exists|k: int| 0 <= k < s.drop_last().len() && s.drop_last()[k].0 == t {
            let k = choose|k: int| 0 <= k < s.drop_last().len() && s.drop_last()[k].0 == t;
            assert(s[k].0 == t);
        }
    }
}

/// Registers `factory` when its plugin is switched on: the default plugin
/// always is; any other only by an enabled settings entry of its name.
pub fn try_register<F: NodeExecutorFactory>(registry: &mut NodeRegistry, settings: &Settings, factory: F)
    ensures
        plugin_enabled(settings, factory.spec_plugin_name()) ==> registered(
            old(registry)@,
            final(registry)@,
            factory.spec_supported_type(),
            factory.spec_create(),
        ),
        !plugin_enabled(settings, factory.spec_plugin_name()) ==> final(registry)@ == old(registry)@,
{
    let plugin = factory.plugin_name().to_owned();
    if settings.enables(&plugin) {
        registry.register(factory);
    }
}

} // verus!
