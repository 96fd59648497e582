//! The daemon core: owns the current request id, fans searches out to the
//! connected plugins, aggregates their matches tagged by origin, drops
//! superseded responses, and resolves an activation back to a concrete
//! action owned by the right plugin.

use vstd::prelude::*;

use crate::protocol::{
    Action, ActionV, Match, MatchV, Message, MessageV, Metadata, MetadataV, Method, MethodV,
    MethodResult, MethodResultV,
};

verus! {

/// One aggregated search result, tagged with the plugin it came from.
pub struct MatchHolder {
    pub plugin_id: String,
    pub item: Match,
}

/// Spec-level image of [`MatchHolder`].
pub struct MatchHolderV {
    pub plugin_id: Seq<char>,
    pub item: MatchV,
}

impl View for MatchHolder {
    type V = MatchHolderV;

    open spec fn view(&self) -> MatchHolderV {
        MatchHolderV { plugin_id: self.plugin_id@, item: self.item@ }
    }
}

impl DeepView for MatchHolder {
    type V = MatchHolderV;

    open spec fn deep_view(&self) -> MatchHolderV {
        self.view()
    }
}

/// A plugin the daemon is bridged to. Its metadata appears when the
/// authentication handshake arrives and is gone when the bridge drops.
pub struct ConnectedPlugin {
    pub key: String,
    pub metadata: Option<Metadata>,
}

/// Spec-level image of [`ConnectedPlugin`].
pub struct ConnectedPluginV {
    pub key: Seq<char>,
    pub metadata: Option<MetadataV>,
}

impl View for ConnectedPlugin {
    type V = ConnectedPluginV;

    open spec fn view(&self) -> ConnectedPluginV {
        ConnectedPluginV { key: self.key@, metadata: self.metadata.deep_view() }
    }
}

impl DeepView for ConnectedPlugin {
    type V = ConnectedPluginV;

    open spec fn deep_view(&self) -> ConnectedPluginV {
        self.view()
    }
}

/// What the router asks its surroundings to do; it never performs I/O
/// itself.
pub enum RouterEffect {
    /// Put a message on one plugin's outbound channel.
    SendToPlugin { key: String, message: Message },
    /// Deliver a message to every connected client.
    ForwardToClients { message: Message },
    /// Hand an action to the dispatcher, fire and forget.
    Dispatch { action: Action },
    /// Begin daemon shutdown.
    Shutdown,
}

/// Spec-level image of [`RouterEffect`].
pub enum RouterEffectV {
    SendToPlugin { key: Seq<char>, message: MessageV },
    ForwardToClients { message: MessageV },
    Dispatch { action: ActionV },
    Shutdown,
}

impl View for RouterEffect {
    type V = RouterEffectV;

    open spec fn view(&self) -> RouterEffectV {
        match self {
            RouterEffect::SendToPlugin { key, message } => RouterEffectV::SendToPlugin {
                key: key@,
                message: message@,
            },
            RouterEffect::ForwardToClients { message } => RouterEffectV::ForwardToClients {
                message: message@,
            },
            RouterEffect::Dispatch { action } => RouterEffectV::Dispatch { action: action@ },
            RouterEffect::Shutdown => RouterEffectV::Shutdown,
        }
    }
}

impl DeepView for RouterEffect {
    type V = RouterEffectV;

    open spec fn deep_view(&self) -> RouterEffectV {
        self.view()
    }
}

/// The router's state: the currently tracked request id (zero when none),
/// the match table of that request's generation, and the plugin registry.
pub struct Router {
    pub current_request: usize,
    pub current_matches: Vec<MatchHolder>,
    pub plugins: Vec<ConnectedPlugin>,
}

/// Spec-level image of [`Router`].
pub struct RouterV {
    pub current_request: usize,
    pub current_matches: Seq<MatchHolderV>,
    pub plugins: Seq<ConnectedPluginV>,
}

impl View for Router {
    type V = RouterV;

    open spec fn view(&self) -> RouterV {
        RouterV {
            current_request: self.current_request,
            current_matches: self.current_matches.deep_view(),
            plugins: self.plugins.deep_view(),
        }
    }
}

impl RouterV {
    /// Plugin keys are registered at most once.
    pub open spec fn wf(self) -> bool {
        forall|i: int, j: int|
            0 <= i < j < self.plugins.len() ==> #[trigger] self.plugins[i].key != #[trigger] self.plugins[j].key
    }
}

/// Whether a plugin is a fan-out target: a broadcast reaches every plugin,
/// a targeted request only the plugin that authenticated under that id.
pub open spec fn eligible(p: ConnectedPluginV, target: Option<Seq<char>>) -> bool {
    match target {
        Option::None => true,
        Option::Some(t) => p.metadata is Some && p.metadata.unwrap().id == t,
    }
}

/// The sends a search produces: one request per eligible plugin, in
/// registry order.
pub open spec fn search_sends(
    plugins: Seq<ConnectedPluginV>,
    id: usize,
    q: Seq<char>,
    target: Option<Seq<char>>,
) -> Seq<RouterEffectV>
    decreases plugins.len(),
{
    if plugins.len() == 0 {
        Seq::empty()
    } else {
        (if eligible(plugins[0], target) {
            seq![
                RouterEffectV::SendToPlugin {
                    key: plugins[0].key,
                    message: MessageV::Request {
                        id,
                        method: MethodV::Search(q),
                        plugin_id: Option::None,
                    },
                },
            ]
        } else {
            Seq::<RouterEffectV>::empty()
        }) + search_sends(plugins.drop_first(), id, q, target)
    }
}

/// The sends of a broadcast notification: one per plugin, in registry
/// order.
pub open spec fn broadcast_sends(plugins: Seq<ConnectedPluginV>, m: MethodV) -> Seq<
    RouterEffectV,
>
    decreases plugins.len(),
{
    if plugins.len() == 0 {
        Seq::empty()
    } else {
        seq![
            RouterEffectV::SendToPlugin {
                key: plugins[0].key,
                message: MessageV::Notification { method: m },
            },
        ] + broadcast_sends(plugins.drop_first(), m)
    }
}

/// Whether some plugin is registered under this key.
pub open spec fn has_plugin(plugins: Seq<ConnectedPluginV>, key: Seq<char>) -> bool {
    exists|i: int| 0 <= i < plugins.len() && (#[trigger] plugins[i]).key == key
}

/// What an activation resolves to: nothing when either index is out of
/// range; a callback notification to the owning plugin when the chosen
/// action is a callback and that plugin is still registered; otherwise one
/// dispatch.
pub open spec fn activate_effects(s: RouterV, mi: usize, ai: usize) -> Seq<RouterEffectV> {
    if mi >= s.current_matches.len() {
        Seq::empty()
    } else if ai >= s.current_matches[mi as int].item.actions.len() {
        Seq::empty()
    } else {
        let act = s.current_matches[mi as int].item.actions[ai as int].action;
        match act {
            ActionV::Callback { key, params } => {
                if has_plugin(s.plugins, s.current_matches[mi as int].plugin_id) {
                    seq![
                        RouterEffectV::SendToPlugin {
                            key: s.current_matches[mi as int].plugin_id,
                            message: MessageV::Notification {
                                method: MethodV::CallAction(key, params),
                            },
                        },
                    ]
                } else {
                    Seq::empty()
                }
            },
            _ => seq![RouterEffectV::Dispatch { action: act }],
        }
    }
}

/// The state after a client request.
pub open spec fn request_next(s: RouterV, m: MessageV) -> RouterV
    recommends
        m is Request,
{
    match m {
        MessageV::Request { id, method, plugin_id } => match method {
            MethodV::Search(q) => RouterV {
                current_request: id,
                current_matches: Seq::empty(),
                ..s
            },
            MethodV::Cancel => RouterV { current_request: 0, current_matches: Seq::empty(), ..s },
            _ => s,
        },
        _ => s,
    }
}

/// The effects of a client request.
pub open spec fn request_effects(s: RouterV, m: MessageV) -> Seq<RouterEffectV>
    recommends
        m is Request,
{
    match m {
        MessageV::Request { id, method, plugin_id } => match method {
            MethodV::Search(q) => search_sends(s.plugins, id, q, plugin_id),
            MethodV::Activate(mi, ai) => activate_effects(s, mi, ai),
            MethodV::Cancel => broadcast_sends(s.plugins, MethodV::Cancel),
            MethodV::Quit => broadcast_sends(s.plugins, MethodV::Quit) + seq![
                RouterEffectV::Shutdown,
            ],
            MethodV::CallAction(..) => Seq::empty(),
        },
        _ => Seq::empty(),
    }
}

/// The match table entries a plugin's items contribute, tagged with it.
pub open spec fn tagged(key: Seq<char>, items: Seq<MatchV>) -> Seq<MatchHolderV> {
    items.map_values(|m: MatchV| MatchHolderV { plugin_id: key, item: m })
}

/// The registry after a plugin authenticated under `key`.
pub open spec fn authenticate_plugins(
    plugins: Seq<ConnectedPluginV>,
    key: Seq<char>,
    md: MetadataV,
) -> Seq<ConnectedPluginV> {
    plugins.map_values(
        |p: ConnectedPluginV|
            if p.key == key {
                ConnectedPluginV { key: p.key, metadata: Option::Some(md) }
            } else {
                p
            },
    )
}

/// The state after a plugin response.
pub open spec fn response_next(s: RouterV, key: Seq<char>, m: MessageV) -> RouterV
    recommends
        m is Response,
{
    match m {
        MessageV::Response { id, error, result, plugin_id } => {
            if id != s.current_request {
                s
            } else {
                match result {
                    Option::Some(MethodResultV::Authenticate(md)) => RouterV {
                        plugins: authenticate_plugins(s.plugins, key, md),
                        ..s
                    },
                    Option::Some(MethodResultV::Matches(items)) => RouterV {
                        current_matches: s.current_matches + tagged(key, items),
                        ..s
                    },
                    _ => s,
                }
            }
        },
        _ => s,
    }
}

/// The effects of a plugin response: superseded ids are dropped, the
/// handshake is swallowed, and everything else goes to every client,
/// stamped with the plugin it came from.
pub open spec fn response_effects(s: RouterV, key: Seq<char>, m: MessageV) -> Seq<RouterEffectV>
    recommends
        m is Response,
{
    match m {
        MessageV::Response { id, error, result, plugin_id } => {
            if id != s.current_request {
                Seq::empty()
            } else {
                match result {
                    Option::Some(MethodResultV::Authenticate(md)) => Seq::empty(),
                    _ => seq![
                        RouterEffectV::ForwardToClients {
                            message: MessageV::Response {
                                id,
                                error,
                                result,
                                plugin_id: Option::Some(key),
                            },
                        },
                    ],
                }
            }
        },
        _ => Seq::empty(),
    }
}

impl Router {
    /// A fresh router: no tracked request, no matches, no plugins.
    pub fn new() -> (r: Router)
        ensures
            r@.current_request == 0,
            r@.current_matches == Seq::<MatchHolderV>::empty(),
            r@.plugins == Seq::<ConnectedPluginV>::empty(),
            r@.wf(),
    {
        let r = Router { current_request: 0, current_matches: Vec::new(), plugins: Vec::new() };
        proof {
            assert(r@.current_matches =~= Seq::<MatchHolderV>::empty());
            assert(r@.plugins =~= Seq::<ConnectedPluginV>::empty());
        }
        r
    }

    /// Registers a plugin bridge under a key not yet in use.
    pub fn register_plugin(&mut self, key: String)
        requires
            old(self)@.wf(),
            !has_plugin(old(self)@.plugins, key@),
        ensures
            final(self)@.wf(),
            final(self)@.plugins == old(self)@.plugins.push(
                ConnectedPluginV { key: key@, metadata: Option::None },
            ),
            final(self)@.current_request == old(self)@.current_request,
            final(self)@.current_matches == old(self)@.current_matches,
    {
        let ghost pre = self.plugins.deep_view();
        self.plugins.push(ConnectedPlugin { key, metadata: None });
        proof {
            assert forall|t: int| 0 <= t < pre.len() implies self@.plugins[t] == pre[t] by {
                assert(self.plugins.deep_view()[t] == self.plugins@[t].deep_view());
            }
            assert(self@.plugins =~= pre.push(
                ConnectedPluginV { key: self.plugins@.last().key@, metadata: Option::None },
            ));
        }
    }

    /// Drops the plugin registered under `key`, when there is one; its
    /// bridge has gone away.
    pub fn remove_plugin(&mut self, key: &String)
        requires
            old(self)@.wf(),
        ensures
            final(self)@.wf(),
            final(self)@.current_request == old(self)@.current_request,
            final(self)@.current_matches == old(self)@.current_matches,
            !has_plugin(final(self)@.plugins, key@),
            final(self)@.plugins == old(self)@.plugins.filter(
                (|p: ConnectedPluginV| p.key != key@),
            ),
    {
        let n = self.plugins.len();
        let mut out: Vec<ConnectedPlugin> = Vec::new();
        let mut k: usize = 0;
        let ghost pre = self.plugins.deep_view();
        while k < n
            invariant
                k <= n,
                n == self.plugins@.len(),
                pre == self.plugins.deep_view(),
                pre.len() == n,
                out@.len() <= k,
                out.deep_view() == pre.take(k as int).filter(
                    |p: ConnectedPluginV| p.key != key@,
                ),
            decreases n - k,
        {
            let ghost preout = out.deep_view();
            let p = &self.plugins[k];
            let keep = !string_eq(&p.key, key);
            if keep {
                out.push(ConnectedPlugin {
                    key: p.key.clone(),
                    metadata: match &p.metadata {
                        Option::None => None,
                        Option::Some(md) => Some(md.clone()),
                    },
                });
            }
            k = k + 1;
            proof {
                reveal(Seq::filter);
                let f = |p: ConnectedPluginV| p.key != key@;
                assert(pre.take(k as int).drop_last() =~= pre.take(k - 1));
                assert(pre.take(k as int).last() == pre[k - 1]);
                assert(self.plugins@[k - 1].deep_view() == pre[k - 1]);
                assert(keep == f(pre[k - 1]));
                if keep {
                    assert(out.deep_view() =~= preout.push(pre[k - 1]));
                    assert(pre.take(k as int).filter(f) == pre.take(k - 1).filter(f).push(
                        pre[k - 1],
                    ));
                } else {
                    assert(out.deep_view() == preout);
                    assert(pre.take(k as int).filter(f) == pre.take(k - 1).filter(f));
                }
            }
        }
        proof {
            assert(pre.take(n as int) =~= pre);
        }
        self.plugins = out;
        proof {
            let f = |p: ConnectedPluginV| p.key != key@;
            pre.filter_lemma(f);
            assert forall|i: int, j: int|
                0 <= i < j < self@.plugins.len() implies #[trigger] self@.plugins[i].key
                != #[trigger] self@.plugins[j].key by {
                lemma_filter_keeps_distinct_keys(pre, f, i, j);
            }
            if has_plugin(self@.plugins, key@) {
                let i = choose|i: int|
                    0 <= i < self@.plugins.len() && (#[trigger] self@.plugins[i]).key == key@;
                assert(f(pre.filter(f)[i]));
            }
        }
    }

    /// Handles one request arriving from a client, per the routing rules:
    /// a search starts a new generation and fans out, an activation
    /// resolves against the current table, cancel and quit broadcast.
    pub fn handle_client_request(&mut self, msg: Message) -> (effects: Vec<RouterEffect>)
        requires
            old(self)@.wf(),
            msg@ is Request,
        ensures
            final(self)@.wf(),
            final(self)@ == request_next(old(self)@, msg@),
            effects.deep_view() == request_effects(old(self)@, msg@),
    {
        let ghost s0 = self@;
        match msg {
            Message::Request { id, method, plugin_id } => {
                match method {
                    Method::Search(q) => {
                        self.current_request = id;
                        self.current_matches = Vec::new();
                        let effects = self.search_fan_out(id, &q, &plugin_id);
                        proof {
                            assert(self@.current_matches =~= Seq::<MatchHolderV>::empty());
                        }
                        effects
                    },
                    Method::Activate(mi, ai) => {
                        let effects = self.resolve_activation(mi, ai);
                        effects
                    },
                    Method::Cancel => {
                        self.current_request = 0;
                        self.current_matches = Vec::new();
                        let effects = self.broadcast(Method::Cancel);
                        proof {
                            assert(self@.current_matches =~= Seq::<MatchHolderV>::empty());
                        }
                        effects
                    },
                    Method::Quit => {
                        let mut effects = self.broadcast(Method::Quit);
                        let ghost pre = effects.deep_view();
                        effects.push(RouterEffect::Shutdown);
                        proof {
                            assert(effects.deep_view() =~= pre.push(RouterEffectV::Shutdown));
                            assert(effects.deep_view() =~= request_effects(s0, msg@));
                        }
                        effects
                    },
                    Method::CallAction(key, params) => {
                        // a client has no business calling plugin callbacks
                        // directly; the request is dropped
                        let effects: Vec<RouterEffect> = Vec::new();
                        proof {
                            assert(effects.deep_view() =~= Seq::<RouterEffectV>::empty());
                        }
                        effects
                    },
                }
            },
            _ => {
                let effects: Vec<RouterEffect> = Vec::new();
                proof {
                    assert(effects.deep_view() =~= Seq::<RouterEffectV>::empty());
                }
                effects
            },
        }
    }

    /// One search request per eligible plugin.
    fn search_fan_out(&self, id: usize, q: &String, target: &Option<String>) -> (effects: Vec<
        RouterEffect,
    >)
        ensures
            effects.deep_view() == search_sends(self@.plugins, id, q@, target.deep_view()),
    {
        let mut effects: Vec<RouterEffect> = Vec::new();
        let n = self.plugins.len();
        let mut k: usize = 0;
        proof {
            assert(effects.deep_view() =~= Seq::<RouterEffectV>::empty());
            lemma_search_sends_take(self@.plugins, id, q@, target.deep_view(), 0);
        }
        while k < n
            invariant
                k <= n,
                n == self.plugins@.len(),
                effects.deep_view() == search_sends(
                    self@.plugins.take(k as int),
                    id,
                    q@,
                    target.deep_view(),
                ),
            decreases n - k,
        {
            let ghost pre = effects.deep_view();
            let p = &self.plugins[k];
            let ok = match (target, &p.metadata) {
                (Option::None, _) => true,
                (Option::Some(t), Option::Some(md)) => string_eq(&md.id, t),
                (Option::Some(_), Option::None) => false,
            };
            if ok {
                effects.push(
                    RouterEffect::SendToPlugin {
                        key: p.key.clone(),
                        message: Message::Request {
                            id,
                            method: Method::Search(q.clone()),
                            plugin_id: None,
                        },
                    },
                );
            }
            k = k + 1;
            proof {
                assert(self.plugins@[k - 1].deep_view() == self@.plugins[k - 1]);
                assert(ok == eligible(self@.plugins[k - 1], target.deep_view()));
                lemma_search_sends_snoc(self@.plugins, id, q@, target.deep_view(), k - 1);
                if ok {
                    assert(effects.deep_view() =~= pre.push(
                        RouterEffectV::SendToPlugin {
                            key: self@.plugins[k - 1].key,
                            message: MessageV::Request {
                                id,
                                method: MethodV::Search(q@),
                                plugin_id: Option::None,
                            },
                        },
                    ));
                }
            }
        }
        proof {
            assert(self@.plugins.take(n as int) =~= self@.plugins);
        }
        effects
    }

    /// One notification per plugin.
    fn broadcast(&self, m: Method) -> (effects: Vec<RouterEffect>)
        ensures
            effects.deep_view() == broadcast_sends(self@.plugins, m@),
    {
        let mut effects: Vec<RouterEffect> = Vec::new();
        let n = self.plugins.len();
        let mut k: usize = 0;
        proof {
            assert(effects.deep_view() =~= Seq::<RouterEffectV>::empty());
            lemma_broadcast_sends_take(self@.plugins, m@, 0);
        }
        while k < n
            invariant
                k <= n,
                n == self.plugins@.len(),
                effects.deep_view() == broadcast_sends(self@.plugins.take(k as int), m@),
            decreases n - k,
        {
            let ghost pre = effects.deep_view();
            let p = &self.plugins[k];
            effects.push(
                RouterEffect::SendToPlugin {
                    key: p.key.clone(),
                    message: Message::Notification { method: m.clone() },
                },
            );
            k = k + 1;
            proof {
                assert(self.plugins@[k - 1].deep_view() == self@.plugins[k - 1]);
                lemma_broadcast_sends_snoc(self@.plugins, m@, k - 1);
                assert(effects.deep_view() =~= pre.push(
                    RouterEffectV::SendToPlugin {
                        key: self@.plugins[k - 1].key,
                        message: MessageV::Notification { method: m@ },
                    },
                ));
            }
        }
        proof {
            assert(self@.plugins.take(n as int) =~= self@.plugins);
        }
        effects
    }

    /// Looks the chosen action up in the current table. Out-of-range
    /// indices resolve to nothing: a stale activation is dropped, never
    /// misrouted.
    fn resolve_activation(&self, mi: usize, ai: usize) -> (effects: Vec<RouterEffect>)
        ensures
            effects.deep_view() == activate_effects(self@, mi, ai),
    {
        let mut effects: Vec<RouterEffect> = Vec::new();
        proof {
            assert(effects.deep_view() =~= Seq::<RouterEffectV>::empty());
        }
        if mi >= self.current_matches.len() {
            return effects;
        }
        let holder = &self.current_matches[mi];
        if ai >= holder.item.actions.len() {
            proof {
                assert(self.current_matches@[mi as int].deep_view()
                    == self@.current_matches[mi as int]);
            }
            return effects;
        }
        proof {
            assert(self.current_matches@[mi as int].deep_view()
                == self@.current_matches[mi as int]);
            assert(holder.item.actions@[ai as int].deep_view()
                == self@.current_matches[mi as int].item.actions[ai as int]);
        }
        let act = &holder.item.actions[ai].action;
        match act {
            Action::Callback { key, params } => {
                let owner = self.find_plugin(&holder.plugin_id);
                match owner {
                    Some(_) => {
                        effects.push(
                            RouterEffect::SendToPlugin {
                                key: holder.plugin_id.clone(),
                                message: Message::Notification {
                                    method: Method::CallAction(
                                        key.clone(),
                                        crate::protocol::clone_pairs(params),
                                    ),
                                },
                            },
                        );
                        proof {
                            assert(effects.deep_view() =~= activate_effects(self@, mi, ai));
                        }
                        effects
                    },
                    None => {
                        // the owning plugin's bridge is gone; there is
                        // nowhere to route the callback
                        effects
                    },
                }
            },
            _ => {
                effects.push(RouterEffect::Dispatch { action: act.clone() });
                proof {
                    assert(effects.deep_view() =~= activate_effects(self@, mi, ai));
                }
                effects
            },
        }
    }

    /// The position of the plugin registered under `key`, when present.
    fn find_plugin(&self, key: &String) -> (r: Option<usize>)
        ensures
            r matches Some(i) ==> i < self.plugins@.len() && self@.plugins[i as int].key == key@,
            r is None ==> !has_plugin(self@.plugins, key@),
    {
        let n = self.plugins.len();
        let mut k: usize = 0;
        while k < n
            invariant
                k <= n,
                n == self.plugins@.len(),
                forall|t: int| 0 <= t < k ==> (#[trigger] self@.plugins[t]).key != key@,
            decreases n - k,
        {
            if string_eq(&self.plugins[k].key, key) {
                proof {
                    assert(self.plugins@[k as int].deep_view() == self@.plugins[k as int]);
                }
                return Some(k);
            }
            proof {
                assert(self.plugins@[k as int].deep_view() == self@.plugins[k as int]);
            }
            k = k + 1;
        }
        None
    }

    /// Handles one response arriving from a plugin bridge, per the rules:
    /// a stale id is dropped, the handshake updates the registry, matches
    /// are aggregated tagged with their origin, and everything but the
    /// handshake is forwarded to clients stamped with that origin.
    pub fn handle_plugin_response(&mut self, key: &String, msg: Message) -> (effects: Vec<
        RouterEffect,
    >)
        requires
            old(self)@.wf(),
            msg@ is Response,
        ensures
            final(self)@.wf(),
            final(self)@ == response_next(old(self)@, key@, msg@),
            effects.deep_view() == response_effects(old(self)@, key@, msg@),
    {
        let ghost s0 = self@;
        let mut effects: Vec<RouterEffect> = Vec::new();
        proof {
            assert(effects.deep_view() =~= Seq::<RouterEffectV>::empty());
        }
        match msg {
            Message::Response { id, error, result, plugin_id } => {
                if id != self.current_request {
                    return effects;
                }
                match result {
                    Some(MethodResult::Authenticate(md)) => {
                        self.authenticate(key, md);
                        effects
                    },
                    Some(MethodResult::Matches { items }) => {
                        self.append_matches(key, &items);
                        effects.push(
                            RouterEffect::ForwardToClients {
                                message: Message::Response {
                                    id,
                                    error,
                                    result: Some(MethodResult::Matches { items }),
                                    plugin_id: Some(key.clone()),
                                },
                            },
                        );
                        proof {
                            assert(effects.deep_view() =~= response_effects(s0, key@, msg@));
                        }
                        effects
                    },
                    other => {
                        effects.push(
                            RouterEffect::ForwardToClients {
                                message: Message::Response {
                                    id,
                                    error,
                                    result: other,
                                    plugin_id: Some(key.clone()),
                                },
                            },
                        );
                        proof {
                            assert(effects.deep_view() =~= response_effects(s0, key@, msg@));
                        }
                        effects
                    },
                }
            },
            _ => effects,
        }
    }

    /// Stores the declared identity on the plugin registered under `key`.
    fn authenticate(&mut self, key: &String, md: Metadata)
        requires
            old(self)@.wf(),
        ensures
            final(self)@.wf(),
            final(self)@.plugins == authenticate_plugins(old(self)@.plugins, key@, md@),
            final(self)@.current_request == old(self)@.current_request,
            final(self)@.current_matches == old(self)@.current_matches,
    {
        let ghost pre = self.plugins.deep_view();
        let n = self.plugins.len();
        let mut out: Vec<ConnectedPlugin> = Vec::new();
        let mut k: usize = 0;
        while k < n
            invariant
                k <= n,
                n == self.plugins@.len(),
                pre == self.plugins.deep_view(),
                pre.len() == n,
                out@.len() == k,
                out.deep_view() == authenticate_plugins(pre.take(k as int), key@, md@),
            decreases n - k,
        {
            let ghost preout = out.deep_view();
            let p = &self.plugins[k];
            if string_eq(&p.key, key) {
                out.push(ConnectedPlugin { key: p.key.clone(), metadata: Some(md.clone()) });
            } else {
                out.push(
                    ConnectedPlugin {
                        key: p.key.clone(),
                        metadata: match &p.metadata {
                            Option::None => None,
                            Option::Some(m) => Some(m.clone()),
                        },
                    },
                );
            }
            k = k + 1;
            proof {
                assert(self.plugins@[k - 1].deep_view() == pre[k - 1]);
                assert(out.deep_view()[k - 1] == out@[k - 1].deep_view());
                assert forall|t: int| 0 <= t < k - 1 implies out.deep_view()[t] == preout[t] by {
                    assert(out.deep_view()[t] == out@[t].deep_view());
                }
                assert(pre.take(k as int) =~= pre.take(k - 1).push(pre[k - 1]));
                if pre[k - 1].key == key@ {
                    assert(out@[k - 1].deep_view() == ConnectedPluginV {
                        key: pre[k - 1].key,
                        metadata: Option::Some(md@),
                    });
                } else {
                    assert(out@[k - 1].deep_view() == pre[k - 1]);
                }
                assert forall|t: int| 0 <= t < k implies out.deep_view()[t]
                    == authenticate_plugins(pre.take(k as int), key@, md@)[t] by {
                    assert(authenticate_plugins(pre.take(k as int), key@, md@)[t] == (if pre.take(
                        k as int,
                    )[t].key == key@ {
                        ConnectedPluginV { key: pre.take(k as int)[t].key, metadata: Option::Some(md@) }
                    } else {
                        pre.take(k as int)[t]
                    }));
                    assert(authenticate_plugins(pre.take(k - 1), key@, md@).len() == k - 1);
                    if t < k - 1 {
                        assert(out.deep_view()[t] == preout[t]);
                        assert(preout[t] == authenticate_plugins(pre.take(k - 1), key@, md@)[t]);
                    }
                }
                assert(out.deep_view() =~= authenticate_plugins(pre.take(k as int), key@, md@));
            }
        }
        proof {
            assert(pre.take(n as int) =~= pre);
        }
        self.plugins = out;
        proof {
            assert forall|i: int, j: int|
                0 <= i < j < self@.plugins.len() implies #[trigger] self@.plugins[i].key
                != #[trigger] self@.plugins[j].key by {
                assert(self@.plugins[i].key == pre[i].key);
                assert(self@.plugins[j].key == pre[j].key);
            }
        }
    }

    /// Appends this plugin's items to the match table, each tagged with
    /// the plugin's key.
    fn append_matches(&mut self, key: &String, items: &Vec<Match>)
        ensures
            final(self)@.current_matches == old(self)@.current_matches + tagged(
                key@,
                items.deep_view(),
            ),
            final(self)@.plugins == old(self)@.plugins,
            final(self)@.current_request == old(self)@.current_request,
    {
        let ghost pre = self.current_matches.deep_view();
        let n = items.len();
        let mut k: usize = 0;
        while k < n
            invariant
                k <= n,
                n == items@.len(),
                self.current_matches.deep_view() == pre + tagged(
                    key@,
                    items.deep_view().take(k as int),
                ),
                self.current_matches@.len() == pre.len() + k,
                self@.plugins == old(self)@.plugins,
                self@.current_request == old(self)@.current_request,
            decreases n - k,
        {
            let ghost premid = self.current_matches.deep_view();
            self.current_matches.push(
                MatchHolder { plugin_id: key.clone(), item: items[k].clone() },
            );
            k = k + 1;
            proof {
                assert(items@[k - 1].deep_view() == items.deep_view()[k - 1]);
                assert forall|t: int|
                    0 <= t < premid.len() implies self.current_matches.deep_view()[t] == premid[
                    t
                ] by {
                    assert(self.current_matches.deep_view()[t]
                        == self.current_matches@[t].deep_view());
                }
                assert(self.current_matches.deep_view()[premid.len() as int]
                    == self.current_matches@.last().deep_view());
                assert(self.current_matches@.last().deep_view() == MatchHolderV {
                    plugin_id: key@,
                    item: items.deep_view()[k - 1],
                });
                let target = pre + tagged(key@, items.deep_view().take(k as int));
                assert(tagged(key@, items.deep_view().take(k as int)).len() == k);
                assert forall|t: int|
                    0 <= t < pre.len() + k implies self.current_matches.deep_view()[t] == target[
                    t
                ] by {
                    if t < pre.len() {
                        assert(target[t] == pre[t]);
                        assert(premid[t] == pre[t]);
                    } else {
                        assert(target[t] == tagged(key@, items.deep_view().take(k as int))[t
                            - pre.len()]);
                        assert(tagged(key@, items.deep_view().take(k as int))[t - pre.len()]
                            == MatchHolderV {
                            plugin_id: key@,
                            item: items.deep_view().take(k as int)[t - pre.len()],
                        });
                        if t < pre.len() + k - 1 {
                            assert(premid[t] == MatchHolderV {
                                plugin_id: key@,
                                item: items.deep_view().take(k - 1)[t - pre.len()],
                            });
                        }
                    }
                }
                assert(self.current_matches.deep_view() =~= target);
            }
        }
        proof {
            assert(items.deep_view().take(n as int) =~= items.deep_view());
        }
    }
}

/// Whether two strings hold the same characters.
fn string_eq(a: &String, b: &String) -> (r: bool)
    ensures
        r == (a@ == b@),
{
    a.eq(b)
}

proof fn lemma_search_sends_take(
    plugins: Seq<ConnectedPluginV>,
    id: usize,
    q: Seq<char>,
    target: Option<Seq<char>>,
    k: int,
)
    requires
        k == 0,
    ensures
        search_sends(plugins.take(0), id, q, target) == Seq::<RouterEffectV>::empty(),
{
    assert(plugins.take(0).len() == 0);
}

/// Extending the prefix of plugins by one extends its fan-out accordingly.
proof fn lemma_search_sends_snoc(
    plugins: Seq<ConnectedPluginV>,
    id: usize,
    q: Seq<char>,
    target: Option<Seq<char>>,
    k: int,
)
    requires
        0 <= k < plugins.len(),
    ensures
        search_sends(plugins.take(k + 1), id, q, target) == search_sends(
            plugins.take(k),
            id,
            q,
            target,
        ) + (if eligible(plugins[k], target) {
            seq![
                RouterEffectV::SendToPlugin {
                    key: plugins[k].key,
                    message: MessageV::Request {
                        id,
                        method: MethodV::Search(q),
                        plugin_id: Option::None,
                    },
                },
            ]
        } else {
            Seq::<RouterEffectV>::empty()
        }),
    decreases k,
{
    if k == 0 {
        assert(plugins.take(1).len() == 1);
        assert(plugins.take(1)[0] == plugins[0]);
        assert(plugins.take(1).drop_first() =~= plugins.take(0));
        assert(plugins.take(0).len() == 0);
        assert(search_sends(plugins.take(0), id, q, target) =~= Seq::<RouterEffectV>::empty());
        assert(search_sends(plugins.take(1), id, q, target) =~= search_sends(
            plugins.take(0),
            id,
            q,
            target,
        ) + (if eligible(plugins[0], target) {
            seq![
                RouterEffectV::SendToPlugin {
                    key: plugins[0].key,
                    message: MessageV::Request {
                        id,
                        method: MethodV::Search(q),
                        plugin_id: Option::None,
                    },
                },
            ]
        } else {
            Seq::<RouterEffectV>::empty()
        }));
    } else {
        lemma_search_sends_snoc(plugins.drop_first(), id, q, target, k - 1);
        assert(plugins.take(k + 1).drop_first() =~= plugins.drop_first().take(k));
        assert(plugins.take(k).drop_first() =~= plugins.drop_first().take(k - 1));
        assert(plugins.take(k + 1)[0] == plugins[0]);
        assert(plugins.take(k)[0] == plugins[0]);
        assert(plugins.drop_first()[k - 1] == plugins[k]);
        assert(search_sends(plugins.take(k + 1), id, q, target) =~= search_sends(
            plugins.take(k),
            id,
            q,
            target,
        ) + (if eligible(plugins[k], target) {
            seq![
                RouterEffectV::SendToPlugin {
                    key: plugins[k].key,
                    message: MessageV::Request {
                        id,
                        method: MethodV::Search(q),
                        plugin_id: Option::None,
                    },
                },
            ]
        } else {
            Seq::<RouterEffectV>::empty()
        }));
    }
}

proof fn lemma_broadcast_sends_take(plugins: Seq<ConnectedPluginV>, m: MethodV, k: int)
    requires
        k == 0,
    ensures
        broadcast_sends(plugins.take(0), m) == Seq::<RouterEffectV>::empty(),
{
    assert(plugins.take(0).len() == 0);
}

/// Extending the prefix of plugins by one extends its broadcast.
proof fn lemma_broadcast_sends_snoc(plugins: Seq<ConnectedPluginV>, m: MethodV, k: int)
    requires
        0 <= k < plugins.len(),
    ensures
        broadcast_sends(plugins.take(k + 1), m) == broadcast_sends(plugins.take(k), m) + seq![
            RouterEffectV::SendToPlugin {
                key: plugins[k].key,
                message: MessageV::Notification { method: m },
            },
        ],
    decreases k,
{
    if k == 0 {
        assert(plugins.take(1).len() == 1);
        assert(plugins.take(1)[0] == plugins[0]);
        assert(plugins.take(1).drop_first() =~= plugins.take(0));
        assert(plugins.take(0).len() == 0);
        assert(broadcast_sends(plugins.take(0), m) =~= Seq::<RouterEffectV>::empty());
        assert(broadcast_sends(plugins.take(1), m) =~= broadcast_sends(plugins.take(0), m)
            + seq![
            RouterEffectV::SendToPlugin {
                key: plugins[0].key,
                message: MessageV::Notification { method: m },
            },
        ]);
    } else {
        lemma_broadcast_sends_snoc(plugins.drop_first(), m, k - 1);
        assert(plugins.take(k + 1).drop_first() =~= plugins.drop_first().take(k));
        assert(plugins.take(k).drop_first() =~= plugins.drop_first().take(k - 1));
        assert(plugins.take(k + 1)[0] == plugins[0]);
        assert(plugins.take(k)[0] == plugins[0]);
        assert(plugins.drop_first()[k - 1] == plugins[k]);
        assert(broadcast_sends(plugins.take(k + 1), m) =~= broadcast_sends(plugins.take(k), m)
            + seq![
            RouterEffectV::SendToPlugin {
                key: plugins[k].key,
                message: MessageV::Notification { method: m },
            },
        ]);
    }
}

/// Every filtered element occurs in the original sequence.
proof fn lemma_filter_subset_keys(s: Seq<ConnectedPluginV>, f: spec_fn(ConnectedPluginV) -> bool)
    ensures
        forall|i: int|
            0 <= i < s.filter(f).len() ==> s.contains(#[trigger] s.filter(f)[i]),
    decreases s.len(),
{
    reveal(Seq::filter);
    if s.len() > 0 {
        let head = s.drop_last();
        lemma_filter_subset_keys(head, f);
        assert forall|i: int|
            0 <= i < s.filter(f).len() implies s.contains(#[trigger] s.filter(f)[i]) by {
            if f(s.last()) && i == s.filter(f).len() - 1 {
                assert(s.filter(f)[i] == s.last());
                assert(s[s.len() - 1] == s.last());
            } else {
                assert(s.filter(f)[i] == head.filter(f)[i]);
                assert(head.contains(head.filter(f)[i]));
                let a = choose|a: int| 0 <= a < head.len() && head[a] == head.filter(f)[i];
                assert(s[a] == head[a]);
            }
        }
    }
}

/// Filtering cannot bring two equal keys together that were distinct.
proof fn lemma_filter_keeps_distinct_keys(
    pre: Seq<ConnectedPluginV>,
    f: spec_fn(ConnectedPluginV) -> bool,
    i: int,
    j: int,
)
    requires
        forall|a: int, b: int|
            0 <= a < b < pre.len() ==> #[trigger] pre[a].key != #[trigger] pre[b].key,
        0 <= i < j < pre.filter(f).len(),
    ensures
        pre.filter(f)[i].key != pre.filter(f)[j].key,
    decreases pre.len(),
{
    reveal(Seq::filter);
    if pre.len() > 0 {
        let last = pre.last();
        let head = pre.drop_last();
        assert forall|a: int, b: int|
            0 <= a < b < head.len() implies #[trigger] head[a].key != #[trigger] head[b].key by {
            assert(pre[a] == head[a]);
            assert(pre[b] == head[b]);
        }
        if f(last) {
            if j < pre.filter(f).len() - 1 {
                lemma_filter_keeps_distinct_keys(head, f, i, j);
            } else {
                // the last filtered element is `last`; element i comes from
                // the head, whose keys all differ from last's
                assert(pre.filter(f)[j] == last);
                assert(pre.filter(f)[i] == head.filter(f)[i]);
                lemma_filter_subset_keys(head, f);
                assert(head.contains(head.filter(f)[i]));
                let a = choose|a: int| 0 <= a < head.len() && head[a] == head.filter(f)[i];
                assert(pre[a] == head[a]);
                assert(pre[a].key != pre[pre.len() - 1].key);
            }
        } else {
            lemma_filter_keeps_distinct_keys(head, f, i, j);
        }
    }
}

// ===== the routing laws =====

/// A response bearing any id other than the router's current one is
/// dropped: nothing is forwarded and nothing changes. In particular a
/// response whose id is below the current one, left over from a superseded
/// search, never reaches a client.
pub proof fn lemma_superseded_response_dropped(s: RouterV, key: Seq<char>, m: MessageV)
    requires
        m is Response,
        m->Response_id != s.current_request,
    ensures
        response_effects(s, key, m) == Seq::<RouterEffectV>::empty(),
        response_next(s, key, m) == s,
{
}

/// Out-of-range activation indices resolve to nothing: no panic, no
/// dispatched action, no state change.
pub proof fn lemma_activation_bounds_safe(s: RouterV, id: usize, mi: usize, ai: usize)
    requires
        mi >= s.current_matches.len() || ai >= s.current_matches[mi as int].item.actions.len(),
    ensures
        request_effects(
            s,
            MessageV::Request {
                id,
                method: MethodV::Activate(mi, ai),
                plugin_id: Option::None,
            },
        ) == Seq::<RouterEffectV>::empty(),
        request_next(
            s,
            MessageV::Request {
                id,
                method: MethodV::Activate(mi, ai),
                plugin_id: Option::None,
            },
        ) == s,
{
}

/// Aggregation keeps the origin of every match: after a plugin's matches
/// are folded in, activating a callback action from that plugin's segment
/// routes the callback to exactly that plugin's channel.
pub proof fn lemma_callback_routes_to_origin(
    s: RouterV,
    key: Seq<char>,
    id: usize,
    error: Option<Seq<char>>,
    items: Seq<MatchV>,
    mi: usize,
    ai: usize,
    rid: usize,
)
    requires
        id == s.current_request,
        has_plugin(s.plugins, key),
        s.current_matches.len() <= mi < s.current_matches.len() + items.len(),
        ai < items[mi - s.current_matches.len()].actions.len(),
        items[mi - s.current_matches.len()].actions[ai as int].action is Callback,
    ensures
        ({
            let s2 = response_next(
                s,
                key,
                MessageV::Response {
                    id,
                    error,
                    result: Option::Some(MethodResultV::Matches(items)),
                    plugin_id: Option::None,
                },
            );
            let act = items[mi - s.current_matches.len()].actions[ai as int].action;
            request_effects(
                s2,
                MessageV::Request {
                    id: rid,
                    method: MethodV::Activate(mi, ai),
                    plugin_id: Option::None,
                },
            ) == seq![
                RouterEffectV::SendToPlugin {
                    key,
                    message: MessageV::Notification {
                        method: MethodV::CallAction(
                            act->Callback_key,
                            act->Callback_params,
                        ),
                    },
                },
            ]
        }),
{
    let s2 = response_next(
        s,
        key,
        MessageV::Response {
            id,
            error,
            result: Option::Some(MethodResultV::Matches(items)),
            plugin_id: Option::None,
        },
    );
    assert(s2.current_matches == s.current_matches + tagged(key, items));
    assert(s2.current_matches[mi as int] == tagged(key, items)[mi - s.current_matches.len()]);
    assert(s2.current_matches[mi as int].plugin_id == key);
    assert(s2.current_matches[mi as int].item == items[mi - s.current_matches.len()]);
    assert(s2.plugins == s.plugins);
}

} // verus!
