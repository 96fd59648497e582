//! Wire-protocol data model: the message envelope and its payload types,
//! shared by the daemon, its plugin processes and its clients. Pure data;
//! the line-framed JSON form lives in the codec module.

use vstd::prelude::*;

verus! {

/// A match score. The wire form renders it as a decimal fraction with three
/// digits after the point, so a score of `0.850` is stored as `850`.
#[derive(Clone, Copy, Debug, PartialEq, Eq)]
pub struct Score {
    pub millis: u32,
}

/// Plugin identity, declared once per plugin process through the
/// authentication handshake and immutable afterwards.
#[derive(Debug, PartialEq, Eq)]
pub struct Metadata {
    pub id: String,
    pub name: String,
    pub version: String,
    pub description: String,
    pub author: String,
}

/// Spec-level image of [`Metadata`].
pub struct MetadataV {
    pub id: Seq<char>,
    pub name: Seq<char>,
    pub version: Seq<char>,
    pub description: Seq<char>,
    pub author: Seq<char>,
}

impl View for Metadata {
    type V = MetadataV;

    open spec fn view(&self) -> MetadataV {
        MetadataV {
            id: self.id@,
            name: self.name@,
            version: self.version@,
            description: self.description@,
            author: self.author@,
        }
    }
}

impl DeepView for Metadata {
    type V = MetadataV;

    open spec fn deep_view(&self) -> MetadataV {
        self.view()
    }
}

impl Clone for Metadata {
    fn clone(&self) -> (res: Self)
        ensures
            res == *self,
    {
        Metadata {
            id: self.id.clone(),
            name: self.name.clone(),
            version: self.version.clone(),
            description: self.description.clone(),
            author: self.author.clone(),
        }
    }
}

/// Handed to a plugin when it is initialized.
#[derive(Debug, PartialEq, Eq)]
pub struct Context {
    pub config_dir: String,
}

/// A request payload. Exactly one variant per message.
#[derive(Debug, PartialEq, Eq)]
pub enum Method {
    /// Fan a query out to plugins.
    Search(String),
    /// Trigger an action: match index, then action index within that match.
    Activate(usize, usize),
    /// Invoke a named plugin callback with string parameters.
    CallAction(String, Vec<(String, String)>),
    /// Abandon the in-flight request.
    Cancel,
    /// Shut the receiver down.
    Quit,
}

/// Spec-level image of [`Method`].
pub enum MethodV {
    Search(Seq<char>),
    Activate(usize, usize),
    CallAction(Seq<char>, Seq<(Seq<char>, Seq<char>)>),
    Cancel,
    Quit,
}

impl View for Method {
    type V = MethodV;

    open spec fn view(&self) -> MethodV {
        match self {
            Method::Search(q) => MethodV::Search(q@),
            Method::Activate(m, a) => MethodV::Activate(*m, *a),
            Method::CallAction(k, p) => MethodV::CallAction(k@, p.deep_view()),
            Method::Cancel => MethodV::Cancel,
            Method::Quit => MethodV::Quit,
        }
    }
}

impl DeepView for Method {
    type V = MethodV;

    open spec fn deep_view(&self) -> MethodV {
        self.view()
    }
}

/// One concrete thing the daemon can do on behalf of a chosen match.
#[derive(Debug, PartialEq, Eq)]
pub enum Action {
    /// Spawn a command, detached.
    Exec { command: String, args: Vec<String> },
    /// Start a desktop application by its identifier.
    Launch { app_id: String, args: Vec<String>, new_instance: bool },
    /// Open a resource with the platform handler.
    Open { uri: String },
    /// Place text on the clipboard.
    Clipboard { text: String },
    /// Route a notification back to the plugin that owns the match.
    Callback { key: String, params: Vec<(String, String)> },
}

/// Spec-level image of [`Action`].
pub enum ActionV {
    Exec { command: Seq<char>, args: Seq<Seq<char>> },
    Launch { app_id: Seq<char>, args: Seq<Seq<char>>, new_instance: bool },
    Open { uri: Seq<char> },
    Clipboard { text: Seq<char> },
    Callback { key: Seq<char>, params: Seq<(Seq<char>, Seq<char>)> },
}

impl View for Action {
    type V = ActionV;

    open spec fn view(&self) -> ActionV {
        match self {
            Action::Exec { command, args } => ActionV::Exec {
                command: command@,
                args: args.deep_view(),
            },
            Action::Launch { app_id, args, new_instance } => ActionV::Launch {
                app_id: app_id@,
                args: args.deep_view(),
                new_instance: *new_instance,
            },
            Action::Open { uri } => ActionV::Open { uri: uri@ },
            Action::Clipboard { text } => ActionV::Clipboard { text: text@ },
            Action::Callback { key, params } => ActionV::Callback {
                key: key@,
                params: params.deep_view(),
            },
        }
    }
}

impl DeepView for Action {
    type V = ActionV;

    open spec fn deep_view(&self) -> ActionV {
        self.view()
    }
}

/// One action offered by a match; the order of a match's actions is
/// significant, because `Activate` addresses them by index.
#[derive(Debug, PartialEq, Eq)]
pub struct MatchAction {
    pub title: String,
    pub action: Action,
    pub close_on_action: bool,
}

/// Spec-level image of [`MatchAction`].
pub struct MatchActionV {
    pub title: Seq<char>,
    pub action: ActionV,
    pub close_on_action: bool,
}

impl View for MatchAction {
    type V = MatchActionV;

    open spec fn view(&self) -> MatchActionV {
        MatchActionV {
            title: self.title@,
            action: self.action@,
            close_on_action: self.close_on_action,
        }
    }
}

impl DeepView for MatchAction {
    type V = MatchActionV;

    open spec fn deep_view(&self) -> MatchActionV {
        self.view()
    }
}

/// One search result returned by a plugin for a given query.
#[derive(Debug, PartialEq, Eq)]
pub struct Match {
    pub title: String,
    pub description: String,
    pub icon: Option<String>,
    pub actions: Vec<MatchAction>,
    pub score: Score,
}

/// Spec-level image of [`Match`].
pub struct MatchV {
    pub title: Seq<char>,
    pub description: Seq<char>,
    pub icon: Option<Seq<char>>,
    pub actions: Seq<MatchActionV>,
    pub score: u32,
}

impl View for Match {
    type V = MatchV;

    open spec fn view(&self) -> MatchV {
        MatchV {
            title: self.title@,
            description: self.description@,
            icon: self.icon.deep_view(),
            actions: self.actions.deep_view(),
            score: self.score.millis,
        }
    }
}

impl DeepView for Match {
    type V = MatchV;

    open spec fn deep_view(&self) -> MatchV {
        self.view()
    }
}

/// A reply payload.
#[derive(Debug, PartialEq, Eq)]
pub enum MethodResult {
    /// The authentication handshake: the plugin declares its identity.
    Authenticate(Metadata),
    /// Search results for the current query.
    Matches { items: Vec<Match> },
    /// A handler failure, surfaced verbatim to clients.
    Error(String),
    /// Success with nothing to report.
    NoResult,
}

/// Spec-level image of [`MethodResult`].
pub enum MethodResultV {
    Authenticate(MetadataV),
    Matches(Seq<MatchV>),
    Error(Seq<char>),
    NoResult,
}

impl View for MethodResult {
    type V = MethodResultV;

    open spec fn view(&self) -> MethodResultV {
        match self {
            MethodResult::Authenticate(m) => MethodResultV::Authenticate(m@),
            MethodResult::Matches { items } => MethodResultV::Matches(items.deep_view()),
            MethodResult::Error(e) => MethodResultV::Error(e@),
            MethodResult::NoResult => MethodResultV::NoResult,
        }
    }
}

impl DeepView for MethodResult {
    type V = MethodResultV;

    open spec fn deep_view(&self) -> MethodResultV {
        self.view()
    }
}

/// The message envelope: everything that crosses a process boundary is
/// exactly one of these three shapes, one per line.
#[derive(Debug, PartialEq, Eq)]
pub enum Message {
    /// A request that expects a reply correlated by `id`. `plugin_id`
    /// narrows fan-out to one plugin; absent means broadcast.
    Request { id: usize, method: Method, plugin_id: Option<String> },
    /// A reply. `plugin_id` is stamped by the daemon when the response
    /// arrives from a plugin, never by the plugin itself.
    Response {
        id: usize,
        error: Option<String>,
        result: Option<MethodResult>,
        plugin_id: Option<String>,
    },
    /// Fire-and-forget: no id, no reply expected.
    Notification { method: Method },
}

fn clone_strings(v: &Vec<String>) -> (r: Vec<String>)
    ensures
        r@ == v@,
{
    let mut r: Vec<String> = Vec::new();
    let n = v.len();
    let mut k: usize = 0;
    while k < n
        invariant
            k <= n,
            n == v@.len(),
            r@ == v@.take(k as int),
        decreases n - k,
    {
        r.push(v[k].clone());
        k = k + 1;
        proof {
            assert(r@ =~= v@.take(k as int));
        }
    }
    proof {
        assert(v@.take(n as int) =~= v@);
    }
    r
}

/// The pairs of a parameter list, cloned one by one.
pub fn clone_pairs(v: &Vec<(String, String)>) -> (r: Vec<(String, String)>)
    ensures
        r@ == v@,
{
    let mut r: Vec<(String, String)> = Vec::new();
    let n = v.len();
    let mut k: usize = 0;
    while k < n
        invariant
            k <= n,
            n == v@.len(),
            r@ == v@.take(k as int),
        decreases n - k,
    {
        r.push((v[k].0.clone(), v[k].1.clone()));
        k = k + 1;
        proof {
            assert(r@ =~= v@.take(k as int));
        }
    }
    proof {
        assert(v@.take(n as int) =~= v@);
    }
    r
}

fn clone_opt_string(o: &Option<String>) -> (r: Option<String>)
    ensures
        r == *o,
{
    match o {
        Option::None => None,
        Option::Some(s) => Some(s.clone()),
    }
}

impl Clone for Action {
    fn clone(&self) -> (res: Self)
        ensures
            res@ == self@,
    {
        match self {
            Action::Exec { command, args } => Action::Exec {
                command: command.clone(),
                args: clone_strings(args),
            },
            Action::Launch { app_id, args, new_instance } => Action::Launch {
                app_id: app_id.clone(),
                args: clone_strings(args),
                new_instance: *new_instance,
            },
            Action::Open { uri } => Action::Open { uri: uri.clone() },
            Action::Clipboard { text } => Action::Clipboard { text: text.clone() },
            Action::Callback { key, params } => Action::Callback {
                key: key.clone(),
                params: clone_pairs(params),
            },
        }
    }
}

impl Clone for MatchAction {
    fn clone(&self) -> (res: Self)
        ensures
            res@ == self@,
    {
        MatchAction {
            title: self.title.clone(),
            action: self.action.clone(),
            close_on_action: self.close_on_action,
        }
    }
}

fn clone_match_actions(v: &Vec<MatchAction>) -> (r: Vec<MatchAction>)
    ensures
        r.deep_view() == v.deep_view(),
{
    let mut r: Vec<MatchAction> = Vec::new();
    let n = v.len();
    let mut k: usize = 0;
    proof {
        assert(r.deep_view() =~= v.deep_view().take(0));
    }
    while k < n
        invariant
            k <= n,
            n == v@.len(),
            r@.len() == k,
            r.deep_view() == v.deep_view().take(k as int),
        decreases n - k,
    {
        let ghost pre = r.deep_view();
        r.push(v[k].clone());
        k = k + 1;
        proof {
            assert(r@.len() == k);
            assert forall|t: int| 0 <= t < k implies r.deep_view()[t] == v.deep_view()[t] by {
                assert(r.deep_view()[t] == r@[t].deep_view());
                if t < k - 1 {
                    assert(r.deep_view()[t] == pre[t]);
                }
            }
            assert(r.deep_view() =~= v.deep_view().take(k as int));
        }
    }
    proof {
        assert(v.deep_view().take(n as int) =~= v.deep_view());
    }
    r
}

impl Clone for Match {
    fn clone(&self) -> (res: Self)
        ensures
            res@ == self@,
    {
        Match {
            title: self.title.clone(),
            description: self.description.clone(),
            icon: clone_opt_string(&self.icon),
            actions: clone_match_actions(&self.actions),
            score: self.score,
        }
    }
}

/// The items of a match list, cloned one by one.
pub fn clone_matches(v: &Vec<Match>) -> (r: Vec<Match>)
    ensures
        r.deep_view() == v.deep_view(),
{
    let mut r: Vec<Match> = Vec::new();
    let n = v.len();
    let mut k: usize = 0;
    proof {
        assert(r.deep_view() =~= v.deep_view().take(0));
    }
    while k < n
        invariant
            k <= n,
            n == v@.len(),
            r@.len() == k,
            r.deep_view() == v.deep_view().take(k as int),
        decreases n - k,
    {
        let ghost pre = r.deep_view();
        r.push(v[k].clone());
        k = k + 1;
        proof {
            assert(r@.len() == k);
            assert forall|t: int| 0 <= t < k implies r.deep_view()[t] == v.deep_view()[t] by {
                assert(r.deep_view()[t] == r@[t].deep_view());
                if t < k - 1 {
                    assert(r.deep_view()[t] == pre[t]);
                }
            }
            assert(r.deep_view() =~= v.deep_view().take(k as int));
        }
    }
    proof {
        assert(v.deep_view().take(n as int) =~= v.deep_view());
    }
    r
}

impl Clone for Method {
    fn clone(&self) -> (res: Self)
        ensures
            res@ == self@,
    {
        match self {
            Method::Search(q) => Method::Search(q.clone()),
            Method::Activate(m, a) => Method::Activate(*m, *a),
            Method::CallAction(k, p) => Method::CallAction(k.clone(), clone_pairs(p)),
            Method::Cancel => Method::Cancel,
            Method::Quit => Method::Quit,
        }
    }
}

impl Clone for MethodResult {
    fn clone(&self) -> (res: Self)
        ensures
            res@ == self@,
    {
        match self {
            MethodResult::Authenticate(md) => MethodResult::Authenticate(md.clone()),
            MethodResult::Matches { items } => MethodResult::Matches {
                items: clone_matches(items),
            },
            MethodResult::Error(e) => MethodResult::Error(e.clone()),
            MethodResult::NoResult => MethodResult::NoResult,
        }
    }
}

/// Spec-level image of [`Message`].
pub enum MessageV {
    Request { id: usize, method: MethodV, plugin_id: Option<Seq<char>> },
    Response {
        id: usize,
        error: Option<Seq<char>>,
        result: Option<MethodResultV>,
        plugin_id: Option<Seq<char>>,
    },
    Notification { method: MethodV },
}

impl View for Message {
    type V = MessageV;

    open spec fn view(&self) -> MessageV {
        match self {
            Message::Request { id, method, plugin_id } => MessageV::Request {
                id: *id,
                method: method@,
                plugin_id: plugin_id.deep_view(),
            },
            Message::Response { id, error, result, plugin_id } => MessageV::Response {
                id: *id,
                error: error.deep_view(),
                result: result.deep_view(),
                plugin_id: plugin_id.deep_view(),
            },
            Message::Notification { method } => MessageV::Notification { method: method@ },
        }
    }
}

impl DeepView for Message {
    type V = MessageV;

    open spec fn deep_view(&self) -> MessageV {
        self.view()
    }
}

impl Clone for Message {
    fn clone(&self) -> (res: Self)
        ensures
            res@ == self@,
    {
        match self {
            Message::Request { id, method, plugin_id } => Message::Request {
                id: *id,
                method: method.clone(),
                plugin_id: clone_opt_string(plugin_id),
            },
            Message::Response { id, error, result, plugin_id } => Message::Response {
                id: *id,
                error: clone_opt_string(error),
                result: match result {
                    Option::None => None,
                    Option::Some(r) => Some(r.clone()),
                },
                plugin_id: clone_opt_string(plugin_id),
            },
            Message::Notification { method } => Message::Notification { method: method.clone() },
        }
    }
}

} // verus!
