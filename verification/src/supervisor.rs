//! Plugin supervision decisions: which files qualify as plugin
//! executables, where to look for them, and the restart policy — a plugin
//! process that exits, cleanly or not, is always respawned after a fixed
//! backoff. The loop never gives a plugin up on its own.

use vstd::prelude::*;

verus! {

/// What the supervisor knows about one directory entry while scanning for
/// plugins.
pub struct FileInfo {
    pub path: String,
    pub is_file: bool,
    pub mode: u32,
}

/// Spec-level image of [`FileInfo`].
pub struct FileInfoV {
    pub path: Seq<char>,
    pub is_file: bool,
    pub mode: u32,
}

impl View for FileInfo {
    type V = FileInfoV;

    open spec fn view(&self) -> FileInfoV {
        FileInfoV { path: self.path@, is_file: self.is_file, mode: self.mode }
    }
}

impl DeepView for FileInfo {
    type V = FileInfoV;

    open spec fn deep_view(&self) -> FileInfoV {
        self.view()
    }
}

/// A candidate plugin executable is a regular file with at least one
/// executable permission bit set.
pub open spec fn spec_candidate(f: FileInfoV) -> bool {
    f.is_file && f.mode & 0o111 != 0
}

/// Whether one directory entry qualifies as a plugin executable.
pub fn is_plugin_candidate(is_file: bool, mode: u32) -> (r: bool)
    ensures
        r == (is_file && mode & 0o111 != 0),
{
    is_file && mode & 0o111 != 0
}

/// The paths of the entries that qualify, in directory order.
pub open spec fn spec_candidates(entries: Seq<FileInfoV>) -> Seq<Seq<char>> {
    entries.filter(|f: FileInfoV| spec_candidate(f)).map_values(|f: FileInfoV| f.path)
}

/// Filters a directory listing down to the qualifying plugin executables.
pub fn collect_candidates(entries: &Vec<FileInfo>) -> (r: Vec<String>)
    ensures
        r.deep_view() == spec_candidates(entries.deep_view()),
{
    let mut r: Vec<String> = Vec::new();
    let n = entries.len();
    let mut k: usize = 0;
    let ghost pre = entries.deep_view();
    proof {
        reveal(Seq::filter);
        assert(pre.take(0) =~= Seq::<FileInfoV>::empty());
        assert(r.deep_view() =~= spec_candidates(pre.take(0)));
    }
    while k < n
        invariant
            k <= n,
            n == entries@.len(),
            pre == entries.deep_view(),
            pre.len() == n,
            r.deep_view() == spec_candidates(pre.take(k as int)),
        decreases n - k,
    {
        let ghost preout = r.deep_view();
        let e = &entries[k];
        if is_plugin_candidate(e.is_file, e.mode) {
            r.push(e.path.clone());
        }
        k = k + 1;
        proof {
            reveal(Seq::filter);
            let f = |f: FileInfoV| spec_candidate(f);
            assert(entries@[k - 1].deep_view() == pre[k - 1]);
            assert(pre.take(k as int).drop_last() =~= pre.take(k - 1));
            assert(pre.take(k as int).last() == pre[k - 1]);
            if f(pre[k - 1]) {
                assert(pre.take(k as int).filter(f) == pre.take(k - 1).filter(f).push(
                    pre[k - 1],
                ));
                assert(r.deep_view() =~= preout.push(pre[k - 1].path));
                assert(r.deep_view() =~= spec_candidates(pre.take(k as int)));
            } else {
                assert(pre.take(k as int).filter(f) == pre.take(k - 1).filter(f));
                assert(r.deep_view() =~= spec_candidates(pre.take(k as int)));
            }
        }
    }
    proof {
        assert(pre.take(n as int) =~= pre);
    }
    r
}

/// The directories searched for plugin executables, in order: the
/// environment override when one is set and not empty, then the per-user
/// data directory, then the two system-wide locations.
pub open spec fn spec_search_dirs(env: Option<Seq<char>>, data: Option<Seq<char>>) -> Seq<
    Seq<char>,
> {
    (match env {
        Option::Some(d) => if d.len() > 0 {
            seq![d]
        } else {
            Seq::<Seq<char>>::empty()
        },
        Option::None => Seq::<Seq<char>>::empty(),
    }) + (match data {
        Option::Some(d) => seq![d + "/glimpsed/plugins"@],
        Option::None => Seq::<Seq<char>>::empty(),
    }) + seq!["/usr/lib/glimpsed/plugins"@, "/usr/local/lib/glimpsed/plugins"@]
}

/// Builds the plugin search path from the environment override and the
/// per-user data directory, both handed in by the caller.
pub fn plugin_search_dirs(env_dir: Option<String>, data_dir: Option<String>) -> (r: Vec<String>)
    ensures
        r.deep_view() == spec_search_dirs(env_dir.deep_view(), data_dir.deep_view()),
{
    let ghost target = spec_search_dirs(env_dir.deep_view(), data_dir.deep_view());
    let mut dirs: Vec<String> = Vec::new();
    match env_dir {
        Some(d) => {
            if d.unicode_len() > 0 {
                dirs.push(d);
            }
        },
        None => {},
    }
    match data_dir {
        Some(d) => {
            let mut joined = d;
            joined.append("/glimpsed/plugins");
            dirs.push(joined);
        },
        None => {},
    }
    let mut sys: String = String::new();
    sys.append("/usr/lib/glimpsed/plugins");
    dirs.push(sys);
    let mut local: String = String::new();
    local.append("/usr/local/lib/glimpsed/plugins");
    dirs.push(local);
    proof {
        assert forall|t: int| 0 <= t < dirs@.len() implies dirs.deep_view()[t] == dirs@[
            t
        ].deep_view() by {}
        assert(dirs.deep_view() =~= target);
    }
    dirs
}

/// What the supervision loop does next.
pub enum SupervisorAction {
    /// Wait the fixed backoff, then spawn the executable again.
    BackoffThenRespawn,
}

/// One plugin's supervision state: its executable path, whether its
/// process is currently up, and how many times it has been respawned.
pub struct Supervisor {
    pub path: String,
    pub running: bool,
    pub restarts: u64,
}

/// Spec-level image of [`Supervisor`].
pub struct SupervisorV {
    pub path: Seq<char>,
    pub running: bool,
    pub restarts: u64,
}

impl View for Supervisor {
    type V = SupervisorV;

    open spec fn view(&self) -> SupervisorV {
        SupervisorV { path: self.path@, running: self.running, restarts: self.restarts }
    }
}

impl Supervisor {
    /// A supervision loop for one executable; nothing spawned yet.
    pub fn new(path: String) -> (r: Supervisor)
        ensures
            r@.path == path@,
            !r@.running,
            r@.restarts == 0,
    {
        Supervisor { path, running: false, restarts: 0 }
    }

    /// The process came up and its bridges are wired.
    pub fn on_spawned(&mut self)
        ensures
            final(self)@.running,
            final(self)@.path == old(self)@.path,
            final(self)@.restarts == old(self)@.restarts,
    {
        self.running = true;
    }

    /// The process exited — cleanly, by crash, or because a bridge broke.
    /// The answer is always the same: tear down, back off, respawn. The
    /// supervision loop never abandons its plugin.
    pub fn on_exit(&mut self) -> (a: SupervisorAction)
        ensures
            a is BackoffThenRespawn,
            final(self)@ == spec_on_exit(old(self)@),
    {
        self.running = false;
        if self.restarts < u64::MAX {
            self.restarts = self.restarts + 1;
        }
        SupervisorAction::BackoffThenRespawn
    }
}

/// What one exit does to the supervision state: the process is down, the
/// restart counter grows (until it saturates), and nothing else changes.
pub open spec fn spec_on_exit(s: SupervisorV) -> SupervisorV {
    SupervisorV {
        running: false,
        restarts: if s.restarts < u64::MAX {
            (s.restarts + 1) as u64
        } else {
            s.restarts
        },
        path: s.path,
    }
}

/// A plugin that exits right after spawn is restarted again and again: in
/// every state an exit is answered by a respawn of the same executable,
/// and two exits in a row are counted as two restarts.
pub proof fn lemma_restart_on_crash(s0: SupervisorV)
    requires
        s0.restarts + 2 <= u64::MAX,
    ensures
        spec_on_exit(s0).path == s0.path,
        !spec_on_exit(s0).running,
        spec_on_exit(spec_on_exit(s0)).restarts == s0.restarts + 2,
        spec_on_exit(spec_on_exit(s0)).path == s0.path,
{
}

} // verus!
