//! The coordinator's access policy: which paths its tools may touch.

use vstd::prelude::*;
use crate::history::HistoryManager;
use crate::path::{
    components, components_of, components_within, file_name, file_name_of, is_absolute, join,
    join_chars, lemma_join_relative_within, lemma_within_resolves_under, lies_within, resolved,
};
use crate::text::{char_views, chars_of, contains, contains_chars, string_of, trim, trim_chars};

verus! {

/// The name of the coordinator's own binary, which is always blacklisted.
pub open spec fn own_binary_name() -> Seq<char> {
    "zeroclaw-coordinator-mcp"@
}

/// How many changes the history of a server keeps.
pub const HISTORY_LIMIT: usize = 10;

/// The character sequences held by a list of strings.
pub open spec fn strs(v: Seq<String>) -> Seq<Seq<char>> {
    Seq::new(v.len(), |i: int| v[i]@)
}

/// The entries of `raw`, trimmed, without the ones left empty, in order.
pub open spec fn trimmed_entries(raw: Seq<Seq<char>>) -> Seq<Seq<char>>
    decreases raw.len(),
{
    if raw.len() == 0 {
        seq![]
    } else {
        let r = trimmed_entries(raw.drop_last());
        if trim(raw.last()).len() > 0 {
            r.push(trim(raw.last()))
        } else {
            r
        }
    }
}

/// A server's configuration as plain values.
pub struct ServerView {
    pub workspace: Seq<char>,
    pub blacklist: Set<Seq<char>>,
    pub whitelist: Seq<Seq<char>>,
    pub history_dir: Seq<char>,
    pub history_limit: nat,
}

/// The outcome of checking a path, as plain values.
pub enum PathCheck {
    Allowed,
    /// The file name (given) holds a blacklisted substring.
    Blacklisted(Seq<char>),
    /// The resolved path (given) is neither within a whitelisted directory nor
    /// within the workspace.
    NotWhitelisted(Seq<char>),
}

/// Whether the file name `name` holds one of the blacklisted substrings.
pub open spec fn is_blacklisted(blacklist: Set<Seq<char>>, name: Seq<char>) -> bool {
    exists|b: Seq<char>| blacklist.contains(b) && contains(name, b)
}

/// Whether `abs` lies within one of the whitelisted directories.
pub open spec fn is_whitelisted(whitelist: Seq<Seq<char>>, abs: Seq<char>) -> bool {
    exists|i: int| 0 <= i < whitelist.len() && lies_within(abs, #[trigger] whitelist[i])
}

/// The verdict on `path` for a server configured as `s`: the path is
/// resolved against the workspace; its file name must hold no blacklisted
/// substring, and the resolved path must lie within a whitelisted directory
/// or within the workspace: under it by whole components, with no `..`
/// leading back out of it.
pub open spec fn check_path(s: ServerView, path: Seq<char>) -> PathCheck {
    let abs = join(s.workspace, path);
    if file_name(abs) is Some && is_blacklisted(s.blacklist, file_name(abs)->0) {
        PathCheck::Blacklisted(file_name(abs)->0)
    } else if !is_whitelisted(s.whitelist, abs) && !lies_within(abs, s.workspace) {
        PathCheck::NotWhitelisted(abs)
    } else {
        PathCheck::Allowed
    }
}

/// Why a path is refused.
#[derive(Debug)]
pub enum PathError {
    /// The file name holds a blacklisted substring.
    Blacklisted { file_name: String },
    /// The resolved path is outside every allowed directory.
    NotWhitelisted { path: String },
}

/// A path-check result as plain values.
pub open spec fn check_of(r: Result<(), PathError>) -> PathCheck {
    match r {
        Ok(()) => PathCheck::Allowed,
        Err(PathError::Blacklisted { file_name }) => PathCheck::Blacklisted(file_name@),
        Err(PathError::NotWhitelisted { path }) => PathCheck::NotWhitelisted(path@),
    }
}

/// The coordinator's configuration: its workspace, the blacklisted
/// substrings, the whitelisted directories and its change history.
pub struct Server {
    workspace: String,
    blacklist: Vec<String>,
    whitelist: Vec<String>,
    history: HistoryManager,
}

impl View for Server {
    type V = ServerView;

    closed spec fn view(&self) -> ServerView {
        ServerView {
            workspace: self.workspace@,
            blacklist: strs(self.blacklist@).to_set(),
            whitelist: strs(self.whitelist@),
            history_dir: self.history.dir(),
            history_limit: self.history.max_entries(),
        }
    }
}

impl Server {
    /// A server over `workspace`. The blacklist is the given substrings plus
    /// the server's own binary name; the whitelist is the given directories,
    /// trimmed, without empty ones; the history in `history_dir` keeps ten
    /// changes. (Creating the history directory is the caller's I/O.)
    pub fn new(workspace: String, blacklist: Vec<String>, whitelist: Vec<String>, history_dir: String) -> (s: Self)
        ensures
            s@.workspace == workspace@,
            s@.blacklist == strs(blacklist@).to_set().insert(own_binary_name()),
            s@.whitelist == trimmed_entries(strs(whitelist@)),
            s@.history_dir == history_dir@,
            s@.history_limit == HISTORY_LIMIT,
    {
        let mut bl = blacklist;
        let ghost given = strs(bl@);
        let own = "zeroclaw-coordinator-mcp".to_owned();
        bl.push(own);
        proof {
            assert(strs(bl@) =~= given.push(own_binary_name()));
            assert(given.push(own_binary_name()).to_set() =~= given.to_set().insert(own_binary_name())) by {
                assert forall|x: Seq<char>| given.push(own_binary_name()).to_set().contains(x) <==> given.to_set().insert(own_binary_name()).contains(x) by {
                    if given.push(own_binary_name()).contains(x) && x != own_binary_name() {
                        let k = choose|k: int| 0 <= k < given.len() + 1 && given.push(own_binary_name())[k] == x;
                        assert(given[k] == x);
                    }
                    if given.contains(x) {
                        let k = choose|k: int| 0 <= k < given.len() && given[k] == x;
                        assert(given.push(own_binary_name())[k] == x);
                    }
                    if x == own_binary_name() {
                        assert(given.push(own_binary_name())[given.len() as int] == x);
                    }
                }
            }
        }
        let mut wl: Vec<String> = Vec::new();
        let mut i: usize = 0;
        assert(strs(whitelist@).subrange(0, 0) =~= Seq::<Seq<char>>::empty());
        while i < whitelist.len()
            invariant
                i <= whitelist@.len(),
                strs(wl@) == trimmed_entries(strs(whitelist@).subrange(0, i as int)),
            decreases whitelist.len() - i,
        {
            let c = chars_of(whitelist[i].as_str());
            let t = trim_chars(&c);
            proof {
                assert(strs(whitelist@).subrange(0, i + 1).drop_last() =~= strs(whitelist@).subrange(0, i as int));
                assert(strs(whitelist@).subrange(0, i + 1).last() == whitelist@[i as int]@);
            }
            if t.len() > 0 {
                let ghost before = strs(wl@);
                let ts = string_of(&t);
                wl.push(ts);
                assert(strs(wl@) =~= before.push(ts@));
            }
            i = i + 1;
        }
        assert(strs(whitelist@).subrange(0, whitelist@.len() as int) =~= strs(whitelist@));
        Server { workspace, blacklist: bl, whitelist: wl, history: HistoryManager::new(history_dir, HISTORY_LIMIT) }
    }

    /// The workspace directory.
    pub fn workspace(&self) -> (r: &String)
        ensures
            r@ == self@.workspace,
    {
        &self.workspace
    }

    /// The change history.
    pub fn history(&self) -> (r: &HistoryManager)
        ensures
            r.dir() == self@.history_dir,
            r.max_entries() == self@.history_limit,
    {
        &self.history
    }

    /// The whitelisted directories, in order.
    pub fn whitelist(&self) -> (r: &Vec<String>)
        ensures
            strs(r@) == self@.whitelist,
    {
        &self.whitelist
    }

    /// Checks whether the server's tools may touch `path` (resolved against
    /// the workspace when relative): its file name must hold none of the
    /// blacklisted substrings, and it must lie within a whitelisted directory
    /// or within the workspace, with no `..` leading out of it.
    pub fn validate_path(&self, path: &str) -> (r: Result<(), PathError>)
        ensures
            check_of(r) == check_path(self@, path@),
    {
        let ws = chars_of(self.workspace.as_str());
        let p = chars_of(path);
        let abs = join_chars(&ws, &p);
        let ghost sv = self@;
        match file_name_of(&abs) {
            Some(name) => {
                let mut i: usize = 0;
                while i < self.blacklist.len()
                    invariant
                        i <= self.blacklist@.len(),
                        sv == self@,
                        abs@ == join(sv.workspace, path@),
                        file_name(abs@) == Some(name@),
                        forall|k: int| 0 <= k < i ==> !contains(name@, #[trigger] strs(self.blacklist@)[k]),
                    decreases self.blacklist.len() - i,
                {
                    let b = chars_of(self.blacklist[i].as_str());
                    if contains_chars(&name, &b) {
                        proof {
                            assert(strs(self.blacklist@)[i as int] == b@);
                            assert(strs(self.blacklist@).contains(b@));
                            assert(strs(self.blacklist@).to_set().contains(b@));
                            assert(sv.blacklist.contains(b@) && contains(name@, b@));
                            assert(is_blacklisted(sv.blacklist, name@));

                        }
                        return Err(PathError::Blacklisted { file_name: string_of(&name) });
                    }
                    i = i + 1;
                }
                proof {
                    assert forall|b: Seq<char>| sv.blacklist.contains(b) implies !contains(name@, b) by {
                        let k = choose|k: int| 0 <= k < strs(self.blacklist@).len() && strs(self.blacklist@)[k] == b;
                        assert(!contains(name@, strs(self.blacklist@)[k]));
                    }
                }
            },
            None => {},
        }
        let cabs = components_of(&abs);
        let mut whitelisted = false;
        let mut j: usize = 0;
        while j < self.whitelist.len()
            invariant
                j <= self.whitelist@.len(),
                sv == self@,
                abs@ == join(sv.workspace, path@),
                char_views(cabs@) == components(abs@),
                whitelisted == exists|k: int| 0 <= k < j && lies_within(abs@, #[trigger] strs(self.whitelist@)[k]),
            decreases self.whitelist.len() - j,
        {
            let root = chars_of(self.whitelist[j].as_str());
            let croot = components_of(&root);
            if components_within(&croot, &cabs) {
                assert(strs(self.whitelist@)[j as int] == root@);
                whitelisted = true;
            }
            proof {
                if !whitelisted {
                    assert forall|k: int| 0 <= k < j + 1 implies !lies_within(abs@, #[trigger] strs(self.whitelist@)[k]) by {
                        if k == j {
                            assert(strs(self.whitelist@)[k] == root@);
                        }
                    }
                } else {
                    let w = choose|k: int| 0 <= k < j + 1 && (k < j ==> lies_within(abs@, strs(self.whitelist@)[k])) && (k == j ==> lies_within(abs@, root@));
                    assert(strs(self.whitelist@)[j as int] == root@);
                    assert(lies_within(abs@, strs(self.whitelist@)[w]));
                }
            }
            j = j + 1;
        }
        let cws = components_of(&ws);
        let in_workspace = components_within(&cws, &cabs);
        if !whitelisted && !in_workspace {
            return Err(PathError::NotWhitelisted { path: string_of(&abs) });
        }
        Ok(())
    }
}


/// The name of the configuration file in the workspace.
pub open spec fn config_file_name() -> Seq<char> {
    "config.toml"@
}

/// The roots that `list_files` walks: the workspace, then the whitelisted
/// directories, each directory once (directories with the same components
/// are the same directory).
pub open spec fn distinct_roots(roots: Seq<Seq<char>>) -> Seq<Seq<char>>
    decreases roots.len(),
{
    if roots.len() == 0 {
        seq![]
    } else {
        let r = distinct_roots(roots.drop_last());
        if exists|k: int| 0 <= k < r.len() && components(#[trigger] r[k]) == components(roots.last()) {
            r
        } else {
            r.push(roots.last())
        }
    }
}

/// The files of `found`, in order, that the server lets its tools touch.
pub open spec fn allowed_files(s: ServerView, found: Seq<Seq<char>>) -> Seq<Seq<char>>
    decreases found.len(),
{
    if found.len() == 0 {
        seq![]
    } else {
        let r = allowed_files(s, found.drop_last());
        if check_path(s, found.last()) is Allowed {
            r.push(found.last())
        } else {
            r
        }
    }
}

impl Server {
    /// `rel` resolved against the workspace (an absolute `rel` stands as it is).
    pub fn resolve(&self, rel: &str) -> (r: String)
        ensures
            r@ == join(self@.workspace, rel@),
    {
        let ws = chars_of(self.workspace.as_str());
        let p = chars_of(rel);
        let j = join_chars(&ws, &p);
        string_of(&j)
    }

    /// `rel` resolved against the workspace, provided the server lets its
    /// tools touch the resolved path; otherwise why not.
    pub fn checked_path(&self, rel: &str) -> (r: Result<String, PathError>)
        ensures
            match r {
                Ok(p) => p@ == join(self@.workspace, rel@) && check_path(self@, p@) is Allowed,
                Err(e) => check_of(Err(e)) == check_path(self@, join(self@.workspace, rel@)),
            },
    {
        let p = self.resolve(rel);
        match self.validate_path(p.as_str()) {
            Ok(()) => Ok(p),
            Err(e) => Err(e),
        }
    }

    /// The path of `config.toml` in the workspace.
    pub fn config_path(&self) -> (r: String)
        ensures
            r@ == join(self@.workspace, config_file_name()),
    {
        self.resolve("config.toml")
    }

    /// The directories that listing walks: the workspace, then the whitelisted
    /// directories, each directory once.
    pub fn listing_roots(&self) -> (r: Vec<String>)
        ensures
            strs(r@) == distinct_roots(seq![self@.workspace] + self@.whitelist),
    {
        let ghost all = seq![self@.workspace] + self@.whitelist;
        let mut r: Vec<String> = Vec::new();
        let mut seen: Vec<Vec<Vec<char>>> = Vec::new();
        let wc = chars_of(self.workspace.as_str());
        let wcomps = components_of(&wc);
        r.push(self.workspace.clone());
        seen.push(wcomps);
        proof {
            let one = all.subrange(0, 1);
            assert(one.drop_last() =~= Seq::<Seq<char>>::empty());
            assert(distinct_roots(Seq::<Seq<char>>::empty()) == Seq::<Seq<char>>::empty());
            assert(strs(r@) =~= distinct_roots(one));
        }
        let n = self.whitelist.len();
        let mut j: usize = 0;
        while j < n
            invariant
                n == self.whitelist@.len(),
                all.len() == n + 1,
                all == seq![self@.workspace] + self@.whitelist,
                j <= n,
                strs(r@) == distinct_roots(all.subrange(0, j + 1)),
                seen@.len() == r@.len(),
                forall|k: int| 0 <= k < seen@.len() ==> char_views(#[trigger] seen@[k]@) == components(r@[k]@),
            decreases n - j,
        {
            let i = j + 1;
            let cand: &String = &self.whitelist[j];
            assert(cand@ == all[i as int]);
            let cc = chars_of(cand.as_str());
            let comps = components_of(&cc);
            let ghost prev = strs(r@);
            proof {
                assert(all.subrange(0, i + 1).drop_last() =~= all.subrange(0, i as int));
                assert(all.subrange(0, i + 1).last() == all[i as int]);
            }
            let mut dup = false;
            let mut k: usize = 0;
            while k < seen.len()
                invariant
                    k <= seen@.len(),
                    seen@.len() == r@.len(),
                    prev == strs(r@),
                    forall|m: int| 0 <= m < seen@.len() ==> char_views(#[trigger] seen@[m]@) == components(r@[m]@),
                    char_views(comps@) == components(cand@),
                    dup == exists|m: int| 0 <= m < k && components(#[trigger] prev[m]) == components(cand@),
                decreases seen.len() - k,
            {
                let same = crate::path::components_prefix(&seen[k], &comps) && seen[k].len() == comps.len();
                proof {
                    assert(prev[k as int] == r@[k as int]@);
                    let a = char_views(seen@[k as int]@);
                    let b = char_views(comps@);
                    if same {
                        assert(b.subrange(0, a.len() as int) == a);
                        assert(b =~= b.subrange(0, a.len() as int));
                    } else if a == b {
                        assert(b.subrange(0, a.len() as int) =~= a);
                    }
                    assert(same == (components(prev[k as int]) == components(cand@)));
                }
                if same {
                    dup = true;
                }
                k = k + 1;
            }
            if !dup {
                let owned = cand.clone();
                r.push(owned);
                seen.push(comps);
                proof {
                    assert(strs(r@) =~= prev.push(all[i as int]));
                }
            }
            j = j + 1;
        }
        assert(all.subrange(0, n + 1) =~= all);
        r
    }

    /// The files of `found`, in order, that the server lets its tools touch.
    pub fn listable_files(&self, found: Vec<String>) -> (r: Vec<String>)
        ensures
            strs(r@) == allowed_files(self@, strs(found@)),
    {
        let mut r: Vec<String> = Vec::new();
        let mut i: usize = 0;
        assert(strs(found@).subrange(0, 0) =~= Seq::<Seq<char>>::empty());
        while i < found.len()
            invariant
                i <= found@.len(),
                strs(r@) == allowed_files(self@, strs(found@).subrange(0, i as int)),
            decreases found.len() - i,
        {
            proof {
                assert(strs(found@).subrange(0, i + 1).drop_last() =~= strs(found@).subrange(0, i as int));
                assert(strs(found@).subrange(0, i + 1).last() == found@[i as int]@);
            }
            let ok = self.validate_path(found[i].as_str()).is_ok();
            if ok {
                let ghost before = strs(r@);
                let f = found[i].clone();
                r.push(f);
                assert(strs(r@) =~= before.push(found@[i as int]@));
            }
            i = i + 1;
        }
        assert(strs(found@).subrange(0, found@.len() as int) =~= strs(found@));
        r
    }
}

/// Relative paths that name no parent directory resolve within the
/// workspace: they are never refused as lying outside.
pub proof fn lemma_relative_paths_stay_in_workspace(s: ServerView, p: Seq<char>)
    requires
        !is_absolute(p),
        forall|i: int| 0 <= i < components(p).len() ==> #[trigger] components(p)[i] != seq!['.', '.'],
    ensures
        lies_within(join(s.workspace, p), s.workspace),
        !(check_path(s, p) is NotWhitelisted),
{
    lemma_join_relative_within(s.workspace, p);
}

/// A path is allowed exactly when its resolved file name holds no
/// blacklisted substring and the resolved path lies within a whitelisted
/// directory or the workspace.
pub proof fn lemma_access_policy(s: ServerView, p: Seq<char>)
    ensures
        check_path(s, p) is Allowed <==> ({
            let abs = join(s.workspace, p);
            &&& (file_name(abs) matches Some(n) ==> !is_blacklisted(s.blacklist, n))
            &&& (is_whitelisted(s.whitelist, abs) || lies_within(abs, s.workspace))
        }),
{
}

/// An allowed path stays under an allowed directory once `..` is resolved:
/// the resolved components of the path start with the resolved components
/// of the workspace or of a whitelisted directory, and the rest holds no `..`.
pub proof fn lemma_allowed_paths_resolve_within(s: ServerView, p: Seq<char>)
    requires
        check_path(s, p) is Allowed,
    ensures
        exists|root: Seq<char>|
            #![trigger is_prefix_resolved(root, join(s.workspace, p))]
            (root == s.workspace || s.whitelist.contains(root)) && {
                let abs = join(s.workspace, p);
                &&& is_prefix_resolved(root, abs)
                &&& forall|i: int|
                    components(root).len() <= i < components(abs).len() ==> #[trigger] components(abs)[i]
                        != seq!['.', '.']
            },
{
    let abs = join(s.workspace, p);
    if lies_within(abs, s.workspace) {
        lemma_within_resolves_under(abs, s.workspace);
        assert(is_prefix_resolved(s.workspace, abs));
        assert(forall|i: int|
            components(s.workspace).len() <= i < components(abs).len() ==> #[trigger] components(abs)[i]
                != seq!['.', '.']);
    } else {
        let i = choose|i: int| 0 <= i < s.whitelist.len() && lies_within(abs, #[trigger] s.whitelist[i]);
        let root = s.whitelist[i];
        lemma_within_resolves_under(abs, root);
        assert(s.whitelist[i] == root);
        assert(s.whitelist.contains(root));
        assert(is_prefix_resolved(root, abs));
        assert(forall|i: int|
            components(root).len() <= i < components(abs).len() ==> #[trigger] components(abs)[i]
                != seq!['.', '.']);
    }
}

/// Whether the resolved components of `root` are a prefix of the resolved
/// components of `p`.
pub open spec fn is_prefix_resolved(root: Seq<char>, p: Seq<char>) -> bool {
    crate::path::is_prefix(resolved(components(root)), resolved(components(p)))
}

/// A blacklisted substring blocks every file whose name holds it, wherever
/// the file lies; in particular the server's own binary.
pub proof fn lemma_blacklist_blocks_everywhere(s: ServerView, p: Seq<char>, b: Seq<char>)
    requires
        s.blacklist.contains(b),
        file_name(join(s.workspace, p)) is Some,
        contains(file_name(join(s.workspace, p))->0, b),
    ensures
        check_path(s, p) is Blacklisted,
{
}

/// Listing shows exactly the allowed files among those found: every listed
/// file was found and is allowed, and every allowed file found is listed.
pub proof fn lemma_listing_shows_allowed_files(s: ServerView, found: Seq<Seq<char>>)
    ensures
        forall|f: Seq<char>| #[trigger] allowed_files(s, found).contains(f) <==> found.contains(f) && check_path(
            s,
            f,
        ) is Allowed,
    decreases found.len(),
{
    if found.len() > 0 {
        let rest = found.drop_last();
        lemma_listing_shows_allowed_files(s, rest);
        assert forall|f: Seq<char>| #[trigger] found.contains(f) <==> rest.contains(f) || f == found.last() by {
            if found.contains(f) {
                let k = choose|k: int| 0 <= k < found.len() && found[k] == f;
                if k < found.len() - 1 {
                    assert(rest[k] == f);
                }
            }
            if rest.contains(f) {
                let k = choose|k: int| 0 <= k < rest.len() && rest[k] == f;
                assert(found[k] == f);
            }
            if f == found.last() {
                assert(found[found.len() - 1] == f);
            }
        }
        let r = allowed_files(s, rest);
        if check_path(s, found.last()) is Allowed {
            assert forall|f: Seq<char>| #[trigger] r.push(found.last()).contains(f) <==> r.contains(f) || f
                == found.last() by {
                if r.push(found.last()).contains(f) {
                    let k = choose|k: int| 0 <= k < r.len() + 1 && r.push(found.last())[k] == f;
                    if k < r.len() {
                        assert(r[k] == f);
                    }
                }
                if r.contains(f) {
                    let k = choose|k: int| 0 <= k < r.len() && r[k] == f;
                    assert(r.push(found.last())[k] == f);
                }
                if f == found.last() {
                    assert(r.push(found.last())[r.len() as int] == f);
                }
            }
        }
    }
}

proof fn lemma_distinct_roots_step(roots: Seq<Seq<char>>)
    requires
        roots.len() > 0,
    ensures
        ({
            let r = distinct_roots(roots.drop_last());
            let x = roots.last();
            let dup = exists|k: int| 0 <= k < r.len() && components(#[trigger] r[k]) == components(x);
            distinct_roots(roots) == if dup { r } else { r.push(x) }
        }),
{
}

/// Every root given has a walked root with the same components.
proof fn lemma_distinct_roots_cover_all(roots: Seq<Seq<char>>)
    ensures
        forall|i: int| #![trigger roots[i]] 0 <= i < roots.len() ==> exists|k: int|
            0 <= k < distinct_roots(roots).len() && components(#[trigger] distinct_roots(roots)[k]) == components(roots[i]),
    decreases roots.len(),
{
    if roots.len() > 0 {
        let rest = roots.drop_last();
        let x = roots.last();
        lemma_distinct_roots_cover_all(rest);
        lemma_distinct_roots_step(roots);
        let r = distinct_roots(rest);
        let d = distinct_roots(roots);
        assert forall|i: int| #![trigger roots[i]] 0 <= i < roots.len() implies exists|k: int|
            0 <= k < d.len() && components(#[trigger] d[k]) == components(roots[i]) by {
            if i < rest.len() {
                assert(roots[i] == rest[i]);
                let k = choose|k: int| 0 <= k < r.len() && components(#[trigger] r[k]) == components(rest[i]);
                assert(d[k] == r[k]);
            } else if exists|k: int| 0 <= k < r.len() && components(#[trigger] r[k]) == components(x) {
                let k = choose|k: int| 0 <= k < r.len() && components(#[trigger] r[k]) == components(x);
                assert(d[k] == r[k]);
            } else {
                assert(d[r.len() as int] == x);
            }
        }
    }
}

/// Every walked root is one of the roots given.
proof fn lemma_distinct_roots_from_given(roots: Seq<Seq<char>>)
    ensures
        forall|k: int| #![trigger distinct_roots(roots)[k]] 0 <= k < distinct_roots(roots).len() ==> exists|i: int|
            0 <= i < roots.len() && distinct_roots(roots)[k] == #[trigger] roots[i],
    decreases roots.len(),
{
    if roots.len() > 0 {
        let rest = roots.drop_last();
        lemma_distinct_roots_from_given(rest);
        lemma_distinct_roots_step(roots);
        let r = distinct_roots(rest);
        let d = distinct_roots(roots);
        assert forall|k: int| #![trigger d[k]] 0 <= k < d.len() implies exists|i: int|
            0 <= i < roots.len() && d[k] == #[trigger] roots[i] by {
            if k < r.len() {
                assert(d[k] == r[k]);
                let i = choose|i: int| 0 <= i < rest.len() && r[k] == #[trigger] rest[i];
                assert(roots[i] == rest[i]);
            } else {
                assert(d[k] == roots[roots.len() - 1]);
            }
        }
    }
}

/// No two walked roots are the same directory.
proof fn lemma_distinct_roots_distinct(roots: Seq<Seq<char>>)
    ensures
        forall|k1: int, k2: int|
            0 <= k1 < k2 < distinct_roots(roots).len() ==> components(#[trigger] distinct_roots(roots)[k1])
                != components(#[trigger] distinct_roots(roots)[k2]),
    decreases roots.len(),
{
    if roots.len() > 0 {
        let rest = roots.drop_last();
        let x = roots.last();
        lemma_distinct_roots_distinct(rest);
        lemma_distinct_roots_step(roots);
        let r = distinct_roots(rest);
        let d = distinct_roots(roots);
        assert forall|k1: int, k2: int|
            0 <= k1 < k2 < d.len() implies components(#[trigger] d[k1]) != components(#[trigger] d[k2]) by {
            if k2 < r.len() {
                assert(d[k1] == r[k1] && d[k2] == r[k2]);
            } else {
                assert(d[k2] == x);
                assert(d[k1] == r[k1]);
                assert(!(exists|k: int| 0 <= k < r.len() && components(#[trigger] r[k]) == components(x)));
            }
        }
    }
}

/// The first root given is walked first.
proof fn lemma_distinct_roots_first(roots: Seq<Seq<char>>)
    requires
        roots.len() > 0,
    ensures
        distinct_roots(roots).len() > 0,
        distinct_roots(roots)[0] == roots[0],
    decreases roots.len(),
{
    lemma_distinct_roots_step(roots);
    let rest = roots.drop_last();
    if rest.len() > 0 {
        lemma_distinct_roots_first(rest);
        assert(roots[0] == rest[0]);
    }
}

/// Listing walks the workspace first, then every whitelisted directory
/// that is not the same directory as one walked before; no given root is
/// left out and none is walked twice.
pub proof fn lemma_listing_walks_every_root(s: ServerView)
    ensures
        ({
            let given = seq![s.workspace] + s.whitelist;
            let d = distinct_roots(given);
            &&& d.len() > 0 && d[0] == s.workspace
            &&& forall|i: int| #![trigger s.whitelist[i]] 0 <= i < s.whitelist.len() ==> exists|k: int|
                0 <= k < d.len() && components(#[trigger] d[k]) == components(s.whitelist[i])
            &&& forall|k: int| #![trigger d[k]] 0 <= k < d.len() ==> d[k] == s.workspace || s.whitelist.contains(d[k])
            &&& forall|k1: int, k2: int|
                0 <= k1 < k2 < d.len() ==> components(#[trigger] d[k1]) != components(#[trigger] d[k2])
        }),
{
    let given = seq![s.workspace] + s.whitelist;
    let d = distinct_roots(given);
    lemma_distinct_roots_cover_all(given);
    lemma_distinct_roots_from_given(given);
    lemma_distinct_roots_distinct(given);
    lemma_distinct_roots_first(given);
    assert(given[0] == s.workspace);
    assert forall|i: int| #![trigger s.whitelist[i]] 0 <= i < s.whitelist.len() implies exists|k: int|
        0 <= k < d.len() && components(#[trigger] d[k]) == components(s.whitelist[i]) by {
        assert(given[i + 1] == s.whitelist[i]);
    }
    assert forall|k: int| #![trigger d[k]] 0 <= k < d.len() implies d[k] == s.workspace || s.whitelist.contains(d[k]) by {
        let i = choose|i: int| 0 <= i < given.len() && d[k] == #[trigger] given[i];
        if i > 0 {
            assert(given[i] == s.whitelist[i - 1]);
        }
    }
}

} // verus!
