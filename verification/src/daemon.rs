//! What the daemon decides while it runs: which roots it follows, and when it refreshes.
use crate::allowlist::{self, Allowlist, Dropped, Preload, SyncPlan};
use crate::hook::EPERM;
use crate::path;
use crate::store::{self, StoreSet};
use crate::text;
use vstd::prelude::*;
use vstd::string::*;
use vstd::utf8::*;

verus! {

/// "Permission denied".
pub const EACCES: i32 = 13;

/// Where the running system, the booted one and the next one are found.
pub const DEFAULT_ROOTS: [&'static str; 3] = [
    "/run/current-system",
    "/run/booted-system",
    "/nix/var/nix/profiles/system",
];

/// What is said when something failed for want of privileges.
pub const PRIVILEGE_HINT: &'static str =
    "insufficient privileges for loading the eBPF program (try sudo)";

/// Whether an error is due to missing privileges. `causes` holds the error numbers of the I/O
/// errors among its causes, where they have one.
pub fn lacks_privilege(causes: &[Option<i32>]) -> (r: bool)
    ensures
        r == exists|i: int|
            0 <= i < causes@.len() && (#[trigger] causes@[i] == Some(EPERM) || causes@[i] == Some(
                EACCES,
            )),
{
    let mut i: usize = 0;
    while i < causes.len()
        invariant
            i <= causes@.len(),
            forall|j: int|
                0 <= j < i ==> #[trigger] causes@[j] != Some(EPERM) && causes@[j] != Some(EACCES),
        decreases causes.len() - i,
    {
        if let Some(code) = causes[i] {
            if code == EPERM || code == EACCES {
                assert(causes@[i as int] == Some(code));
                return true;
            }
        }
        i = i + 1;
    }
    false
}

/// The members of `roots` that are there.
pub open spec fn present_ones(roots: Seq<Seq<u8>>, present: Seq<bool>) -> Seq<Seq<u8>>
    decreases roots.len(),
{
    if roots.len() == 0 {
        Seq::empty()
    } else if present[roots.len() - 1] {
        present_ones(roots.drop_last(), present).push(roots.last())
    } else {
        present_ones(roots.drop_last(), present)
    }
}

/// The default roots as paths.
pub open spec fn default_roots() -> Seq<Seq<u8>> {
    DEFAULT_ROOTS@.map_values(|s: &'static str| encode_utf8(s@))
}

/// The roots whose closure is allowed: those that were asked for, or else the default ones that
/// are there. `present` says of each default root whether it is.
pub fn closure_roots(args_roots: &Vec<Vec<u8>>, present: [bool; 3]) -> (r: Vec<Vec<u8>>)
    ensures
        path::contents(r@) == if args_roots@.len() > 0 {
            path::contents(args_roots@)
        } else {
            present_ones(default_roots(), present@)
        },
{
    let mut r: Vec<Vec<u8>> = Vec::new();
    let mut i: usize = 0;
    if args_roots.len() > 0 {
        while i < args_roots.len()
            invariant
                i <= args_roots@.len(),
                path::contents(r@) =~= path::contents(args_roots@.take(i as int)),
            decreases args_roots.len() - i,
        {
            let root = path::copy_range(args_roots[i].as_slice(), 0, args_roots[i].len());
            assert(root@ =~= args_roots@[i as int]@);
            let ghost before = path::contents(r@);
            r.push(root);
            assert(path::contents(r@) =~= before.push(root@));
            assert(path::contents(args_roots@.take(i + 1)) =~= path::contents(
                args_roots@.take(i as int),
            ).push(root@));
            i = i + 1;
        }
        assert(args_roots@.take(i as int) =~= args_roots@);
        return r;
    }
    let roots = DEFAULT_ROOTS;
    assert(path::contents(r@) =~= present_ones(default_roots().take(0), present@));
    while i < 3
        invariant
            i <= 3,
            roots == DEFAULT_ROOTS,
            path::contents(r@) == present_ones(default_roots().take(i as int), present@),
        decreases 3 - i,
    {
        let ghost before = path::contents(r@);
        assert(default_roots().take(i + 1).drop_last() =~= default_roots().take(i as int));
        if present[i] {
            let root = roots[i].as_bytes_vec();
            r.push(root);
            assert(path::contents(r@) =~= before.push(default_roots()[i as int]));
        }
        i = i + 1;
    }
    assert(default_roots().take(i as int) =~= default_roots());
    r
}

/// What a root points at: where it leads, or itself if that cannot be told.
pub open spec fn target(root: Seq<u8>, canonical: Option<Vec<u8>>) -> Seq<u8> {
    match canonical {
        Some(path) => path@,
        None => root,
    }
}

/// Whether one of the roots points at `path`.
pub open spec fn points_at(
    roots: Seq<Vec<u8>>,
    canonical: Seq<Option<Vec<u8>>>,
    path: Seq<u8>,
) -> bool {
    exists|k: int| 0 <= k < roots.len() && path == target((#[trigger] roots[k])@, canonical[k])
}

/// Whether `path` is in a list, by its components.
pub open spec fn lists(list: Seq<Vec<u8>>, path: Seq<u8>) -> bool {
    exists|i: int|
        0 <= i < list.len() && path::components((#[trigger] list[i])@) == path::components(path)
}

fn is_listed(list: &Vec<Vec<u8>>, path: &[u8]) -> (r: bool)
    ensures
        r == lists(list@, path@),
{
    let mut i: usize = 0;
    while i < list.len()
        invariant
            i <= list@.len(),
            forall|j: int|
                0 <= j < i ==> path::components((#[trigger] list@[j])@) != path::components(path@),
        decreases list.len() - i,
    {
        if path::same_path(list[i].as_slice(), path) {
            assert(path::components(list@[i as int]@) == path::components(path@));
            return true;
        }
        i = i + 1;
    }
    false
}

/// What the roots point at, each path once. `canonical` says of each root where it leads.
pub fn unique_targets(roots: &Vec<Vec<u8>>, canonical: &Vec<Option<Vec<u8>>>) -> (r: Vec<Vec<u8>>)
    requires
        roots@.len() == canonical@.len(),
    ensures
        forall|i: int| 0 <= i < r@.len() ==> points_at(roots@, canonical@, (#[trigger] r@[i])@),
        forall|k: int|
            0 <= k < roots@.len() ==> lists(r@, target((#[trigger] roots@[k])@, canonical@[k])),
        forall|i: int, j: int|
            0 <= i < j < r@.len() ==> path::components((#[trigger] r@[i])@) != path::components(
                (#[trigger] r@[j])@,
            ),
{
    let mut r: Vec<Vec<u8>> = Vec::new();
    let mut k: usize = 0;
    while k < roots.len()
        invariant
            k <= roots@.len(),
            roots@.len() == canonical@.len(),
            forall|i: int| 0 <= i < r@.len() ==> points_at(roots@, canonical@, (#[trigger] r@[i])@),
            forall|m: int|
                0 <= m < k ==> lists(r@, target((#[trigger] roots@[m])@, canonical@[m])),
            forall|i: int, j: int|
                0 <= i < j < r@.len() ==> path::components((#[trigger] r@[i])@)
                    != path::components((#[trigger] r@[j])@),
        decreases roots.len() - k,
    {
        let here: Vec<u8> = match &canonical[k] {
            Some(path) => path::copy_range(path.as_slice(), 0, path.len()),
            None => path::copy_range(roots[k].as_slice(), 0, roots[k].len()),
        };
        let ghost there = target(roots@[k as int]@, canonical@[k as int]);
        assert(here@ =~= there);
        let ghost before = r@;
        if !is_listed(&r, here.as_slice()) {
            r.push(here);
            proof {
                assert(points_at(roots@, canonical@, there));
                assert(r@[before.len() as int]@ == there);
                assert forall|i: int| 0 <= i < r@.len() implies points_at(
                    roots@,
                    canonical@,
                    (#[trigger] r@[i])@,
                ) by {
                    if i < before.len() {
                        assert(r@[i] == before[i]);
                    }
                }
                assert forall|m: int| 0 <= m < k implies lists(
                    r@,
                    target((#[trigger] roots@[m])@, canonical@[m]),
                ) by {
                    let path = target(roots@[m]@, canonical@[m]);
                    let i = choose|i: int|
                        0 <= i < before.len() && path::components((#[trigger] before[i])@)
                            == path::components(path);
                    assert(r@[i] == before[i]);
                }
                assert forall|i: int, j: int| 0 <= i < j < r@.len() implies path::components(
                    (#[trigger] r@[i])@,
                ) != path::components((#[trigger] r@[j])@) by {
                    assert(r@[i] == before[i]);
                    if j < before.len() {
                        assert(r@[j] == before[j]);
                    }
                }
            }
        }
        assert(lists(r@, there));
        k = k + 1;
    }
    r
}

/// Whether `dir` is the directory that one of the roots stands in.
pub open spec fn holds_root(roots: Seq<Vec<u8>>, dir: Seq<u8>) -> bool {
    exists|k: int| 0 <= k < roots.len() && path::is_parent(dir, (#[trigger] roots[k])@)
}

/// The directories that the roots stand in, each once: where it shows that a root changes.
pub fn watched_dirs(roots: &Vec<Vec<u8>>) -> (r: Vec<Vec<u8>>)
    ensures
        forall|i: int| 0 <= i < r@.len() ==> holds_root(roots@, (#[trigger] r@[i])@),
        forall|k: int, dir: Seq<u8>|
            0 <= k < roots@.len() && #[trigger] path::is_parent(dir, roots@[k]@) ==> lists(r@, dir),
        forall|i: int, j: int|
            0 <= i < j < r@.len() ==> path::components((#[trigger] r@[i])@) != path::components(
                (#[trigger] r@[j])@,
            ),
{
    let mut r: Vec<Vec<u8>> = Vec::new();
    let mut k: usize = 0;
    while k < roots.len()
        invariant
            k <= roots@.len(),
            forall|i: int| 0 <= i < r@.len() ==> holds_root(roots@, (#[trigger] r@[i])@),
            forall|m: int, dir: Seq<u8>|
                0 <= m < k && #[trigger] path::is_parent(dir, roots@[m]@) ==> lists(r@, dir),
            forall|i: int, j: int|
                0 <= i < j < r@.len() ==> path::components((#[trigger] r@[i])@)
                    != path::components((#[trigger] r@[j])@),
        decreases roots.len() - k,
    {
        let ghost before = r@;
        if let Some(dir) = path::parent(roots[k].as_slice()) {
            let ghost here = dir@;
            assert(holds_root(roots@, here)) by {
                assert(path::is_parent(here, roots@[k as int]@));
            }
            if !is_listed(&r, dir.as_slice()) {
                r.push(dir);
                assert(r@[before.len() as int]@ == here);
            }
            assert(lists(r@, here));
        }
        proof {
            assert forall|i: int| 0 <= i < r@.len() implies holds_root(
                roots@,
                (#[trigger] r@[i])@,
            ) by {
                if i < before.len() {
                    assert(r@[i] == before[i]);
                }
            }
            assert forall|m: int, dir: Seq<u8>|
                0 <= m < k + 1 && #[trigger] path::is_parent(dir, roots@[m]@) implies lists(
                r@,
                dir,
            ) by {
                if m < k {
                    let i = choose|i: int|
                        0 <= i < before.len() && path::components((#[trigger] before[i])@)
                            == path::components(dir);
                    assert(r@[i] == before[i]);
                }
            }
            assert forall|i: int, j: int| 0 <= i < j < r@.len() implies path::components(
                (#[trigger] r@[i])@,
            ) != path::components((#[trigger] r@[j])@) by {
                assert(r@[i] == before[i]);
                if j < before.len() {
                    assert(r@[j] == before[j]);
                }
            }
        }
        k = k + 1;
    }
    r
}

/// What is said when the requisites of a root could not be listed.
pub open spec fn listing_failure(root: Seq<char>, stderr: Seq<char>) -> Seq<char> {
    "nix-store --query --requisites "@ + root + " failed: "@ + text::trimmed(stderr)
}

/// Says that the requisites of a root could not be listed.
pub fn listing_failure_line(root: &str, stderr: &str) -> (line: String)
    ensures
        line@ == listing_failure(root@, stderr@),
{
    let mut line = "nix-store --query --requisites ".to_owned();
    line.append(root);
    line.append(" failed: ");
    line.append(text::trim(stderr));
    line
}

/// Adds the requisites of a root to a closure. `stdout` and `stderr` are what listing them has
/// written, and `success` says whether it succeeded.
pub fn add_requisites(
    closure: &mut StoreSet,
    root: &[u8],
    success: bool,
    stdout: &[u8],
    stderr: &[u8],
) -> (r: Result<(), String>)
    requires
        old(closure).wf(),
    ensures
        final(closure).wf(),
        match r {
            Ok(()) => {
                &&& success
                &&& final(closure)@ == old(closure)@.union(
                    store::listed_hashes(text::lines(text::utf8_lossy(stdout@))),
                )
                &&& text::is_decoded(stdout@)
            },
            Err(e) => {
                &&& !success
                &&& text::is_decoded(root@)
                &&& text::is_decoded(stderr@)
                &&& *final(closure) == *old(closure)
                &&& e@ == listing_failure(text::utf8_lossy(root@), text::utf8_lossy(stderr@))
            },
        },
{
    if !success {
        return Err(
            listing_failure_line(
                text::from_utf8_lossy(root).as_str(),
                text::from_utf8_lossy(stderr).as_str(),
            ),
        );
    }
    store::add_listing(closure, text::from_utf8_lossy(stdout).as_str());
    Ok(())
}

/// What listing the requisites of a root has brought.
pub struct Listing {
    pub root: Vec<u8>,
    pub success: bool,
    pub stdout: Vec<u8>,
    pub stderr: Vec<u8>,
}

impl Listing {
    /// The hashes that are listed.
    pub open spec fn hashes(self) -> Set<Seq<u8>> {
        store::listed_hashes(text::lines(text::utf8_lossy(self.stdout@)))
    }

    /// What is said when the listing failed.
    pub open spec fn failure(self) -> Seq<char> {
        listing_failure(text::utf8_lossy(self.root@), text::utf8_lossy(self.stderr@))
    }
}

/// The closure of roots whose requisites were listed, or the failure of the first that could not
/// be.
pub open spec fn gathered(listings: Seq<Listing>) -> Result<Set<Seq<u8>>, Seq<char>>
    decreases listings.len(),
{
    if listings.len() == 0 {
        Ok(Set::empty())
    } else {
        match gathered(listings.drop_last()) {
            Err(e) => Err(e),
            Ok(closure) => if listings.last().success {
                Ok(closure.union(listings.last().hashes()))
            } else {
                Err(listings.last().failure())
            },
        }
    }
}

/// Gathers the closure of roots from the listings of their requisites. Listings behind one that
/// failed do not matter.
pub fn gather_closure(listings: &Vec<Listing>) -> (r: Result<StoreSet, String>)
    ensures
        match r {
            Ok(closure) => {
                &&& closure.wf()
                &&& gathered(listings@) == Ok::<Set<Seq<u8>>, Seq<char>>(closure@)
                &&& forall|i: int|
                    0 <= i < listings@.len() ==> text::is_decoded(
                        (#[trigger] listings@[i]).stdout@,
                    )
            },
            Err(e) => {
                &&& gathered(listings@) == Err::<Set<Seq<u8>>, Seq<char>>(e@)
                &&& exists|i: int|
                    0 <= i < listings@.len() && !(#[trigger] listings@[i]).success && e@
                        == listings@[i].failure() && text::is_decoded(listings@[i].root@)
                        && text::is_decoded(listings@[i].stderr@)
            },
        },
{
    let mut closure = StoreSet::new();
    let mut i: usize = 0;
    while i < listings.len()
        invariant
            i <= listings@.len(),
            closure.wf(),
            gathered(listings@.take(i as int)) == Ok::<Set<Seq<u8>>, Seq<char>>(closure@),
            forall|j: int|
                0 <= j < i ==> text::is_decoded((#[trigger] listings@[j]).stdout@),
        decreases listings.len() - i,
    {
        let listing = &listings[i];
        assert(listings@.take(i + 1).drop_last() =~= listings@.take(i as int));
        if let Err(e) = add_requisites(
            &mut closure,
            listing.root.as_slice(),
            listing.success,
            listing.stdout.as_slice(),
            listing.stderr.as_slice(),
        ) {
            proof {
                lemma_gathered_failure(listings@, i + 1);
                assert(e@ == listings@[i as int].failure());
            }
            return Err(e);
        }
        i = i + 1;
    }
    assert(listings@.take(i as int) =~= listings@);
    Ok(closure)
}

/// Once a listing has failed, those behind it do not matter.
proof fn lemma_gathered_failure(listings: Seq<Listing>, n: int)
    requires
        0 <= n <= listings.len(),
        gathered(listings.take(n)) is Err,
    ensures
        gathered(listings) == gathered(listings.take(n)),
    decreases listings.len(),
{
    if n < listings.len() {
        assert(listings.drop_last().take(n) =~= listings.take(n));
        lemma_gathered_failure(listings.drop_last(), n);
    } else {
        assert(listings.take(n) =~= listings);
    }
}

/// The closure is what the roots require, and nothing else: a hash is in it if and only if some
/// root lists it. So the order of the roots does not matter. It is gathered if and only if every
/// listing succeeded.
pub proof fn law_gathered(listings: Seq<Listing>)
    ensures
        gathered(listings) is Ok <==> forall|i: int|
            0 <= i < listings.len() ==> (#[trigger] listings[i]).success,
        gathered(listings) matches Ok(closure) ==> forall|hash: Seq<u8>|
            closure.contains(hash) <==> exists|i: int|
                0 <= i < listings.len() && (#[trigger] listings[i]).hashes().contains(hash),
    decreases listings.len(),
{
    if listings.len() > 0 {
        let front = listings.drop_last();
        law_gathered(front);
        if gathered(listings) is Ok {
            assert forall|i: int| 0 <= i < listings.len() implies (#[trigger] listings[i]).success by {
                if i < front.len() {
                    assert(front[i] == listings[i]);
                }
            }
        }
        if forall|i: int| 0 <= i < listings.len() ==> (#[trigger] listings[i]).success {
            assert forall|i: int| 0 <= i < front.len() implies (#[trigger] front[i]).success by {
                assert(front[i] == listings[i]);
            }
            assert(listings[listings.len() - 1].success);
        }
        if let Ok(closure) = gathered(listings) {
            let before = gathered(front)->Ok_0;
            assert forall|hash: Seq<u8>| closure.contains(hash) <==> exists|i: int|
                0 <= i < listings.len() && (#[trigger] listings[i]).hashes().contains(hash) by {
                if before.contains(hash) {
                    let i = choose|i: int|
                        0 <= i < front.len() && (#[trigger] front[i]).hashes().contains(hash);
                    assert(listings[i] == front[i]);
                }
                if closure.contains(hash) && !before.contains(hash) {
                    assert(listings[listings.len() - 1].hashes().contains(hash));
                }
                if exists|i: int|
                    0 <= i < listings.len() && (#[trigger] listings[i]).hashes().contains(hash) {
                    let i = choose|i: int|
                        0 <= i < listings.len() && (#[trigger] listings[i]).hashes().contains(hash);
                    if i < front.len() {
                        assert(front[i] == listings[i]);
                        assert(before.contains(hash));
                    }
                }
            }
        }
    }
}

/// What the roots point at, by components.
pub open spec fn keys(targets: Seq<Option<Vec<u8>>>) -> Seq<Option<Seq<Seq<u8>>>> {
    targets.map_values(
        |t: Option<Vec<u8>>|
            match t {
                Some(path) => Some(path::components(path@)),
                None => None,
            },
    )
}

/// The daemon: what it allows, and what its roots pointed at when it last looked.
pub struct Daemon {
    pub allowlist: Allowlist,
    pub targets: Vec<Option<Vec<u8>>>,
}

/// What a refresh leads to. In each case come the preloads that were dropped, and what has to be
/// done to the kernel's map, if anything may have changed.
pub enum Refresh {
    /// The new closure could not be gathered, and this is why; it is tried again next time.
    Retry(String, Vec<Dropped>, Option<SyncPlan>),
    Done(Vec<Dropped>, Option<SyncPlan>),
}

impl Refresh {
    /// The preloads that were dropped.
    pub open spec fn dropped(self) -> Seq<Dropped> {
        match self {
            Refresh::Retry(_, dropped, _) => dropped@,
            Refresh::Done(dropped, _) => dropped@,
        }
    }

    /// What has to be done to the kernel's map.
    pub open spec fn plan(self) -> Option<SyncPlan> {
        match self {
            Refresh::Retry(_, _, plan) => plan,
            Refresh::Done(_, plan) => plan,
        }
    }
}

/// Whether a refresh leads from `before` to `after` and to `r`. A closure that was gathered takes
/// the place of the old one; preloads are dropped by the closure that is then in force, whether
/// or not a new one could be gathered.
pub open spec fn is_refresh(
    before: Daemon,
    targets: Vec<Option<Vec<u8>>>,
    gathered: Option<Result<StoreSet, String>>,
    now: u128,
    after: Daemon,
    r: Refresh,
) -> bool {
    let preloads = before.allowlist.preloads@;
    let closure = after.allowlist.closure@;
    &&& match gathered {
        Some(Ok(closure)) => after.allowlist.closure == closure && after.targets == targets
            && r is Done,
        Some(Err(e)) => after.allowlist.closure == before.allowlist.closure && after.targets
            == before.targets && r is Retry && r->Retry_0 == e,
        None => after.allowlist.closure == before.allowlist.closure && after.targets
            == before.targets && r is Done,
    }
    &&& after.allowlist.installed == before.allowlist.installed
    &&& after.allowlist.preloads@ == allowlist::kept(preloads, closure, now)
    &&& r.dropped().map_values(|d: Dropped| d@) == allowlist::dropped(preloads, closure, now)
    &&& r.plan() is Some <==> gathered matches Some(Ok(_)) || r.dropped().len() > 0
    &&& r.plan() matches Some(plan) ==> allowlist::leads(
        plan,
        after.allowlist.installed@,
        after.allowlist.wanted(),
    )
}

impl Daemon {
    /// Whether the roots point elsewhere than they did.
    pub fn targets_changed(&self, targets: &Vec<Option<Vec<u8>>>) -> (r: bool)
        ensures
            r == (keys(targets@) != keys(self.targets@)),
    {
        let ghost new = keys(targets@);
        let ghost known = keys(self.targets@);
        assert(new.len() == targets@.len() && known.len() == self.targets@.len());
        if targets.len() != self.targets.len() {
            return true;
        }
        let mut i: usize = 0;
        while i < targets.len()
            invariant
                i <= targets@.len(),
                targets@.len() == self.targets@.len(),
                new == keys(targets@),
                known == keys(self.targets@),
                forall|j: int| 0 <= j < i ==> new[j] == known[j],
            decreases targets.len() - i,
        {
            let same = match (&targets[i], &self.targets[i]) {
                (Some(a), Some(b)) => path::same_path(a.as_slice(), b.as_slice()),
                (None, None) => true,
                _ => false,
            };
            assert(same == (new[i as int] == known[i as int]));
            if !same {
                return true;
            }
            i = i + 1;
        }
        assert(new =~= known);
        false
    }

    /// Refreshes what is allowed. `targets` is what the roots point at now; if that has changed,
    /// `gathered` is the closure of the roots, or why it could not be gathered.
    pub fn refresh(
        &mut self,
        targets: Vec<Option<Vec<u8>>>,
        gathered: Option<Result<StoreSet, String>>,
        now: u128,
    ) -> (r: Refresh)
        requires
            old(self).allowlist.wf(),
            gathered is Some <==> keys(targets@) != keys(old(self).targets@),
            gathered matches Some(Ok(closure)) ==> closure.wf(),
        ensures
            final(self).allowlist.wf(),
            is_refresh(*old(self), targets, gathered, now, *final(self), r),
    {
        let mut changed = false;
        let mut failure: Option<String> = None;
        match gathered {
            Some(Ok(closure)) => {
                self.allowlist.closure = closure;
                self.targets = targets;
                changed = true;
            },
            Some(Err(e)) => {
                failure = Some(e);
            },
            None => {},
        }
        let dropped = self.allowlist.drop_covered_and_expired(now);
        let plan = if changed || dropped.len() > 0 {
            Some(self.allowlist.plan_sync())
        } else {
            None
        };
        match failure {
            Some(e) => Refresh::Retry(e, dropped, plan),
            None => Refresh::Done(dropped, plan),
        }
    }
}

/// An abandoned preload does not stay executable: no refresh, not even one that could not gather
/// a new closure, keeps a preload whose time has run out. A hash that only such preloads allowed
/// is out of the kernel's map once the plan is carried out and no removal failed. Where there is
/// no plan the hash was not in the map, if no removal had failed before.
pub proof fn law_abandoned_preload_is_gone(
    before: Daemon,
    targets: Vec<Option<Vec<u8>>>,
    gathered: Option<Result<StoreSet, String>>,
    now: u128,
    after: Daemon,
    r: Refresh,
    inserted: Seq<bool>,
    removed: Seq<bool>,
    hash: Seq<u8>,
)
    requires
        is_refresh(before, targets, gathered, now, after, r),
        r.plan() matches Some(plan) ==> inserted.len() == plan.insert@.len() && removed.len()
            == plan.remove@.len() && allowlist::all_succeeded(removed),
        r.plan() is None ==> before.allowlist.installed@.subset_of(before.allowlist.wanted()),
        !after.allowlist.closure@.contains(hash),
        forall|i: int|
            0 <= i < before.allowlist.preloads@.len() && (
            #[trigger] before.allowlist.preloads@[i]).hashes@.contains(hash)
                ==> before.allowlist.preloads@[i].expires <= now,
    ensures
        forall|i: int|
            0 <= i < after.allowlist.preloads@.len() ==> now < (
            #[trigger] after.allowlist.preloads@[i]).expires,
        !after.allowlist.wanted().contains(hash),
        r.plan() matches Some(plan) ==> !allowlist::map_after(
            before.allowlist.installed@,
            plan,
            inserted,
            removed,
        ).contains(hash),
        r.plan() is None ==> !before.allowlist.installed@.contains(hash),
{
    let preloads = before.allowlist.preloads@;
    let closure = after.allowlist.closure@;
    let rest = allowlist::kept(preloads, closure, now);
    let stays = |p: Preload| allowlist::fate(p, closure, now) is None;
    assert forall|i: int| 0 <= i < rest.len() implies now < (#[trigger] rest[i]).expires by {
        preloads.lemma_filter_pred(stays, i);
    }
    if allowlist::preloaded(rest, hash) {
        let k = choose|k: int| 0 <= k < rest.len() && #[trigger] rest[k].hashes@.contains(hash);
        assert(rest.contains(rest[k]));
        preloads.lemma_filter_contains_rev(stays, rest[k]);
        let i = choose|i: int| 0 <= i < preloads.len() && preloads[i] == rest[k];
        assert(preloads[i].hashes@.contains(hash));
    }
    match r.plan() {
        Some(plan) => {
            allowlist::law_dropped_preload_is_gone(
                before.allowlist.installed@,
                preloads,
                closure,
                now,
                plan,
                inserted,
                removed,
                hash,
            );
        },
        None => {
            assert(r.dropped().map_values(|d: Dropped| d@).len() == 0);
            law_no_plan_needed(preloads, closure, now);
        },
    }
}

/// A refresh that brings no plan leaves nothing undone: what is wanted has not changed.
pub proof fn law_no_plan_needed(preloads: Seq<Preload>, closure: Set<Seq<u8>>, now: u128)
    requires
        allowlist::dropped(preloads, closure, now).len() == 0,
    ensures
        allowlist::kept(preloads, closure, now) == preloads,
        allowlist::wanted(closure, allowlist::kept(preloads, closure, now)) == allowlist::wanted(
            closure,
            preloads,
        ),
    decreases preloads.len(),
{
    reveal(Seq::filter);
    if preloads.len() > 0 {
        law_no_plan_needed(preloads.drop_last(), closure, now);
        assert(preloads.drop_last().push(preloads.last()) =~= preloads);
    }
}

/// The roots that are followed by default are three, in this order, and of these only those that
/// are there.
pub proof fn law_default_roots(roots: Seq<Seq<u8>>, root: Seq<u8>, present: Seq<bool>)
    ensures
        default_roots() == seq![
            encode_utf8("/run/current-system"@),
            encode_utf8("/run/booted-system"@),
            encode_utf8("/nix/var/nix/profiles/system"@),
        ],
        present_ones(Seq::<Seq<u8>>::empty(), present) == Seq::<Seq<u8>>::empty(),
        present[roots.len() as int] ==> present_ones(roots.push(root), present) == present_ones(
            roots,
            present,
        ).push(root),
        !present[roots.len() as int] ==> present_ones(roots.push(root), present) == present_ones(
            roots,
            present,
        ),
{
    assert(roots.push(root).drop_last() =~= roots);
    assert(default_roots() =~= seq![
        encode_utf8("/run/current-system"@),
        encode_utf8("/run/booted-system"@),
        encode_utf8("/nix/var/nix/profiles/system"@),
    ]);
}

/// What is listed is what the roots lead to, and each once: a path is in the list, by its
/// components, if and only if some root leads there, or is that path and leads nowhere.
pub proof fn law_targets(
    roots: Seq<Vec<u8>>,
    canonical: Seq<Option<Vec<u8>>>,
    list: Seq<Vec<u8>>,
    parts: Seq<Seq<u8>>,
)
    requires
        roots.len() == canonical.len(),
        forall|i: int| 0 <= i < list.len() ==> points_at(roots, canonical, (#[trigger] list[i])@),
        forall|k: int|
            0 <= k < roots.len() ==> lists(list, target((#[trigger] roots[k])@, canonical[k])),
    ensures
        (exists|i: int| 0 <= i < list.len() && path::components((#[trigger] list[i])@) == parts)
            <==> exists|k: int|
            0 <= k < roots.len() && match (#[trigger] canonical[k]) {
                Some(path) => path::components(path@) == parts,
                None => path::components(roots[k]@) == parts,
            },
{
    if exists|i: int| 0 <= i < list.len() && path::components((#[trigger] list[i])@) == parts {
        let i = choose|i: int|
            0 <= i < list.len() && path::components((#[trigger] list[i])@) == parts;
        assert(points_at(roots, canonical, list[i]@));
        let k = choose|k: int|
            0 <= k < roots.len() && list[i]@ == target((#[trigger] roots[k])@, canonical[k]);
        assert(match canonical[k] {
            Some(path) => path::components(path@) == parts,
            None => path::components(roots[k]@) == parts,
        });
    }
    if exists|k: int|
        0 <= k < roots.len() && match (#[trigger] canonical[k]) {
            Some(path) => path::components(path@) == parts,
            None => path::components(roots[k]@) == parts,
        } {
        let k = choose|k: int|
            0 <= k < roots.len() && match (#[trigger] canonical[k]) {
                Some(path) => path::components(path@) == parts,
                None => path::components(roots[k]@) == parts,
            };
        assert(lists(list, target(roots[k]@, canonical[k])));
        let i = choose|i: int|
            0 <= i < list.len() && path::components((#[trigger] list[i])@) == path::components(
                target(roots[k]@, canonical[k]),
            );
        assert(path::components(list[i]@) == parts);
    }
}

/// Where roots are watched: a directory is watched, by its components, if and only if some root
/// stands in it.
pub proof fn law_watched(roots: Seq<Vec<u8>>, list: Seq<Vec<u8>>, dir: Seq<u8>, k: int, i: int)
    requires
        forall|i: int| 0 <= i < list.len() ==> holds_root(roots, (#[trigger] list[i])@),
        forall|k: int, dir: Seq<u8>|
            0 <= k < roots.len() && #[trigger] path::is_parent(dir, roots[k]@) ==> lists(list, dir),
    ensures
        0 <= k < roots.len() && path::is_parent(dir, roots[k]@) ==> exists|i: int|
            0 <= i < list.len() && path::components((#[trigger] list[i])@) == path::components(dir),
        0 <= i < list.len() ==> exists|m: int|
            0 <= m < roots.len() && path::is_parent(list[i]@, (#[trigger] roots[m])@),
{
    if 0 <= i < list.len() {
        assert(holds_root(roots, list[i]@));
    }
}

/// What a root requires is read off the listing line by line: a hash is gathered if and only if
/// some line of some listing is, but for white space around it, a store path with that hash. The
/// first listing that failed is told, with the root and what was said about it.
pub proof fn law_gathered_from_lines(listings: Seq<Listing>, first: int)
    ensures
        gathered(listings) matches Ok(closure) ==> forall|hash: Seq<u8>|
            closure.contains(hash) <==> exists|i: int, j: int|
                {
                    let lines = text::lines(text::utf8_lossy(listings[i].stdout@));
                    &&& 0 <= i < listings.len()
                    &&& 0 <= j < lines.len()
                    &&& store::hash_of(encode_utf8(text::trimmed(#[trigger] text::lines(
                        text::utf8_lossy((#[trigger] listings[i]).stdout@),
                    )[j]))) == Some(hash)
                },
        0 <= first < listings.len() && !listings[first].success && (forall|i: int|
            0 <= i < first ==> (#[trigger] listings[i]).success) ==> gathered(listings) == Err::<
            Set<Seq<u8>>,
            Seq<char>,
        >(
            "nix-store --query --requisites "@ + text::utf8_lossy(listings[first].root@)
                + " failed: "@ + text::trimmed(text::utf8_lossy(listings[first].stderr@)),
        ),
{
    law_gathered(listings);
    if let Ok(closure) = gathered(listings) {
        assert forall|hash: Seq<u8>| closure.contains(hash) <==> exists|i: int, j: int|
            {
                let lines = text::lines(text::utf8_lossy(listings[i].stdout@));
                &&& 0 <= i < listings.len()
                &&& 0 <= j < lines.len()
                &&& store::hash_of(encode_utf8(text::trimmed(#[trigger] text::lines(
                    text::utf8_lossy((#[trigger] listings[i]).stdout@),
                )[j]))) == Some(hash)
            } by {
            if closure.contains(hash) {
                let i = choose|i: int|
                    0 <= i < listings.len() && (#[trigger] listings[i]).hashes().contains(hash);
                let lines = text::lines(text::utf8_lossy(listings[i].stdout@));
                let j = choose|j: int|
                    0 <= j < lines.len() && store::hash_of(
                        encode_utf8(text::trimmed(#[trigger] lines[j])),
                    ) == Some(hash);
                assert(store::hash_of(
                    encode_utf8(
                        text::trimmed(text::lines(text::utf8_lossy(listings[i].stdout@))[j]),
                    ),
                ) == Some(hash));
            }
            if exists|i: int, j: int|
                {
                    let lines = text::lines(text::utf8_lossy(listings[i].stdout@));
                    &&& 0 <= i < listings.len()
                    &&& 0 <= j < lines.len()
                    &&& store::hash_of(encode_utf8(text::trimmed(#[trigger] text::lines(
                        text::utf8_lossy((#[trigger] listings[i]).stdout@),
                    )[j]))) == Some(hash)
                } {
                let (i, j) = choose|i: int, j: int|
                    {
                        let lines = text::lines(text::utf8_lossy(listings[i].stdout@));
                        &&& 0 <= i < listings.len()
                        &&& 0 <= j < lines.len()
                        &&& store::hash_of(encode_utf8(text::trimmed(#[trigger] text::lines(
                            text::utf8_lossy((#[trigger] listings[i]).stdout@),
                        )[j]))) == Some(hash)
                    };
                assert(listings[i].hashes().contains(hash));
            }
        }
    }
    if 0 <= first < listings.len() && !listings[first].success && (forall|i: int|
        0 <= i < first ==> (#[trigger] listings[i]).success) {
        let seen = listings.take(first);
        law_gathered(seen);
        assert forall|i: int| 0 <= i < seen.len() implies (#[trigger] seen[i]).success by {
            assert(seen[i] == listings[i]);
        }
        let next = listings.take(first + 1);
        assert(next.drop_last() =~= seen);
        assert(next.last() == listings[first]);
        lemma_gathered_failure(listings, first + 1);
    }
}

/// Two lists of targets are taken for the same if and only if each root leads to the same path,
/// by components, or leads nowhere in both.
pub proof fn law_same_targets(a: Seq<Option<Vec<u8>>>, b: Seq<Option<Vec<u8>>>)
    ensures
        keys(a) == keys(b) <==> a.len() == b.len() && forall|i: int|
            0 <= i < a.len() ==> match (#[trigger] a[i], b[i]) {
                (Some(x), Some(y)) => path::components(x@) == path::components(y@),
                (None, None) => true,
                _ => false,
            },
{
    if keys(a) == keys(b) {
        assert(keys(a).len() == a.len() && keys(b).len() == b.len());
        assert forall|i: int| 0 <= i < a.len() implies match (#[trigger] a[i], b[i]) {
            (Some(x), Some(y)) => path::components(x@) == path::components(y@),
            (None, None) => true,
            _ => false,
        } by {
            assert(keys(a)[i] == keys(b)[i]);
        }
    }
    if a.len() == b.len() && forall|i: int|
        0 <= i < a.len() ==> match (#[trigger] a[i], b[i]) {
            (Some(x), Some(y)) => path::components(x@) == path::components(y@),
            (None, None) => true,
            _ => false,
        } {
        assert(keys(a) =~= keys(b)) by {
            assert forall|i: int| 0 <= i < a.len() implies keys(a)[i] == keys(b)[i] by {
                assert(match (a[i], b[i]) {
                    (Some(x), Some(y)) => path::components(x@) == path::components(y@),
                    (None, None) => true,
                    _ => false,
                });
            }
        }
    }
}

/// A deploy is picked up: after every refresh that gathered a closure there is a plan, and once
/// that is carried out without a failure, the kernel's map holds the new closure, every preload
/// that is neither covered by it nor expired, and nothing else.
pub proof fn law_deploy_is_picked_up(
    before: Daemon,
    targets: Vec<Option<Vec<u8>>>,
    closure: StoreSet,
    now: u128,
    after: Daemon,
    r: Refresh,
    inserted: Seq<bool>,
    removed: Seq<bool>,
    hash: Seq<u8>,
)
    requires
        is_refresh(before, targets, Some(Ok(closure)), now, after, r),
        r.plan() matches Some(plan) ==> {
            &&& inserted.len() == plan.insert@.len()
            &&& removed.len() == plan.remove@.len()
            &&& forall|i: int| 0 <= i < inserted.len() ==> inserted[i] == true
            &&& forall|i: int| 0 <= i < removed.len() ==> removed[i] == true
        },
    ensures
        r.plan() is Some,
        ({
            let map = match r.plan() {
                Some(plan) => allowlist::map_after(
                    before.allowlist.installed@,
                    plan,
                    inserted,
                    removed,
                ),
                None => before.allowlist.installed@,
            };
            map.contains(hash) <==> closure@.contains(hash) || exists|i: int|
                {
                    let p = before.allowlist.preloads@[i];
                    &&& 0 <= i < before.allowlist.preloads@.len()
                    &&& (#[trigger] before.allowlist.preloads@[i]).hashes@.contains(hash)
                    &&& !p.hashes@.subset_of(closure@)
                    &&& now < p.expires
                }
        }),
        after.targets == targets,
        after.allowlist.closure@ == closure@,
{
    let plan = r.plan()->0;
    let installed = before.allowlist.installed@;
    let goal = after.allowlist.wanted();
    let preloads = before.allowlist.preloads@;
    let rest = allowlist::kept(preloads, closure@, now);
    let stays = |p: Preload| allowlist::fate(p, closure@, now) is None;
    allowlist::law_plan(plan, installed, goal, hash);
    allowlist::law_after_plan(installed, goal, plan, inserted, removed, hash);
    if allowlist::preloaded(rest, hash) {
        let k = choose|k: int| 0 <= k < rest.len() && #[trigger] rest[k].hashes@.contains(hash);
        preloads.lemma_filter_pred(stays, k);
        assert(rest.contains(rest[k]));
        preloads.lemma_filter_contains_rev(stays, rest[k]);
        let i = choose|i: int| 0 <= i < preloads.len() && preloads[i] == rest[k];
        assert(preloads[i].hashes@.contains(hash));
    }
    if exists|i: int|
        {
            let p = preloads[i];
            &&& 0 <= i < preloads.len()
            &&& (#[trigger] preloads[i]).hashes@.contains(hash)
            &&& !p.hashes@.subset_of(closure@)
            &&& now < p.expires
        } {
        let i = choose|i: int|
            {
                let p = preloads[i];
                &&& 0 <= i < preloads.len()
                &&& (#[trigger] preloads[i]).hashes@.contains(hash)
                &&& !p.hashes@.subset_of(closure@)
                &&& now < p.expires
            };
        allowlist::law_preload_is_held(preloads, closure@, now, preloads[i]);
        let k = choose|k: int| 0 <= k < rest.len() && rest[k] == preloads[i];
        assert(rest[k].hashes@.contains(hash));
    }
}

/// What a refresh leaves as it was: without a new closure, the old one and what the roots pointed
/// at, so that a change that could not be gathered is seen again. What is installed is for the
/// plan to change. A failure to gather is told as such, and nothing else is.
pub proof fn law_refresh_keeps(
    before: Daemon,
    targets: Vec<Option<Vec<u8>>>,
    gathered: Option<Result<StoreSet, String>>,
    now: u128,
    after: Daemon,
    r: Refresh,
)
    requires
        is_refresh(before, targets, gathered, now, after, r),
    ensures
        after.allowlist.installed == before.allowlist.installed,
        !(gathered matches Some(Ok(_))) ==> after.targets == before.targets
            && after.allowlist.closure == before.allowlist.closure,
        gathered matches Some(Err(e)) ==> r matches Refresh::Retry(told, _, _) && told == e,
        !(gathered matches Some(Err(_))) ==> r is Done,
{
}

/// In step before, in step afterwards: if the map held what was wanted, it does so after any
/// refresh whose plan, if there is one, is carried out without a failure. There is a plan without
/// a new closure if and only if a preload is covered or has expired.
pub proof fn law_refresh_stays_in_step(
    before: Daemon,
    targets: Vec<Option<Vec<u8>>>,
    gathered: Option<Result<StoreSet, String>>,
    now: u128,
    after: Daemon,
    r: Refresh,
    inserted: Seq<bool>,
    removed: Seq<bool>,
    hash: Seq<u8>,
)
    requires
        is_refresh(before, targets, gathered, now, after, r),
        before.allowlist.installed@ == before.allowlist.wanted(),
        r.plan() matches Some(plan) ==> {
            &&& inserted.len() == plan.insert@.len()
            &&& removed.len() == plan.remove@.len()
            &&& forall|i: int| 0 <= i < inserted.len() ==> inserted[i] == true
            &&& forall|i: int| 0 <= i < removed.len() ==> removed[i] == true
        },
    ensures
        r.plan() matches Some(plan) ==> (allowlist::map_after(
            before.allowlist.installed@,
            plan,
            inserted,
            removed,
        ).contains(hash) <==> after.allowlist.wanted().contains(hash)),
        r.plan() is None ==> (before.allowlist.installed@.contains(hash)
            <==> after.allowlist.wanted().contains(hash)),
        !(gathered matches Some(Ok(_))) ==> (r.plan() is Some <==> exists|i: int|
            {
                let p = before.allowlist.preloads@[i];
                &&& 0 <= i < before.allowlist.preloads@.len()
                &&& (#[trigger] before.allowlist.preloads@[i]).hashes@.subset_of(
                    before.allowlist.closure@,
                ) || p.expires <= now
            }),
{
    let preloads = before.allowlist.preloads@;
    let closure = after.allowlist.closure@;
    match r.plan() {
        Some(plan) => {
            let installed = before.allowlist.installed@;
            let goal = after.allowlist.wanted();
            allowlist::law_plan(plan, installed, goal, hash);
            allowlist::law_after_plan(installed, goal, plan, inserted, removed, hash);
        },
        None => {
            assert(r.dropped().map_values(|d: Dropped| d@).len() == 0);
            law_no_plan_needed(preloads, closure, now);
        },
    }
    assert(r.dropped().map_values(|d: Dropped| d@).len() == r.dropped().len());
    lemma_some_dropped(preloads, closure, now);
}

/// Something is dropped if and only if some preload is covered or has expired.
proof fn lemma_some_dropped(preloads: Seq<Preload>, closure: Set<Seq<u8>>, now: u128)
    ensures
        allowlist::dropped(preloads, closure, now).len() > 0 <==> exists|i: int|
            {
                let p = preloads[i];
                &&& 0 <= i < preloads.len()
                &&& (#[trigger] preloads[i]).hashes@.subset_of(closure) || p.expires <= now
            },
    decreases preloads.len(),
{
    if preloads.len() > 0 {
        let front = preloads.drop_last();
        let last = preloads.len() - 1;
        lemma_some_dropped(front, closure, now);
        if allowlist::dropped(front, closure, now).len() > 0 {
            let i = choose|i: int|
                {
                    let p = front[i];
                    &&& 0 <= i < front.len()
                    &&& (#[trigger] front[i]).hashes@.subset_of(closure) || p.expires <= now
                };
            assert(preloads[i] == front[i]);
        }
        if exists|i: int|
            {
                let p = preloads[i];
                &&& 0 <= i < preloads.len()
                &&& (#[trigger] preloads[i]).hashes@.subset_of(closure) || p.expires <= now
            } {
            let i = choose|i: int|
                {
                    let p = preloads[i];
                    &&& 0 <= i < preloads.len()
                    &&& (#[trigger] preloads[i]).hashes@.subset_of(closure) || p.expires <= now
                };
            if i < last {
                assert(front[i] == preloads[i]);
            }
        }
        assert(preloads[last] == preloads.last());
    }
}

/// Both kinds of refresh carry what was dropped and what is to be done.
pub proof fn law_refresh_parts(why: String, gone: Vec<Dropped>, plan: Option<SyncPlan>)
    ensures
        Refresh::Retry(why, gone, plan).dropped() == gone@,
        Refresh::Retry(why, gone, plan).plan() == plan,
        Refresh::Done(gone, plan).dropped() == gone@,
        Refresh::Done(gone, plan).plan() == plan,
{
}

/// A listing that failed is told with its root, and with what was said about it, but for white
/// space around that.
pub proof fn law_listing_failure(
    root: Seq<char>,
    before: Seq<char>,
    said: Seq<char>,
    after: Seq<char>,
)
    requires
        forall|i: int| 0 <= i < before.len() ==> text::is_white_space(before[i]),
        forall|i: int| 0 <= i < after.len() ==> text::is_white_space(after[i]),
        said.len() > 0 ==> !text::is_white_space(said[0]) && !text::is_white_space(said.last()),
    ensures
        listing_failure(root, before + said + after) == "nix-store --query --requisites "@ + root
            + " failed: "@ + said,
{
    text::law_trimmed(before, said, after);
}

/// Privileges are what is missing if and only if some cause is error 1 or error 13, wherever it
/// stands among the causes.
pub proof fn law_privileges(causes: Seq<Option<i32>>, lacking: bool)
    requires
        lacking == exists|i: int|
            0 <= i < causes.len() && (#[trigger] causes[i] == Some(EPERM) || causes[i] == Some(
                EACCES,
            )),
    ensures
        lacking <==> exists|i: int|
            0 <= i < causes.len() && (#[trigger] causes[i] == Some(1i32) || causes[i] == Some(
                13i32,
            )),
        PRIVILEGE_HINT@ == "insufficient privileges for loading the eBPF program (try sudo)"@,
{
}

} // verus!
