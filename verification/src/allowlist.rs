//! The allowlist: which store hashes may run, and how that is brought into the kernel's map.
use crate::path;
use crate::store::{self, StoreHash, StoreSet};
use crate::text;
use vstd::prelude::*;
use vstd::string::*;
use vstd::utf8::*;

verus! {

/// A closure that is allowed ahead of its activation.
pub struct Preload {
    pub path: String,
    pub hashes: StoreSet,
    /// When it is dropped if it was never activated, in nanoseconds on the daemon's clock.
    pub expires: u128,
}

/// Why a preload was dropped.
#[derive(Clone, Copy, PartialEq, Eq, Debug, Structural)]
pub enum DropReason {
    /// The closure has caught up with it.
    Activated,
    /// Its time has run out.
    Expired,
}

impl DropReason {
    /// How a reason is told.
    pub open spec fn text(self) -> Seq<char> {
        match self {
            DropReason::Activated => "activated"@,
            DropReason::Expired => "expired without being activated"@,
        }
    }

    pub fn as_str(self) -> (s: &'static str)
        ensures
            s@ == self.text(),
    {
        match self {
            DropReason::Activated => "activated",
            DropReason::Expired => "expired without being activated",
        }
    }
}

/// A preload that was dropped.
pub struct Dropped {
    pub path: String,
    pub reason: DropReason,
}

impl View for Dropped {
    type V = (Seq<char>, DropReason);

    open spec fn view(&self) -> (Seq<char>, DropReason) {
        (self.path@, self.reason)
    }
}

/// What has to be done to the kernel's map: each hash in `insert` is to be put in, then each
/// hash in `remove` is to be taken out.
pub struct SyncPlan {
    pub insert: Vec<StoreHash>,
    pub remove: Vec<StoreHash>,
}

/// What is allowed, and what of it stands in the kernel's map.
pub struct Allowlist {
    /// The closure of the roots.
    pub closure: StoreSet,
    pub preloads: Vec<Preload>,
    /// What stands in the kernel's map.
    pub installed: StoreSet,
}

/// The components of a path that is given as text.
pub open spec fn path_key(path: Seq<char>) -> Seq<Seq<u8>> {
    path::components(encode_utf8(path))
}

/// Whether some preload allows `hash`.
pub open spec fn preloaded(preloads: Seq<Preload>, hash: Seq<u8>) -> bool {
    exists|i: int| 0 <= i < preloads.len() && #[trigger] preloads[i].hashes@.contains(hash)
}

/// What should stand in the kernel's map: the closure, and every preload.
pub open spec fn wanted(closure: Set<Seq<u8>>, preloads: Seq<Preload>) -> Set<Seq<u8>> {
    Set::new(|hash: Seq<u8>| closure.contains(hash) || preloaded(preloads, hash))
}

/// Whether `plan` leads from what is installed to what is wanted, naming each hash once.
pub open spec fn leads(plan: SyncPlan, installed: Set<Seq<u8>>, wanted: Set<Seq<u8>>) -> bool {
    &&& store::hashes(plan.insert@).no_duplicates()
    &&& store::hashes(plan.insert@).to_set() == wanted.difference(installed)
    &&& store::hashes(plan.remove@).no_duplicates()
    &&& store::hashes(plan.remove@).to_set() == installed.difference(wanted)
}

/// The hashes in `list` whose operation ended as `outcome` says.
pub open spec fn ended(list: Seq<StoreHash>, outcomes: Seq<bool>, outcome: bool) -> Set<Seq<u8>> {
    Set::new(
        |hash: Seq<u8>|
            exists|i: int|
                0 <= i < list.len() && #[trigger] list[i]@ == hash && outcomes[i] == outcome,
    )
}

/// How many operations succeeded.
pub open spec fn successes(outcomes: Seq<bool>) -> nat {
    outcomes.filter(|ok: bool| ok).len()
}

/// What is installed once a plan was carried out: what is wanted, without what could not be put
/// in, and with what could not be taken out.
pub open spec fn installed_after(
    wanted: Set<Seq<u8>>,
    plan: SyncPlan,
    inserted: Seq<bool>,
    removed: Seq<bool>,
) -> Set<Seq<u8>> {
    wanted.difference(ended(plan.insert@, inserted, false)).union(
        ended(plan.remove@, removed, false),
    )
}

/// What becomes of a preload: it is dropped once the closure covers it, or when it expires.
pub open spec fn fate(preload: Preload, closure: Set<Seq<u8>>, now: u128) -> Option<DropReason> {
    if preload.hashes@.subset_of(closure) {
        Some(DropReason::Activated)
    } else if preload.expires <= now {
        Some(DropReason::Expired)
    } else {
        None
    }
}

/// The preloads that stay.
pub open spec fn kept(preloads: Seq<Preload>, closure: Set<Seq<u8>>, now: u128) -> Seq<Preload> {
    preloads.filter(|p: Preload| fate(p, closure, now) is None)
}

/// The preloads that are dropped, with the reason for each.
pub open spec fn dropped(preloads: Seq<Preload>, closure: Set<Seq<u8>>, now: u128) -> Seq<
    (Seq<char>, DropReason),
>
    decreases preloads.len(),
{
    if preloads.len() == 0 {
        Seq::empty()
    } else {
        let before = dropped(preloads.drop_last(), closure, now);
        match fate(preloads.last(), closure, now) {
            Some(reason) => before.push((preloads.last().path@, reason)),
            None => before,
        }
    }
}

/// The preloads of other paths than `path`.
pub open spec fn others(preloads: Seq<Preload>, path: Seq<char>) -> Seq<Preload> {
    preloads.filter(|p: Preload| path_key(p.path@) != path_key(path))
}

/// Whether a path is in the store.
pub open spec fn is_store_path(path: Seq<char>) -> bool {
    path_key("/nix/store"@).is_prefix_of(path_key(path))
}

/// Why a path cannot be preloaded.
pub open spec fn not_a_store_path(path: Seq<char>) -> Seq<char> {
    path + " is not a store path"@
}

/// Why a preload is not confirmed.
pub open spec fn not_all_allowed(path: Seq<char>) -> Seq<char> {
    path + " could not be allowlisted completely (map full?)"@
}

/// What a request to preload is answered once the kernel's map holds `map`: the number of hashes
/// that are newly allowed, if all of the preload is in the map.
pub open spec fn confirmation(preload: Preload, map: Set<Seq<u8>>, added: nat) -> Result<
    nat,
    Seq<char>,
> {
    if preload.hashes@.subset_of(map) {
        Ok(added)
    } else {
        Err(not_all_allowed(preload.path@))
    }
}

/// Whether `path` can be preloaded: only what is in the store can.
pub fn check_preload(path: &str) -> (r: Result<(), String>)
    ensures
        match r {
            Ok(()) => is_store_path(path@),
            Err(e) => !is_store_path(path@) && e@ == not_a_store_path(path@),
        },
{
    if path::starts_with(path.as_bytes(), "/nix/store".as_bytes()) {
        Ok(())
    } else {
        let mut e = path.to_owned();
        e.append(" is not a store path");
        Err(e)
    }
}

impl Allowlist {
    /// The sets are well formed, and no two preloads have the same path.
    pub open spec fn wf(&self) -> bool {
        &&& self.closure.wf()
        &&& self.installed.wf()
        &&& forall|i: int| 0 <= i < self.preloads@.len() ==> (#[trigger] self.preloads@[i]).hashes.wf()
        &&& distinct(self.preloads@)
    }

    /// What should stand in the kernel's map.
    pub open spec fn wanted(&self) -> Set<Seq<u8>> {
        wanted(self.closure@, self.preloads@)
    }

    /// An allowlist for a closure, before anything is installed.
    pub fn new(closure: StoreSet) -> (r: Allowlist)
        requires
            closure.wf(),
        ensures
            r.wf(),
            r.closure == closure,
            r.preloads@ == Seq::<Preload>::empty(),
            r.installed@ == Set::<Seq<u8>>::empty(),
    {
        Allowlist { closure, preloads: Vec::new(), installed: StoreSet::new() }
    }

    fn desired(&self) -> (r: StoreSet)
        requires
            self.wf(),
        ensures
            r.wf(),
            r@ == self.wanted(),
    {
        let mut r = self.closure.copy();
        let mut i: usize = 0;
        assert(r@ =~= wanted(self.closure@, self.preloads@.take(0)));
        while i < self.preloads.len()
            invariant
                self.wf(),
                r.wf(),
                i <= self.preloads@.len(),
                r@ == wanted(self.closure@, self.preloads@.take(i as int)),
            decreases self.preloads.len() - i,
        {
            let ghost before = r@;
            r.extend(&self.preloads[i].hashes);
            proof {
                let seen = self.preloads@.take(i as int);
                let next = self.preloads@.take(i + 1);
                assert forall|h: Seq<u8>| r@.contains(h) == wanted(self.closure@, next).contains(h) by {
                    assert(next[i as int] == self.preloads@[i as int]);
                    if preloaded(seen, h) {
                        let k = choose|k: int|
                            0 <= k < seen.len() && #[trigger] seen[k].hashes@.contains(h);
                        assert(next[k] == seen[k]);
                    }
                    if preloaded(next, h) {
                        let k = choose|k: int|
                            0 <= k < next.len() && #[trigger] next[k].hashes@.contains(h);
                        if k < i {
                            assert(next[k] == seen[k]);
                        }
                    }
                }
                assert(r@ =~= wanted(self.closure@, next));
            }
            i = i + 1;
        }
        assert(self.preloads@.take(i as int) =~= self.preloads@);
        r
    }

    /// What has to be done to the kernel's map so that it holds what is wanted.
    pub fn plan_sync(&self) -> (plan: SyncPlan)
        requires
            self.wf(),
        ensures
            leads(plan, self.installed@, self.wanted()),
    {
        let desired = self.desired();
        SyncPlan {
            insert: desired.difference(&self.installed),
            remove: self.installed.difference(&desired),
        }
    }

    /// Takes note of how a plan went: `inserted` and `removed` say for each operation of the
    /// plan whether it succeeded. Returns how many hashes were put in and taken out.
    pub fn sync(&mut self, plan: &SyncPlan, inserted: &[bool], removed: &[bool]) -> (r: (
        usize,
        usize,
    ))
        requires
            old(self).wf(),
            leads(*plan, old(self).installed@, old(self).wanted()),
            inserted@.len() == plan.insert@.len(),
            removed@.len() == plan.remove@.len(),
        ensures
            final(self).wf(),
            final(self).closure == old(self).closure,
            final(self).preloads == old(self).preloads,
            final(self).installed@ == installed_after(
                old(self).wanted(),
                *plan,
                inserted@,
                removed@,
            ),
            r.0 == successes(inserted@),
            r.1 == successes(removed@),
    {
        let mut desired = self.desired();
        let ghost goal = desired@;
        let mut added: usize = 0;
        let mut i: usize = 0;
        proof {
            assert(desired@ =~= goal.difference(ended(plan.insert@.take(0), inserted@.take(0), false)));
            assert(successes(inserted@.take(0)) == 0) by {
                reveal(Seq::filter);
            }
        }
        while i < plan.insert.len()
            invariant
                desired.wf(),
                i <= plan.insert@.len(),
                inserted@.len() == plan.insert@.len(),
                desired@ == goal.difference(ended(plan.insert@.take(i as int), inserted@.take(i as int), false)),
                added == successes(inserted@.take(i as int)),
                added <= i,
            decreases plan.insert.len() - i,
        {
            proof {
                lemma_ended_step(plan.insert@, inserted@, i as int, false);
                lemma_successes_step(inserted@, i as int);
            }
            if inserted[i] {
                added = added + 1;
            } else {
                let _gone = desired.remove(&plan.insert[i]);
            }
            i = i + 1;
            assert(desired@ =~= goal.difference(
                ended(plan.insert@.take(i as int), inserted@.take(i as int), false),
            ));
        }
        assert(plan.insert@.take(i as int) =~= plan.insert@);
        assert(inserted@.take(i as int) =~= inserted@);
        let ghost partial = desired@;
        let mut gone: usize = 0;
        let mut k: usize = 0;
        proof {
            assert(desired@ =~= partial.union(ended(plan.remove@.take(0), removed@.take(0), false)));
            assert(successes(removed@.take(0)) == 0) by {
                reveal(Seq::filter);
            }
        }
        while k < plan.remove.len()
            invariant
                desired.wf(),
                k <= plan.remove@.len(),
                removed@.len() == plan.remove@.len(),
                desired@ == partial.union(ended(plan.remove@.take(k as int), removed@.take(k as int), false)),
                gone == successes(removed@.take(k as int)),
                gone <= k,
            decreases plan.remove.len() - k,
        {
            proof {
                lemma_ended_step(plan.remove@, removed@, k as int, false);
                lemma_successes_step(removed@, k as int);
            }
            if removed[k] {
                gone = gone + 1;
            } else {
                let _new = desired.insert(plan.remove[k]);
            }
            k = k + 1;
            assert(desired@ =~= partial.union(
                ended(plan.remove@.take(k as int), removed@.take(k as int), false),
            ));
        }
        assert(plan.remove@.take(k as int) =~= plan.remove@);
        assert(removed@.take(k as int) =~= removed@);
        self.installed = desired;
        (added, gone)
    }

    /// Drops the preloads that the closure covers and those that have expired, and tells which.
    pub fn drop_covered_and_expired(&mut self, now: u128) -> (r: Vec<Dropped>)
        requires
            old(self).wf(),
        ensures
            final(self).wf(),
            final(self).closure == old(self).closure,
            final(self).installed == old(self).installed,
            final(self).preloads@ == kept(old(self).preloads@, old(self).closure@, now),
            r@.map_values(|d: Dropped| d@) == dropped(
                old(self).preloads@,
                old(self).closure@,
                now,
            ),
            r@.len() == old(self).preloads@.len() - final(self).preloads@.len(),
    {
        let ghost all = self.preloads@;
        let ghost closure = self.closure@;
        let mut r: Vec<Dropped> = Vec::new();
        let mut i: usize = 0;
        let ghost mut seen: int = 0;
        proof {
            assert(kept(all.take(0), closure, now) =~= Seq::empty()) by {
                reveal(Seq::filter);
            }
            assert(self.preloads@ =~= kept(all.take(0), closure, now) + all.skip(0));
            assert(r@.map_values(|d: Dropped| d@) =~= dropped(all.take(0), closure, now));
        }
        while i < self.preloads.len()
            invariant
                self.closure == old(self).closure,
                self.installed == old(self).installed,
                self.closure.wf(),
                closure == self.closure@,
                forall|j: int| 0 <= j < all.len() ==> (#[trigger] all[j]).hashes.wf(),
                0 <= seen <= all.len(),
                i == kept(all.take(seen), closure, now).len(),
                self.preloads@ == kept(all.take(seen), closure, now) + all.skip(seen),
                r@.map_values(|d: Dropped| d@) == dropped(all.take(seen), closure, now),
                r@.len() == seen - i,
            decreases self.preloads@.len() - i,
        {
            let ghost before = self.preloads@;
            proof {
                assert(self.preloads@[i as int] == all[seen]);
                lemma_kept_step(all, closure, now, seen);
            }
            let covered = self.preloads[i].hashes.is_subset(&self.closure);
            let expired = self.preloads[i].expires <= now;
            if covered || expired {
                let gone = self.preloads.remove(i);
                let reason = if covered {
                    DropReason::Activated
                } else {
                    DropReason::Expired
                };
                let ghost told = r@.map_values(|d: Dropped| d@);
                r.push(Dropped { path: gone.path, reason });
                proof {
                    assert(r@.map_values(|d: Dropped| d@) =~= told.push((all[seen].path@, reason)));
                    assert(self.preloads@ =~= kept(all.take(seen + 1), closure, now) + all.skip(seen + 1));
                }
            } else {
                i = i + 1;
                assert(self.preloads@ =~= kept(all.take(seen + 1), closure, now) + all.skip(seen + 1));
            }
            proof {
                seen = seen + 1;
            }
        }
        proof {
            assert(all.skip(seen).len() == 0);
            assert(all.take(seen) =~= all);
            assert(self.preloads@ =~= kept(all, closure, now));
            lemma_filter_wf(all, |p: Preload| fate(p, closure, now) is None);
        }
        r
    }

    /// Notes a preload in the place of any other of the same path.
    fn put_preload(&mut self, preload: Preload)
        requires
            old(self).wf(),
            preload.hashes.wf(),
        ensures
            final(self).wf(),
            final(self).closure == old(self).closure,
            final(self).installed == old(self).installed,
            final(self).preloads@ == others(old(self).preloads@, preload.path@).push(preload),
    {
        let ghost all = self.preloads@;
        let ghost name = preload.path@;
        let mut i: usize = 0;
        let ghost mut seen: int = 0;
        proof {
            assert(others(all.take(0), name) =~= Seq::empty()) by {
                reveal(Seq::filter);
            }
            assert(self.preloads@ =~= others(all.take(0), name) + all.skip(0));
        }
        while i < self.preloads.len()
            invariant
                self.closure == old(self).closure,
                self.installed == old(self).installed,
                name == preload.path@,
                0 <= seen <= all.len(),
                i == others(all.take(seen), name).len(),
                self.preloads@ == others(all.take(seen), name) + all.skip(seen),
            decreases self.preloads@.len() - i,
        {
            proof {
                assert(self.preloads@[i as int] == all[seen]);
                lemma_others_step(all, name, seen);
            }
            if path::same_path(self.preloads[i].path.as_str().as_bytes(), preload.path.as_str().as_bytes()) {
                let _gone = self.preloads.remove(i);
            } else {
                i = i + 1;
            }
            proof {
                assert(self.preloads@ =~= others(all.take(seen + 1), name) + all.skip(seen + 1));
                seen = seen + 1;
            }
        }
        proof {
            assert(all.skip(seen).len() == 0);
            assert(all.take(seen) =~= all);
            assert(self.preloads@ =~= others(all, name));
            lemma_filter_wf(all, |p: Preload| path_key(p.path@) != path_key(name));
        }
        let ghost rest = self.preloads@;
        self.preloads.push(preload);
        proof {
            assert forall|j: int, k: int| 0 <= j < k < self.preloads@.len() implies path_key(
                (#[trigger] self.preloads@[j]).path@,
            ) != path_key((#[trigger] self.preloads@[k]).path@) by {
                assert(self.preloads@[j] == rest[j]);
                if k == rest.len() {
                    all.lemma_filter_pred(|p: Preload| path_key(p.path@) != path_key(name), j);
                } else {
                    assert(self.preloads@[k] == rest[k]);
                }
            }
        }
    }

    /// Allows a closure ahead of its activation, from now on for `ttl` nanoseconds. `gathered` is
    /// what asking for the requisites of `path` has brought. The plan is to be carried out, and
    /// its outcome handed to [`Allowlist::confirm_preload`].
    pub fn add_preload(
        &mut self,
        path: String,
        gathered: Result<StoreSet, String>,
        now: u128,
        ttl: u128,
    ) -> (r: Result<SyncPlan, String>)
        requires
            old(self).wf(),
            gathered matches Ok(hashes) ==> hashes.wf(),
            now + ttl <= u128::MAX,
        ensures
            final(self).wf(),
            final(self).closure == old(self).closure,
            final(self).installed == old(self).installed,
            match r {
                Ok(plan) => {
                    &&& is_store_path(path@)
                    &&& gathered is Ok
                    &&& final(self).preloads@ == others(old(self).preloads@, path@).push(
                        (Preload {
                            path,
                            hashes: gathered->Ok_0,
                            expires: (now + ttl) as u128,
                        }),
                    )
                    &&& leads(plan, final(self).installed@, final(self).wanted())
                },
                Err(e) => {
                    &&& final(self).preloads == old(self).preloads
                    &&& if is_store_path(path@) {
                        gathered == Err::<StoreSet, String>(e)
                    } else {
                        e@ == not_a_store_path(path@)
                    }
                },
            },
    {
        if let Err(e) = check_preload(path.as_str()) {
            return Err(e);
        }
        match gathered {
            Err(e) => Err(e),
            Ok(hashes) => {
                self.put_preload(Preload { path, hashes, expires: now + ttl });
                Ok(self.plan_sync())
            },
        }
    }

    /// Takes note of how the plan of the last preload went, as [`Allowlist::sync`] does, and
    /// decides what its request is answered. Only a preload that is in the kernel's map with all
    /// its hashes is confirmed. One that is not is held all the same, and tried again with the
    /// next plan.
    pub fn confirm_preload(&mut self, plan: &SyncPlan, inserted: &[bool], removed: &[bool]) -> (r:
        Result<u64, String>)
        requires
            old(self).wf(),
            old(self).preloads@.len() > 0,
            leads(*plan, old(self).installed@, old(self).wanted()),
            inserted@.len() == plan.insert@.len(),
            removed@.len() == plan.remove@.len(),
        ensures
            final(self).wf(),
            final(self).closure == old(self).closure,
            final(self).preloads == old(self).preloads,
            final(self).installed@ == installed_after(
                old(self).wanted(),
                *plan,
                inserted@,
                removed@,
            ),
            ({
                let answer = confirmation(
                    old(self).preloads@.last(),
                    map_after(old(self).installed@, *plan, inserted@, removed@),
                    successes(inserted@),
                );
                match r {
                    Ok(added) => answer == Ok::<nat, Seq<char>>(added as nat),
                    Err(e) => answer == Err::<nat, Seq<char>>(e@),
                }
            }),
    {
        proof {
            law_map_mirrored(self.installed@, self.wanted(), *plan, inserted@, removed@);
        }
        let (added, _) = self.sync(plan, inserted, removed);
        let last = self.preloads.len() - 1;
        if self.preloads[last].hashes.is_subset(&self.installed) {
            Ok(added as u64)
        } else {
            let mut e = self.preloads[last].path.as_str().to_owned();
            e.append(" could not be allowlisted completely (map full?)");
            Err(e)
        }
    }

    /// When the next preload expires.
    pub fn soonest_expiry(&self) -> (r: Option<u128>)
        ensures
            match r {
                Some(t) => {
                    &&& exists|i: int|
                        0 <= i < self.preloads@.len() && (#[trigger] self.preloads@[i]).expires == t
                    &&& forall|i: int|
                        0 <= i < self.preloads@.len() ==> (#[trigger] self.preloads@[i]).expires >= t
                },
                None => self.preloads@.len() == 0,
            },
    {
        if self.preloads.len() == 0 {
            return None;
        }
        let mut soonest: u128 = self.preloads[0].expires;
        let mut i: usize = 1;
        while i < self.preloads.len()
            invariant
                1 <= i <= self.preloads@.len(),
                exists|j: int| 0 <= j < i && (#[trigger] self.preloads@[j]).expires == soonest,
                forall|j: int| 0 <= j < i ==> (#[trigger] self.preloads@[j]).expires >= soonest,
            decreases self.preloads.len() - i,
        {
            if self.preloads[i].expires < soonest {
                soonest = self.preloads[i].expires;
                assert(self.preloads@[i as int].expires == soonest);
            }
            i = i + 1;
        }
        Some(soonest)
    }
}

/// No two preloads have the same path.
pub open spec fn distinct(preloads: Seq<Preload>) -> bool {
    forall|i: int, j: int|
        0 <= i < j < preloads.len() ==> path_key((#[trigger] preloads[i]).path@) != path_key(
            (#[trigger] preloads[j]).path@,
        )
}

proof fn lemma_ended_step(list: Seq<StoreHash>, outcomes: Seq<bool>, i: int, outcome: bool)
    requires
        0 <= i < list.len(),
        list.len() == outcomes.len(),
    ensures
        ended(list.take(i + 1), outcomes.take(i + 1), outcome) == if outcomes[i] == outcome {
            ended(list.take(i), outcomes.take(i), outcome).insert(list[i]@)
        } else {
            ended(list.take(i), outcomes.take(i), outcome)
        },
{
    let seen = ended(list.take(i), outcomes.take(i), outcome);
    let next = ended(list.take(i + 1), outcomes.take(i + 1), outcome);
    assert forall|h: Seq<u8>| next.contains(h) <==> seen.contains(h) || (outcomes[i] == outcome && h
        == list[i]@) by {
        if next.contains(h) {
            let k = choose|k: int|
                0 <= k < list.take(i + 1).len() && #[trigger] list.take(i + 1)[k]@ == h
                    && outcomes.take(i + 1)[k] == outcome;
            if k < i {
                assert(list.take(i)[k]@ == h && outcomes.take(i)[k] == outcome);
            }
        }
        if seen.contains(h) {
            let k = choose|k: int|
                0 <= k < list.take(i).len() && #[trigger] list.take(i)[k]@ == h
                    && outcomes.take(i)[k] == outcome;
            assert(list.take(i + 1)[k]@ == h && outcomes.take(i + 1)[k] == outcome);
        }
        assert(list.take(i + 1)[i]@ == list[i]@ && outcomes.take(i + 1)[i] == outcomes[i]);
    }
    assert(next =~= if outcomes[i] == outcome {
        seen.insert(list[i]@)
    } else {
        seen
    });
}

proof fn lemma_successes_step(outcomes: Seq<bool>, i: int)
    requires
        0 <= i < outcomes.len(),
    ensures
        successes(outcomes.take(i + 1)) == successes(outcomes.take(i)) + if outcomes[i] {
            1nat
        } else {
            0nat
        },
{
    assert(outcomes.take(i + 1) =~= outcomes.take(i).push(outcomes[i]));
    outcomes.take(i).lemma_filter_push(outcomes[i], |ok: bool| ok);
}

proof fn lemma_kept_step(all: Seq<Preload>, closure: Set<Seq<u8>>, now: u128, i: int)
    requires
        0 <= i < all.len(),
    ensures
        kept(all.take(i + 1), closure, now) == if fate(all[i], closure, now) is None {
            kept(all.take(i), closure, now).push(all[i])
        } else {
            kept(all.take(i), closure, now)
        },
        dropped(all.take(i + 1), closure, now) == match fate(all[i], closure, now) {
            Some(reason) => dropped(all.take(i), closure, now).push((all[i].path@, reason)),
            None => dropped(all.take(i), closure, now),
        },
{
    assert(all.take(i + 1) =~= all.take(i).push(all[i]));
    all.take(i).lemma_filter_push(all[i], |p: Preload| fate(p, closure, now) is None);
    assert(all.take(i + 1).drop_last() =~= all.take(i));
}

proof fn lemma_others_step(all: Seq<Preload>, path: Seq<char>, i: int)
    requires
        0 <= i < all.len(),
    ensures
        others(all.take(i + 1), path) == if path_key(all[i].path@) != path_key(path) {
            others(all.take(i), path).push(all[i])
        } else {
            others(all.take(i), path)
        },
{
    assert(all.take(i + 1) =~= all.take(i).push(all[i]));
    all.take(i).lemma_filter_push(all[i], |p: Preload| path_key(p.path@) != path_key(path));
}

/// Leaving preloads out keeps the rest well formed and distinct.
proof fn lemma_filter_wf(all: Seq<Preload>, pred: spec_fn(Preload) -> bool)
    requires
        forall|i: int| 0 <= i < all.len() ==> (#[trigger] all[i]).hashes.wf(),
        distinct(all),
    ensures
        forall|i: int| 0 <= i < all.filter(pred).len() ==> (#[trigger] all.filter(pred)[i]).hashes.wf(),
        distinct(all.filter(pred)),
        forall|i: int| 0 <= i < all.filter(pred).len() ==> all.contains(#[trigger] all.filter(pred)[i]),
    decreases all.len(),
{
    reveal(Seq::filter);
    if all.len() > 0 {
        let front = all.drop_last();
        lemma_filter_wf(front, pred);
        let sub = front.filter(pred);
        let whole = all.filter(pred);
        assert forall|i: int| 0 <= i < whole.len() implies all.contains(#[trigger] whole[i]) by {
            if i < sub.len() {
                assert(whole[i] == sub[i]);
                let k = choose|k: int| 0 <= k < front.len() && front[k] == sub[i];
                assert(all[k] == sub[i]);
            } else {
                assert(whole[i] == all.last());
            }
        }
        assert forall|i: int, j: int| 0 <= i < j < whole.len() implies path_key(
            (#[trigger] whole[i]).path@,
        ) != path_key((#[trigger] whole[j]).path@) by {
            assert(whole[i] == sub[i]);
            if j < sub.len() {
                assert(whole[j] == sub[j]);
            } else {
                let k = choose|k: int| 0 <= k < front.len() && front[k] == sub[i];
                assert(all[k] == sub[i]);
                assert(whole[j] == all[all.len() - 1]);
            }
        }
        assert forall|i: int| 0 <= i < whole.len() implies (#[trigger] whole[i]).hashes.wf() by {
            let k = choose|k: int| 0 <= k < all.len() && all[k] == whole[i];
            assert(all[k].hashes.wf());
        }
    }
}

/// Whether every operation succeeded.
pub open spec fn all_succeeded(outcomes: Seq<bool>) -> bool {
    forall|i: int| 0 <= i < outcomes.len() ==> #[trigger] outcomes[i]
}

/// What the kernel's map holds after a plan: an operation that succeeds puts its hash in or takes
/// it out, and one that fails changes nothing.
pub open spec fn map_after(
    map: Set<Seq<u8>>,
    plan: SyncPlan,
    inserted: Seq<bool>,
    removed: Seq<bool>,
) -> Set<Seq<u8>> {
    map.union(ended(plan.insert@, inserted, true)).difference(ended(plan.remove@, removed, true))
}

proof fn lemma_ended(list: Seq<StoreHash>, outcomes: Seq<bool>, hash: Seq<u8>)
    requires
        store::hashes(list).no_duplicates(),
        outcomes.len() == list.len(),
    ensures
        store::hashes(list).to_set().contains(hash) <==> ended(list, outcomes, true).contains(hash)
            || ended(list, outcomes, false).contains(hash),
        !(ended(list, outcomes, true).contains(hash) && ended(list, outcomes, false).contains(hash)),
{
    let s = store::hashes(list);
    if s.to_set().contains(hash) {
        let i = choose|i: int| 0 <= i < s.len() && s[i] == hash;
        assert(list[i]@ == hash && outcomes[i] == outcomes[i]);
    }
    if ended(list, outcomes, true).contains(hash) {
        let i = choose|i: int|
            0 <= i < list.len() && #[trigger] list[i]@ == hash && outcomes[i] == true;
        assert(s[i] == hash);
        if ended(list, outcomes, false).contains(hash) {
            let k = choose|k: int|
                0 <= k < list.len() && #[trigger] list[k]@ == hash && outcomes[k] == false;
            assert(s[k] == hash);
        }
    }
    if ended(list, outcomes, false).contains(hash) {
        let i = choose|i: int|
            0 <= i < list.len() && #[trigger] list[i]@ == hash && outcomes[i] == false;
        assert(s[i] == hash);
    }
}

/// The daemon knows what the kernel's map holds: if it did before a plan was carried out, it does
/// afterwards, whichever operations failed.
pub proof fn law_map_mirrored(
    installed: Set<Seq<u8>>,
    wanted: Set<Seq<u8>>,
    plan: SyncPlan,
    inserted: Seq<bool>,
    removed: Seq<bool>,
)
    requires
        leads(plan, installed, wanted),
        inserted.len() == plan.insert@.len(),
        removed.len() == plan.remove@.len(),
    ensures
        map_after(installed, plan, inserted, removed) == installed_after(
            wanted,
            plan,
            inserted,
            removed,
        ),
{
    let map = map_after(installed, plan, inserted, removed);
    let noted = installed_after(wanted, plan, inserted, removed);
    assert forall|h: Seq<u8>| map.contains(h) == noted.contains(h) by {
        lemma_ended(plan.insert@, inserted, h);
        lemma_ended(plan.remove@, removed, h);
        assert(store::hashes(plan.insert@).to_set().contains(h) <==> wanted.contains(h)
            && !installed.contains(h));
        assert(store::hashes(plan.remove@).to_set().contains(h) <==> installed.contains(h)
            && !wanted.contains(h));
    }
    assert(map =~= noted);
}

/// When every operation of a plan succeeds, what is wanted is installed, and nothing else; there
/// is then nothing left to do.
pub proof fn law_sync_complete(
    wanted: Set<Seq<u8>>,
    plan: SyncPlan,
    inserted: Seq<bool>,
    removed: Seq<bool>,
    next: SyncPlan,
)
    requires
        inserted.len() == plan.insert@.len(),
        removed.len() == plan.remove@.len(),
        all_succeeded(inserted),
        all_succeeded(removed),
        leads(next, installed_after(wanted, plan, inserted, removed), wanted),
    ensures
        installed_after(wanted, plan, inserted, removed) == wanted,
        next.insert@.len() == 0,
        next.remove@.len() == 0,
{
    assert(ended(plan.insert@, inserted, false) =~= Set::empty());
    assert(ended(plan.remove@, removed, false) =~= Set::empty());
    assert(installed_after(wanted, plan, inserted, removed) =~= wanted);
    assert(wanted.difference(wanted) =~= Set::empty());
    if next.insert@.len() > 0 {
        assert(store::hashes(next.insert@).to_set().contains(store::hashes(next.insert@)[0]));
    }
    if next.remove@.len() > 0 {
        assert(store::hashes(next.remove@).to_set().contains(store::hashes(next.remove@)[0]));
    }
}

/// What fails is tried again: the next plan puts in what could not be put in, and takes out what
/// could not be taken out.
pub proof fn law_failures_are_retried(
    installed: Set<Seq<u8>>,
    wanted: Set<Seq<u8>>,
    plan: SyncPlan,
    inserted: Seq<bool>,
    removed: Seq<bool>,
    next: SyncPlan,
)
    requires
        leads(plan, installed, wanted),
        inserted.len() == plan.insert@.len(),
        removed.len() == plan.remove@.len(),
        leads(next, installed_after(wanted, plan, inserted, removed), wanted),
    ensures
        store::hashes(next.insert@).to_set() == ended(plan.insert@, inserted, false),
        store::hashes(next.remove@).to_set() == ended(plan.remove@, removed, false),
{
    let noted = installed_after(wanted, plan, inserted, removed);
    assert forall|h: Seq<u8>|
        wanted.difference(noted).contains(h) == ended(plan.insert@, inserted, false).contains(h)
            && noted.difference(wanted).contains(h) == ended(plan.remove@, removed, false).contains(
            h,
        ) by {
        lemma_ended(plan.insert@, inserted, h);
        lemma_ended(plan.remove@, removed, h);
        assert(store::hashes(plan.insert@).to_set().contains(h) <==> wanted.contains(h)
            && !installed.contains(h));
        assert(store::hashes(plan.remove@).to_set().contains(h) <==> installed.contains(h)
            && !wanted.contains(h));
    }
    assert(wanted.difference(noted) =~= ended(plan.insert@, inserted, false));
    assert(noted.difference(wanted) =~= ended(plan.remove@, removed, false));
}

/// Once a preload is confirmed its whole closure may run: all of it stands in the kernel's map, in
/// which `installed` stood before. If nothing failed to be put in, it is confirmed, and the
/// closure of the roots may run as well.
pub proof fn law_preload_is_ready(
    installed: Set<Seq<u8>>,
    closure: Set<Seq<u8>>,
    earlier: Seq<Preload>,
    preload: Preload,
    plan: SyncPlan,
    inserted: Seq<bool>,
    removed: Seq<bool>,
)
    requires
        leads(plan, installed, wanted(closure, earlier.push(preload))),
        inserted.len() == plan.insert@.len(),
        removed.len() == plan.remove@.len(),
    ensures
        ({
            let map = map_after(installed, plan, inserted, removed);
            let answer = confirmation(preload, map, successes(inserted));
            &&& answer is Ok ==> preload.hashes@.subset_of(map)
            &&& all_succeeded(inserted) ==> answer is Ok && closure.subset_of(map)
        }),
{
    if all_succeeded(inserted) {
        let all = earlier.push(preload);
        law_map_mirrored(installed, wanted(closure, all), plan, inserted, removed);
        assert(ended(plan.insert@, inserted, false) =~= Set::empty());
        assert(all[earlier.len() as int] == preload);
    }
}

/// A preload is held until the closure catches up with it or its time runs out, and no longer.
pub proof fn law_preload_is_held(
    preloads: Seq<Preload>,
    closure: Set<Seq<u8>>,
    now: u128,
    preload: Preload,
)
    requires
        preloads.contains(preload),
    ensures
        kept(preloads, closure, now).contains(preload) <==> !preload.hashes@.subset_of(closure)
            && now < preload.expires,
{
    let pred = |p: Preload| fate(p, closure, now) is None;
    let i = choose|i: int| 0 <= i < preloads.len() && preloads[i] == preload;
    if pred(preload) {
        preloads.lemma_filter_contains(pred, i);
    }
    if kept(preloads, closure, now).contains(preload) {
        let k = choose|k: int|
            0 <= k < kept(preloads, closure, now).len() && kept(preloads, closure, now)[k]
                == preload;
        preloads.lemma_filter_pred(pred, k);
    }
}

/// Dropping preloads takes nothing away but what only expired ones allowed; in particular an
/// activation takes nothing away.
pub proof fn law_only_expiry_takes_away(
    preloads: Seq<Preload>,
    closure: Set<Seq<u8>>,
    now: u128,
    hash: Seq<u8>,
    i: int,
)
    requires
        wanted(closure, preloads).contains(hash),
        !wanted(closure, kept(preloads, closure, now)).contains(hash),
        0 <= i < preloads.len(),
        preloads[i].hashes@.contains(hash),
    ensures
        fate(preloads[i], closure, now) == Some(DropReason::Expired),
{
    let rest = kept(preloads, closure, now);
    if fate(preloads[i], closure, now) is None {
        law_preload_is_held(preloads, closure, now, preloads[i]);
        assert(rest.contains(preloads[i]));
        let k = choose|k: int| 0 <= k < rest.len() && rest[k] == preloads[i];
        assert(rest[k].hashes@.contains(hash));
    }
}

/// Once preloads were dropped and every removal of the plan that follows has succeeded, a hash
/// that neither the closure nor a preload still in force allows is not in the kernel's map.
pub proof fn law_dropped_preload_is_gone(
    installed: Set<Seq<u8>>,
    preloads: Seq<Preload>,
    closure: Set<Seq<u8>>,
    now: u128,
    plan: SyncPlan,
    inserted: Seq<bool>,
    removed: Seq<bool>,
    hash: Seq<u8>,
)
    requires
        leads(plan, installed, wanted(closure, kept(preloads, closure, now))),
        inserted.len() == plan.insert@.len(),
        removed.len() == plan.remove@.len(),
        all_succeeded(removed),
        !closure.contains(hash),
        forall|i: int|
            0 <= i < preloads.len() && (#[trigger] preloads[i]).hashes@.contains(hash)
                ==> preloads[i].expires <= now,
    ensures
        !map_after(installed, plan, inserted, removed).contains(hash),
{
    let rest = kept(preloads, closure, now);
    law_map_mirrored(installed, wanted(closure, rest), plan, inserted, removed);
    assert(ended(plan.remove@, removed, false) =~= Set::empty());
    if preloaded(rest, hash) {
        let k = choose|k: int| 0 <= k < rest.len() && #[trigger] rest[k].hashes@.contains(hash);
        preloads.lemma_filter_pred(|p: Preload| fate(p, closure, now) is None, k);
        assert(rest.contains(rest[k]));
        preloads.lemma_filter_contains_rev(|p: Preload| fate(p, closure, now) is None, rest[k]);
        let i = choose|i: int| 0 <= i < preloads.len() && preloads[i] == rest[k];
        assert(preloads[i].hashes@.contains(hash));
    }
}

/// Waking up when the next preload expires is worth it: by then it is dropped, and every preload
/// that stays expires later.
pub proof fn law_wakes_for_expiry(
    preloads: Seq<Preload>,
    closure: Set<Seq<u8>>,
    soonest: u128,
    now: u128,
)
    requires
        exists|i: int| 0 <= i < preloads.len() && (#[trigger] preloads[i]).expires == soonest,
        soonest <= now,
    ensures
        kept(preloads, closure, now).len() < preloads.len(),
        forall|k: int|
            0 <= k < kept(preloads, closure, now).len() ==> (#[trigger] kept(
                preloads,
                closure,
                now,
            )[k]).expires > now,
{
    let pred = |p: Preload| fate(p, closure, now) is None;
    let i = choose|i: int| 0 <= i < preloads.len() && (#[trigger] preloads[i]).expires == soonest;
    lemma_filter_shorter(preloads, pred, i);
    let rest = kept(preloads, closure, now);
    assert forall|k: int| 0 <= k < rest.len() implies (#[trigger] rest[k]).expires > now by {
        preloads.lemma_filter_pred(pred, k);
    }
}

proof fn lemma_filter_shorter(all: Seq<Preload>, pred: spec_fn(Preload) -> bool, i: int)
    requires
        0 <= i < all.len(),
        !pred(all[i]),
    ensures
        all.filter(pred).len() < all.len(),
    decreases all.len(),
{
    reveal(Seq::filter);
    all.drop_last().lemma_filter_len(pred);
    if i < all.len() - 1 {
        lemma_filter_shorter(all.drop_last(), pred, i);
    }
}

/// The bytes of `/nix/store` and of a path below it, and their components.
proof fn lemma_store_components(rest: Seq<u8>)
    ensures
        ({
            let store = encode_utf8("/nix/store"@);
            let parts = seq![encode_utf8("/"@), encode_utf8("nix"@), encode_utf8("store"@)];
            &&& store.len() == 10
            &&& path::components(store) == parts
            &&& parts.is_prefix_of(path::components(store.push(0x2f) + rest))
        }),
{
    reveal_strlit("/nix/store");
    reveal_strlit("/");
    reveal_strlit("nix");
    reveal_strlit("store");
    assert(is_ascii_chars("/nix/store"@) && is_ascii_chars("/"@) && is_ascii_chars("nix"@)
        && is_ascii_chars("store"@));
    is_ascii_chars_encode_utf8("/nix/store"@);
    is_ascii_chars_encode_utf8("/"@);
    is_ascii_chars_encode_utf8("nix"@);
    is_ascii_chars_encode_utf8("store"@);
    let whole = encode_utf8("/nix/store"@);
    let root = encode_utf8("/"@);
    let nix = encode_utf8("nix"@);
    let store = encode_utf8("store"@);
    assert forall|i: int| 0 <= i < 10 implies whole[i] == "/nix/store"@[i] as u8 by {}
    assert forall|i: int| 0 <= i < 3 implies nix[i] == "nix"@[i] as u8 by {}
    assert forall|i: int| 0 <= i < 5 implies store[i] == "store"@[i] as u8 by {}
    assert(root =~= seq![0x2fu8]);
    assert(nix =~= seq![0x6eu8, 0x69u8, 0x78u8]);
    assert(store =~= seq![0x73u8, 0x74u8, 0x6fu8, 0x72u8, 0x65u8]);
    let slash = seq![0x2fu8];
    assert(nix.len() == 3 && store.len() == 5);
    path::law_components(Seq::empty(), nix);
    path::law_components(slash + nix, store);
    assert(whole =~= slash + nix + slash + store);
    let parts = seq![root, nix, store];
    assert(path::components(whole) =~= parts);
    path::lemma_components_below(whole, rest);
}

/// What is in the store can be preloaded, and nothing else: every path that is `/nix/store` and a
/// slash and anything behind it is, and so is `/nix/store` itself. A path that is in the store
/// has the root directory, `nix` and `store` for its first components.
pub proof fn law_store_paths(rest: Seq<char>, path: Seq<char>)
    ensures
        is_store_path("/nix/store"@),
        is_store_path("/nix/store"@ + "/"@ + rest),
        is_store_path(path) <==> {
            let parts = path::components(encode_utf8(path));
            &&& parts.len() >= 3
            &&& parts[0] == encode_utf8("/"@)
            &&& parts[1] == encode_utf8("nix"@)
            &&& parts[2] == encode_utf8("store"@)
        },
        not_a_store_path(path) == path + " is not a store path"@,
{
    let store = "/nix/store"@;
    let parts = seq![encode_utf8("/"@), encode_utf8("nix"@), encode_utf8("store"@)];
    lemma_store_components(encode_utf8(rest));
    reveal_strlit("/");
    assert(is_ascii_chars("/"@));
    is_ascii_chars_encode_utf8("/"@);
    assert(encode_utf8("/"@) =~= seq![0x2fu8]) by {
        assert(encode_utf8("/"@)[0] == "/"@[0] as u8);
    }
    text::lemma_encode_concat(store, "/"@);
    text::lemma_encode_concat(store + "/"@, rest);
    assert(encode_utf8(store + "/"@ + rest) =~= encode_utf8(store).push(0x2f) + encode_utf8(rest));
    let mine = path::components(encode_utf8(path));
    if is_store_path(path) {
        assert(parts == mine.subrange(0, 3));
        assert(mine.subrange(0, 3)[0] == mine[0] && mine.subrange(0, 3)[1] == mine[1]
            && mine.subrange(0, 3)[2] == mine[2]);
    }
    if mine.len() >= 3 && mine[0] == parts[0] && mine[1] == parts[1] && mine[2] == parts[2] {
        assert(parts =~= mine.subrange(0, 3));
    }
}

/// The kernel's map is to hold the closure and every preload, and nothing else.
pub proof fn law_wanted(closure: Set<Seq<u8>>, preloads: Seq<Preload>, hash: Seq<u8>)
    ensures
        wanted(closure, preloads).contains(hash) <==> closure.contains(hash) || exists|i: int|
            0 <= i < preloads.len() && (#[trigger] preloads[i]).hashes@.contains(hash),
{
}

/// A plan puts in exactly what is wanted and not installed, takes out exactly what is installed
/// and not wanted, and names nothing twice.
pub proof fn law_plan(plan: SyncPlan, installed: Set<Seq<u8>>, wanted: Set<Seq<u8>>, hash: Seq<u8>)
    requires
        leads(plan, installed, wanted),
    ensures
        (exists|k: int| 0 <= k < plan.insert@.len() && #[trigger] plan.insert@[k]@ == hash)
            <==> wanted.contains(hash) && !installed.contains(hash),
        (exists|k: int| 0 <= k < plan.remove@.len() && #[trigger] plan.remove@[k]@ == hash)
            <==> installed.contains(hash) && !wanted.contains(hash),
        forall|k: int, l: int|
            0 <= k < l < plan.insert@.len() ==> (#[trigger] plan.insert@[k])@ != (
            #[trigger] plan.insert@[l])@,
        forall|k: int, l: int|
            0 <= k < l < plan.remove@.len() ==> (#[trigger] plan.remove@[k])@ != (
            #[trigger] plan.remove@[l])@,
{
    let ins = store::hashes(plan.insert@);
    let rem = store::hashes(plan.remove@);
    store::law_hashes(plan.insert@);
    store::law_hashes(plan.remove@);
    if wanted.contains(hash) && !installed.contains(hash) {
        assert(ins.to_set().contains(hash));
        let k = choose|k: int| 0 <= k < ins.len() && ins[k] == hash;
        assert(plan.insert@[k]@ == hash);
    }
    if exists|k: int| 0 <= k < plan.insert@.len() && #[trigger] plan.insert@[k]@ == hash {
        let k = choose|k: int| 0 <= k < plan.insert@.len() && #[trigger] plan.insert@[k]@ == hash;
        assert(ins[k] == hash);
        assert(ins.to_set().contains(hash));
    }
    if installed.contains(hash) && !wanted.contains(hash) {
        assert(rem.to_set().contains(hash));
        let k = choose|k: int| 0 <= k < rem.len() && rem[k] == hash;
        assert(plan.remove@[k]@ == hash);
    }
    if exists|k: int| 0 <= k < plan.remove@.len() && #[trigger] plan.remove@[k]@ == hash {
        let k = choose|k: int| 0 <= k < plan.remove@.len() && #[trigger] plan.remove@[k]@ == hash;
        assert(rem[k] == hash);
        assert(rem.to_set().contains(hash));
    }
    assert forall|k: int, l: int| 0 <= k < l < plan.insert@.len() implies (
    #[trigger] plan.insert@[k])@ != (#[trigger] plan.insert@[l])@ by {
        assert(ins[k] != ins[l]);
    }
    assert forall|k: int, l: int| 0 <= k < l < plan.remove@.len() implies (
    #[trigger] plan.remove@[k])@ != (#[trigger] plan.remove@[l])@ by {
        assert(rem[k] != rem[l]);
    }
}

/// What is noted as installed after a plan: a hash that is wanted, unless putting it in failed,
/// and a hash that could not be taken out. What the map holds: an insertion that succeeded puts a
/// hash in, a removal that succeeded takes it out, and nothing else changes.
pub proof fn law_after_plan(
    installed: Set<Seq<u8>>,
    wanted: Set<Seq<u8>>,
    plan: SyncPlan,
    inserted: Seq<bool>,
    removed: Seq<bool>,
    hash: Seq<u8>,
)
    requires
        inserted.len() == plan.insert@.len(),
        removed.len() == plan.remove@.len(),
    ensures
        ({
            let put_in = exists|k: int|
                0 <= k < plan.insert@.len() && #[trigger] plan.insert@[k]@ == hash && inserted[k];
            let not_put_in = exists|k: int|
                0 <= k < plan.insert@.len() && #[trigger] plan.insert@[k]@ == hash && !inserted[k];
            let taken_out = exists|k: int|
                0 <= k < plan.remove@.len() && #[trigger] plan.remove@[k]@ == hash && removed[k];
            let not_taken_out = exists|k: int|
                0 <= k < plan.remove@.len() && #[trigger] plan.remove@[k]@ == hash && !removed[k];
            &&& installed_after(wanted, plan, inserted, removed).contains(hash) <==> (
            wanted.contains(hash) && !not_put_in) || not_taken_out
            &&& map_after(installed, plan, inserted, removed).contains(hash) <==> (
            installed.contains(hash) || put_in) && !taken_out
        }),
{
}

/// Each operation that succeeded counts once, and no other counts.
pub proof fn law_successes(outcomes: Seq<bool>)
    ensures
        successes(Seq::<bool>::empty()) == 0,
        successes(outcomes.push(true)) == successes(outcomes) + 1,
        successes(outcomes.push(false)) == successes(outcomes),
        all_succeeded(outcomes) <==> forall|i: int| 0 <= i < outcomes.len() ==> outcomes[i] == true,
{
    reveal(Seq::filter);
    outcomes.lemma_filter_push(true, |ok: bool| ok);
    outcomes.lemma_filter_push(false, |ok: bool| ok);
    if forall|i: int| 0 <= i < outcomes.len() ==> outcomes[i] == true {
        assert(all_succeeded(outcomes));
    }
}

/// Preloads are dropped one by one, whatever the others are, and those that stay keep their
/// order. One is dropped as activated if the closure has all its hashes, and otherwise as expired
/// if its time has come.
pub proof fn law_dropping(
    preloads: Seq<Preload>,
    closure: Set<Seq<u8>>,
    now: u128,
    preload: Preload,
)
    ensures
        kept(Seq::<Preload>::empty(), closure, now) == Seq::<Preload>::empty(),
        dropped(Seq::<Preload>::empty(), closure, now) == Seq::<(Seq<char>, DropReason)>::empty(),
        ({
            let covered = forall|hash: Seq<u8>| #[trigger]
                preload.hashes@.contains(hash) ==> closure.contains(hash);
            let more = preloads.push(preload);
            &&& kept(more, closure, now) == if !covered && now < preload.expires {
                kept(preloads, closure, now).push(preload)
            } else {
                kept(preloads, closure, now)
            }
            &&& dropped(more, closure, now) == if covered {
                dropped(preloads, closure, now).push((preload.path@, DropReason::Activated))
            } else if preload.expires <= now {
                dropped(preloads, closure, now).push((preload.path@, DropReason::Expired))
            } else {
                dropped(preloads, closure, now)
            }
        }),
        DropReason::Activated.text() == "activated"@,
        DropReason::Expired.text() == "expired without being activated"@,
{
    reveal(Seq::filter);
    let more = preloads.push(preload);
    assert(more.drop_last() =~= preloads);
    let covered = forall|hash: Seq<u8>| #[trigger]
        preload.hashes@.contains(hash) ==> closure.contains(hash);
    assert(covered <==> preload.hashes@.subset_of(closure));
    preloads.lemma_filter_push(preload, |p: Preload| fate(p, closure, now) is None);
}

/// A preload takes the place of those of the same path, by components, and of no others.
pub proof fn law_replacing(preloads: Seq<Preload>, preload: Preload, path: Seq<char>)
    ensures
        others(Seq::<Preload>::empty(), path) == Seq::<Preload>::empty(),
        others(preloads.push(preload), path) == if path::components(encode_utf8(preload.path@))
            == path::components(encode_utf8(path)) {
            others(preloads, path)
        } else {
            others(preloads, path).push(preload)
        },
{
    reveal(Seq::filter);
    preloads.lemma_filter_push(preload, |p: Preload| path_key(p.path@) != path_key(path));
}

/// A preload is confirmed, with the count, if and only if each of its hashes is in the map. One
/// that is not is refused by name.
pub proof fn law_confirmed(preload: Preload, map: Set<Seq<u8>>, added: nat)
    ensures
        (forall|hash: Seq<u8>| #[trigger] preload.hashes@.contains(hash) ==> map.contains(hash))
            ==> confirmation(preload, map, added) == Ok::<nat, Seq<char>>(added),
        (exists|hash: Seq<u8>| #[trigger] preload.hashes@.contains(hash) && !map.contains(hash))
            ==> confirmation(preload, map, added) == Err::<nat, Seq<char>>(
            preload.path@ + " could not be allowlisted completely (map full?)"@,
        ),
{
}

/// No two preloads of an allowlist have the same path, by components.
pub proof fn law_one_preload_per_path(list: Allowlist, i: int, j: int)
    requires
        list.wf(),
        0 <= i < j < list.preloads@.len(),
    ensures
        path::components(encode_utf8(list.preloads@[i].path@)) != path::components(
            encode_utf8(list.preloads@[j].path@),
        ),
{
}

/// What an allowlist wants in the map, and what is told of a dropped preload.
pub proof fn law_views(list: Allowlist, gone: Dropped, hash: Seq<u8>)
    ensures
        list.wanted().contains(hash) <==> list.closure@.contains(hash) || exists|i: int|
            0 <= i < list.preloads@.len() && (#[trigger] list.preloads@[i]).hashes@.contains(hash),
        gone@ == (gone.path@, gone.reason),
{
}

} // verus!
