use closured::allowlist::{check_preload, Allowlist, DropReason};
use closured::store::{StoreHash, StoreSet};

fn h(n: u8) -> StoreHash {
    [n; 32]
}

fn set(items: &[u8]) -> StoreSet {
    let mut s = StoreSet::new();
    for &n in items {
        s.insert(h(n));
    }
    s
}

fn sync_all(list: &mut Allowlist) -> (usize, usize) {
    let plan = list.plan_sync();
    let inserted = vec![true; plan.insert.len()];
    let removed = vec![true; plan.remove.len()];
    list.sync(&plan, &inserted, &removed)
}

fn preload(list: &mut Allowlist, path: &str, items: &[u8], now: u128, ttl: u128) {
    let plan = list.add_preload(path.to_string(), Ok(set(items)), now, ttl).unwrap();
    let inserted = vec![true; plan.insert.len()];
    let removed = vec![true; plan.remove.len()];
    list.sync(&plan, &inserted, &removed);
}

#[test]
fn first_sync_installs_the_closure() {
    let mut list = Allowlist::new(set(&[1, 2, 3]));
    assert_eq!(sync_all(&mut list), (3, 0));
    assert_eq!(list.installed.to_vec(), vec![h(1), h(2), h(3)]);
    assert_eq!(sync_all(&mut list), (0, 0));
}

#[test]
fn sync_moves_to_what_is_wanted() {
    let mut list = Allowlist::new(set(&[1, 2]));
    sync_all(&mut list);
    list.closure = set(&[2, 3, 4]);
    assert_eq!(sync_all(&mut list), (2, 1));
    assert_eq!(list.installed.to_vec(), vec![h(2), h(3), h(4)]);
}

#[test]
fn failed_operations_are_noted_and_retried() {
    let mut list = Allowlist::new(set(&[1, 2]));
    sync_all(&mut list);
    list.closure = set(&[3, 4]);
    let plan = list.plan_sync();
    assert_eq!(plan.insert, vec![h(3), h(4)]);
    assert_eq!(plan.remove, vec![h(1), h(2)]);
    assert_eq!(list.sync(&plan, &[true, false], &[false, true]), (1, 1));
    assert_eq!(list.installed.to_vec(), vec![h(1), h(3)]);
    let next = list.plan_sync();
    assert_eq!(next.insert, vec![h(4)]);
    assert_eq!(next.remove, vec![h(1)]);
}

#[test]
fn preload_is_installed_beside_the_closure() {
    let mut list = Allowlist::new(set(&[1, 2]));
    sync_all(&mut list);
    let plan = list
        .add_preload("/nix/store/x-system".to_string(), Ok(set(&[2, 3])), 10, 900)
        .unwrap();
    assert_eq!(plan.insert, vec![h(3)]);
    assert!(plan.remove.is_empty());
    assert_eq!(list.sync(&plan, &[true], &[]), (1, 0));
    assert_eq!(list.installed.to_vec(), vec![h(1), h(2), h(3)]);
    assert_eq!(list.preloads[0].expires, 910);
    assert_eq!(list.soonest_expiry(), Some(910));
}

#[test]
fn preload_is_confirmed_once_it_is_installed() {
    let mut list = Allowlist::new(set(&[1, 2]));
    sync_all(&mut list);
    let path = "/nix/store/x-system".to_string();
    let plan = list.add_preload(path, Ok(set(&[2, 3, 4])), 10, 900).unwrap();
    assert_eq!(plan.insert, vec![h(3), h(4)]);
    assert_eq!(list.confirm_preload(&plan, &[true, true], &[]), Ok(2));
    assert_eq!(list.installed.to_vec(), vec![h(1), h(2), h(3), h(4)]);
}

#[test]
fn preload_that_is_not_all_installed_is_refused() {
    let mut list = Allowlist::new(set(&[1]));
    sync_all(&mut list);
    let plan = list.add_preload("/nix/store/x".to_string(), Ok(set(&[2, 3])), 10, 900).unwrap();
    assert_eq!(
        list.confirm_preload(&plan, &[true, false], &[]),
        Err("/nix/store/x could not be allowlisted completely (map full?)".to_string())
    );
    assert_eq!(list.installed.to_vec(), vec![h(1), h(2)]);
    assert_eq!(list.preloads.len(), 1);
    let next = list.plan_sync();
    assert_eq!(next.insert, vec![h(3)]);
    // asked for once more, with room in the map
    let plan = list.add_preload("/nix/store/x".to_string(), Ok(set(&[2, 3])), 20, 900).unwrap();
    assert_eq!(list.confirm_preload(&plan, &[true], &[]), Ok(1));
}

#[test]
fn what_else_fails_does_not_refuse_a_preload() {
    let mut list = Allowlist::new(set(&[1]));
    let plan = list.add_preload("/nix/store/x".to_string(), Ok(set(&[2])), 0, 900).unwrap();
    assert_eq!(plan.insert, vec![h(1), h(2)]);
    assert_eq!(list.confirm_preload(&plan, &[false, true], &[]), Ok(1));
}

#[test]
fn only_store_paths_are_preloaded() {
    assert!(check_preload("/nix/store/x").is_ok());
    assert!(check_preload("/nix//store/./x/").is_ok());
    assert!(check_preload("/nix/store").is_ok());
    for path in ["/nix/storex", "/tmp/nix/store/x", "nix/store/x", "", "./nix/store"] {
        let e = format!("{path} is not a store path");
        assert_eq!(check_preload(path), Err(e.clone()));
        let mut list = Allowlist::new(set(&[1]));
        let r = list.add_preload(path.to_string(), Ok(set(&[2])), 0, 1);
        assert_eq!(r.err(), Some(e));
        assert!(list.preloads.is_empty());
    }
}

#[test]
fn failed_gathering_refuses_the_preload() {
    let mut list = Allowlist::new(set(&[1]));
    let r = list.add_preload("/nix/store/x".to_string(), Err("no such path".to_string()), 0, 1);
    assert_eq!(r.err(), Some("no such path".to_string()));
    assert!(list.preloads.is_empty());
    assert_eq!(list.soonest_expiry(), None);
}

#[test]
fn preloading_a_path_again_replaces_it() {
    let mut list = Allowlist::new(set(&[]));
    preload(&mut list, "/nix/store/x", &[1, 2], 0, 100);
    preload(&mut list, "/nix/store/y", &[5], 1, 100);
    preload(&mut list, "/nix/store//x/", &[2, 3], 50, 100);
    assert_eq!(list.preloads.len(), 2);
    assert_eq!(list.preloads[0].path, "/nix/store/y");
    assert_eq!(list.preloads[1].path, "/nix/store//x/");
    assert_eq!(list.preloads[1].expires, 150);
    assert_eq!(list.installed.to_vec(), vec![h(2), h(3), h(5)]);
    assert_eq!(list.soonest_expiry(), Some(101));
}

#[test]
fn activated_preloads_are_dropped() {
    let mut list = Allowlist::new(set(&[1]));
    preload(&mut list, "/nix/store/x", &[1, 2], 0, 100);
    list.closure = set(&[1, 2, 3]);
    let dropped = list.drop_covered_and_expired(5);
    assert_eq!(dropped.len(), 1);
    assert_eq!(dropped[0].path, "/nix/store/x");
    assert_eq!(dropped[0].reason, DropReason::Activated);
    assert_eq!(dropped[0].reason.as_str(), "activated");
    assert!(list.preloads.is_empty());
    assert_eq!(sync_all(&mut list), (1, 0));
}

#[test]
fn abandoned_preloads_expire() {
    let mut list = Allowlist::new(set(&[1]));
    preload(&mut list, "/nix/store/x", &[2], 0, 100);
    preload(&mut list, "/nix/store/y", &[3], 50, 100);
    assert!(list.drop_covered_and_expired(99).is_empty());
    let dropped = list.drop_covered_and_expired(100);
    assert_eq!(dropped.len(), 1);
    assert_eq!(dropped[0].reason, DropReason::Expired);
    assert_eq!(dropped[0].reason.as_str(), "expired without being activated");
    assert_eq!(list.preloads.len(), 1);
    assert_eq!(sync_all(&mut list), (0, 1));
    assert_eq!(list.installed.to_vec(), vec![h(1), h(3)]);
}

#[test]
fn covered_counts_before_expired() {
    let mut list = Allowlist::new(set(&[1]));
    preload(&mut list, "/nix/store/x", &[1], 0, 0);
    let dropped = list.drop_covered_and_expired(1000);
    assert_eq!(dropped[0].reason, DropReason::Activated);
}
