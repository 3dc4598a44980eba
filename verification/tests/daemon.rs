use closured::allowlist::{Allowlist, DropReason};
use closured::daemon::{
    add_requisites, closure_roots, gather_closure, lacks_privilege, listing_failure_line,
    unique_targets, watched_dirs, Daemon, Listing, Refresh, DEFAULT_ROOTS,
};
use closured::store::StoreSet;

fn set(items: &[u8]) -> StoreSet {
    let mut s = StoreSet::new();
    for &n in items {
        s.insert([n; 32]);
    }
    s
}

fn p(s: &str) -> Vec<u8> {
    s.as_bytes().to_vec()
}

#[test]
fn privileges_are_missing_for_two_errors() {
    assert!(lacks_privilege(&[None, Some(1)]));
    assert!(lacks_privilege(&[Some(13)]));
    assert!(!lacks_privilege(&[]));
    assert!(!lacks_privilege(&[None, Some(2), Some(12)]));
}

#[test]
fn roots_that_were_asked_for() {
    let asked = vec![p("/a"), p("/a"), vec![0xff]];
    assert_eq!(closure_roots(&asked, [true, true, true]), asked);
}

#[test]
fn default_roots_that_are_there() {
    assert_eq!(
        DEFAULT_ROOTS,
        ["/run/current-system", "/run/booted-system", "/nix/var/nix/profiles/system"]
    );
    assert_eq!(
        closure_roots(&vec![], [true, false, true]),
        vec![p("/run/current-system"), p("/nix/var/nix/profiles/system")]
    );
    assert!(closure_roots(&vec![], [false, false, false]).is_empty());
}

#[test]
fn targets_are_listed_once() {
    let roots = vec![p("/run/a"), p("/run/b"), p("/run/c"), p("/run/c/")];
    let canonical = vec![Some(p("/nix/store/x")), Some(p("/nix/store/x")), None, None];
    assert_eq!(unique_targets(&roots, &canonical), vec![p("/nix/store/x"), p("/run/c")]);
}

#[test]
fn requisites_are_added() {
    let mut closure = set(&[b'z']);
    let listing = format!("/nix/store/{}-a\n/nix/store/{}-b\n", "a".repeat(32), "b".repeat(32));
    let r = add_requisites(&mut closure, b"/run/current-system", true, listing.as_bytes(), b"noise");
    assert_eq!(r, Ok(()));
    assert_eq!(closure.to_vec(), vec![[b'a'; 32], [b'b'; 32], [b'z'; 32]]);
}

#[test]
fn requisites_of_an_unlistable_root() {
    let mut closure = set(&[1]);
    let listing = format!("/nix/store/{}-a\n", "a".repeat(32));
    let r = add_requisites(&mut closure, b"/r\xff", false, listing.as_bytes(), b"error: no\xfe\n");
    assert_eq!(
        r,
        Err("nix-store --query --requisites /r\u{fffd} failed: error: no\u{fffd}".to_string())
    );
    assert_eq!(closure.to_vec(), vec![[1; 32]]);
    assert_eq!(
        listing_failure_line("/x", "  a\nb \n"),
        "nix-store --query --requisites /x failed: a\nb"
    );
}

fn listing(root: &str, success: bool, letters: &str, stderr: &str) -> Listing {
    let mut stdout = String::new();
    for c in letters.chars() {
        stdout.push_str(&format!("/nix/store/{}-x\n", c.to_string().repeat(32)));
    }
    Listing { root: p(root), success, stdout: p(&stdout), stderr: p(stderr) }
}

#[test]
fn closures_of_all_roots_are_gathered() {
    let ab = listing("/a", true, "ab", "");
    let bc = listing("/b", true, "bc", "noise");
    let Ok(closure) = gather_closure(&vec![ab, bc]) else {
        panic!("not gathered");
    };
    assert_eq!(closure.to_vec(), vec![[b'a'; 32], [b'b'; 32], [b'c'; 32]]);

    let bc = listing("/b", true, "bc", "");
    let ab = listing("/a", true, "ab", "");
    let Ok(closure) = gather_closure(&vec![bc, ab]) else {
        panic!("not gathered");
    };
    assert_eq!(closure.to_vec(), vec![[b'a'; 32], [b'b'; 32], [b'c'; 32]]);

    let Ok(closure) = gather_closure(&vec![]) else {
        panic!("not gathered");
    };
    assert_eq!(closure.len(), 0);
}

#[test]
fn first_failing_root_is_told() {
    let listings = vec![
        listing("/a", true, "a", ""),
        listing("/b", false, "b", " path is not valid\n"),
        listing("/c", false, "", "unseen"),
    ];
    let Err(e) = gather_closure(&listings) else {
        panic!("gathered");
    };
    assert_eq!(e, "nix-store --query --requisites /b failed: path is not valid");
}

fn daemon() -> Daemon {
    let mut allowlist = Allowlist::new(set(&[1, 2]));
    let plan = allowlist.plan_sync();
    allowlist.sync(&plan, &[true, true], &[]);
    let plan = allowlist.add_preload("/nix/store/n".to_string(), Ok(set(&[2, 3])), 0, 100).unwrap();
    allowlist.sync(&plan, &[true], &[]);
    Daemon { allowlist, targets: vec![Some(p("/nix/store/o")), None] }
}

#[test]
fn moved_roots_are_noticed() {
    let d = daemon();
    assert!(!d.targets_changed(&vec![Some(p("/nix/store/o")), None]));
    assert!(!d.targets_changed(&vec![Some(p("/nix/store/o/")), None]));
    assert!(d.targets_changed(&vec![Some(p("/nix/store/n")), None]));
    assert!(d.targets_changed(&vec![Some(p("/nix/store/o")), Some(p("/x"))]));
    assert!(d.targets_changed(&vec![None, None]));
    assert!(d.targets_changed(&vec![Some(p("/nix/store/o"))]));
}

#[test]
fn quiet_refresh_does_nothing() {
    let mut d = daemon();
    let targets = vec![Some(p("/nix/store/o")), None];
    match d.refresh(targets, None, 99) {
        Refresh::Done(dropped, None) => assert!(dropped.is_empty()),
        _ => panic!("something was done"),
    }
    assert_eq!(d.allowlist.preloads.len(), 1);
}

#[test]
fn activation_consumes_the_preload() {
    let mut d = daemon();
    let targets = vec![Some(p("/nix/store/n")), None];
    match d.refresh(targets.clone(), Some(Ok(set(&[2, 3]))), 50) {
        Refresh::Done(dropped, Some(plan)) => {
            assert_eq!(dropped[0].reason, DropReason::Activated);
            assert!(plan.insert.is_empty());
            assert_eq!(plan.remove, vec![[1; 32]]);
        }
        _ => panic!("no plan"),
    }
    assert_eq!(d.targets, targets);
    assert!(d.allowlist.preloads.is_empty());
    assert_eq!(d.allowlist.closure.to_vec(), vec![[2; 32], [3; 32]]);
}

#[test]
fn expiry_brings_a_plan() {
    let mut d = daemon();
    match d.refresh(vec![Some(p("/nix/store/o")), None], None, 100) {
        Refresh::Done(dropped, Some(plan)) => {
            assert_eq!(dropped[0].reason, DropReason::Expired);
            assert_eq!(plan.remove, vec![[3; 32]]);
        }
        _ => panic!("no plan"),
    }
}

#[test]
fn failed_refresh_is_retried() {
    let mut d = daemon();
    let targets = vec![None, None];
    match d.refresh(targets.clone(), Some(Err("nix-store is gone".to_string())), 99) {
        Refresh::Retry(e, dropped, None) => {
            assert_eq!(e, "nix-store is gone");
            assert!(dropped.is_empty());
        }
        _ => panic!("not retried"),
    }
    assert!(d.targets_changed(&targets));
    assert_eq!(d.allowlist.preloads.len(), 1);
    assert_eq!(d.allowlist.closure.to_vec(), vec![[1; 32], [2; 32]]);
}

#[test]
fn preloads_expire_though_refreshing_fails() {
    let mut d = daemon();
    let targets = vec![None, None];
    match d.refresh(targets.clone(), Some(Err("nix-store is gone".to_string())), 1000) {
        Refresh::Retry(e, dropped, Some(plan)) => {
            assert_eq!(e, "nix-store is gone");
            assert_eq!(dropped.len(), 1);
            assert_eq!(dropped[0].path, "/nix/store/n");
            assert_eq!(dropped[0].reason, DropReason::Expired);
            assert!(plan.insert.is_empty());
            assert_eq!(plan.remove, vec![[3; 32]]);
            assert_eq!(d.allowlist.sync(&plan, &[], &[true]), (0, 1));
        }
        _ => panic!("not retried, or no plan"),
    }
    assert!(d.targets_changed(&targets));
    assert!(d.allowlist.preloads.is_empty());
    assert_eq!(d.allowlist.installed.to_vec(), vec![[1; 32], [2; 32]]);
}

#[test]
fn directories_of_roots_are_watched_once() {
    let roots = vec![
        p("/run/current-system"),
        p("/run//booted-system/"),
        p("/nix/var/nix/profiles/system"),
        p("/"),
        p("result"),
    ];
    assert_eq!(watched_dirs(&roots), vec![p("/run"), p("/nix/var/nix/profiles"), p("")]);
    assert!(watched_dirs(&vec![]).is_empty());
}
