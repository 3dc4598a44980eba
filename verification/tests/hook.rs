use closured::event::{
    decode_event, Action, ByteOrder, Classification, ExecEvent, EVENT_LEN, FLAG_TMPFS,
    FLAG_UNLINKED,
};
use closured::hook::{
    bprm_check_security, classify, inode_flags, try_bprm_check_security, ExecContext, TMPFS_MAGIC,
};
use closured::policy::{policy_codes, policy_table, PolicyArgs};
use closured::store::StoreSet;

const A: &str = "aaaaaaaaaaaaaaaaaaaaaaaaaaaaaaaa";
const EXT4_MAGIC: u64 = 0xef53;

fn buffer(path: &str) -> [u8; 256] {
    let mut b = [0u8; 256];
    b[..path.len()].copy_from_slice(path.as_bytes());
    b
}

fn allowed() -> StoreSet {
    let mut set = StoreSet::new();
    set.insert(A.as_bytes().try_into().unwrap());
    set
}

fn context(path: &str) -> ExecContext {
    let mut comm = [0u8; 16];
    comm[..2].copy_from_slice(b"sh");
    ExecContext {
        pid_tgid: (77 << 32) | 78,
        uid_gid: (100 << 32) | 1000,
        comm: Some(comm),
        path_code: path.len() as i32,
        path: buffer(path),
        nlink: Ok(1),
        magic: Ok(EXT4_MAGIC),
    }
}

fn codes(enforce: bool) -> [u8; 6] {
    policy_codes(&policy_table(&PolicyArgs { all: false, enforce, policy: vec![] }))
}

#[test]
fn flags_of_inodes() {
    assert_eq!(inode_flags(Ok(1), Ok(EXT4_MAGIC)), Ok(0));
    assert_eq!(inode_flags(Ok(0), Ok(EXT4_MAGIC)), Ok(FLAG_UNLINKED));
    assert_eq!(inode_flags(Ok(2), Ok(TMPFS_MAGIC)), Ok(FLAG_TMPFS));
    assert_eq!(inode_flags(Ok(0), Ok(TMPFS_MAGIC)), Ok(FLAG_UNLINKED | FLAG_TMPFS));
    assert_eq!(inode_flags(Err(-14), Ok(TMPFS_MAGIC)), Err(-14));
    assert_eq!(inode_flags(Ok(0), Err(-22)), Err(-22));
    assert_eq!(inode_flags(Err(-14), Err(-22)), Err(-14));
}

#[test]
fn classification_by_path() {
    let set = allowed();
    let class = |path: &str| classify(&buffer(path), 0, &set);
    assert_eq!(class(&format!("/nix/store/{A}-hello/bin/hello")), Classification::Closure);
    assert_eq!(class(&format!("/nix/store/{}b-hello/bin/hello", &A[1..])), Classification::Store);
    assert_eq!(class("/nix/store/short"), Classification::Store);
    assert_eq!(class("/run/wrappers/bin/sudo"), Classification::Wrapper);
    assert_eq!(class("/run/wrappers"), Classification::Outside);
    assert_eq!(class("/nix/stor"), Classification::Outside);
    assert_eq!(class("/tmp/x"), Classification::Outside);
    assert_eq!(class(""), Classification::Outside);
}

#[test]
fn classification_by_flags() {
    let set = allowed();
    let path = buffer(&format!("/nix/store/{A}-hello/bin/hello"));
    assert_eq!(classify(&path, FLAG_UNLINKED, &set), Classification::Deleted);
    assert_eq!(classify(&path, FLAG_UNLINKED | FLAG_TMPFS, &set), Classification::Memory);
    assert_eq!(classify(&path, FLAG_TMPFS, &set), Classification::Closure);
}

#[test]
fn closure_runs_in_silence() {
    let ctx = context(&format!("/nix/store/{A}-hello/bin/hello"));
    let verdict = bprm_check_security(&ctx, &allowed(), &codes(true));
    assert_eq!(verdict.code, 0);
    assert!(verdict.report.is_none());
}

#[test]
fn outsiders_are_audited_or_denied() {
    let ctx = context("/tmp/x");
    let verdict = bprm_check_security(&ctx, &allowed(), &codes(false));
    assert_eq!(verdict.code, 0);
    let ev = verdict.report.unwrap();
    assert_eq!((ev.pid, ev.uid), (77, 1000));
    assert_eq!(&ev.comm[..3], b"sh\0");
    assert_eq!(ev.path, buffer("/tmp/x"));
    assert_eq!(ev.classification, Classification::Outside.to_u8());
    assert_eq!(ev.action, Action::Audit.to_u8());

    let verdict = bprm_check_security(&ctx, &allowed(), &codes(true));
    assert_eq!(verdict.code, -1);
    assert_eq!(verdict.report.unwrap().action, Action::Deny.to_u8());
}

#[test]
fn wrappers_run_under_enforcement() {
    let verdict = bprm_check_security(&context("/run/wrappers/bin/su"), &allowed(), &codes(true));
    assert_eq!(verdict.code, 0);
    assert_eq!(verdict.report.unwrap().classification, Classification::Wrapper.to_u8());
}

#[test]
fn unlinked_closure_path_is_denied() {
    let mut ctx = context(&format!("/nix/store/{A}-hello/bin/hello"));
    ctx.nlink = Ok(0);
    let verdict = bprm_check_security(&ctx, &allowed(), &codes(true));
    assert_eq!(verdict.code, -1);
    assert_eq!(verdict.report.unwrap().classification, Classification::Deleted.to_u8());
    ctx.magic = Ok(TMPFS_MAGIC);
    let verdict = bprm_check_security(&ctx, &allowed(), &codes(true));
    assert_eq!(verdict.report.unwrap().classification, Classification::Memory.to_u8());
}

#[test]
fn unreadable_inode_counts_as_linked() {
    let mut ctx = context(&format!("/nix/store/{A}-hello/bin/hello"));
    ctx.nlink = Err(-14);
    assert_eq!(bprm_check_security(&ctx, &allowed(), &codes(true)).code, 0);
}

#[test]
fn unreadable_inode_permits() {
    for (nlink, magic) in [(Err(-14), Ok(EXT4_MAGIC)), (Ok(0), Err(-14)), (Err(-1), Err(-2))] {
        let mut ctx = context("/tmp/x");
        ctx.nlink = nlink;
        ctx.magic = magic;
        let verdict = bprm_check_security(&ctx, &allowed(), &codes(true));
        assert_eq!(verdict.code, 0);
        let ev = verdict.report.unwrap();
        assert_eq!(ev.classification, Classification::Outside.to_u8());
        assert_eq!(ev.action, Action::Audit.to_u8());
    }
    // the same exec is blocked once its inode can be read
    assert_eq!(bprm_check_security(&context("/tmp/x"), &allowed(), &codes(true)).code, -1);
}

#[test]
fn unresolved_path_permits() {
    let mut ctx = context("/tmp/x");
    ctx.path_code = -36;
    assert_eq!(try_bprm_check_security(&ctx, &allowed(), &codes(true)).err(), Some(-36));
    let verdict = bprm_check_security(&ctx, &allowed(), &codes(true));
    assert_eq!(verdict.code, 0);
    assert!(verdict.report.is_none());
}

#[test]
fn unreadable_command_name_is_empty() {
    let mut ctx = context("/tmp/x");
    ctx.comm = None;
    let verdict = bprm_check_security(&ctx, &allowed(), &codes(true));
    assert_eq!(verdict.report.unwrap().comm, [0u8; 16]);
}

#[test]
fn unset_policy_reports() {
    let ctx = context(&format!("/nix/store/{A}-hello/bin/hello"));
    let verdict = bprm_check_security(&ctx, &allowed(), &[]);
    assert_eq!(verdict.code, 0);
    assert_eq!(verdict.report.unwrap().action, Action::Audit.to_u8());
}

fn image(ev: &ExecEvent, big: bool) -> Vec<u8> {
    let mut v = Vec::new();
    for n in [ev.pid, ev.uid] {
        v.extend(if big { n.to_be_bytes() } else { n.to_le_bytes() });
    }
    v.extend(ev.comm);
    v.extend(ev.path);
    v.extend([ev.classification, ev.action, 0xaa, 0xbb]);
    v
}

#[test]
fn events_are_read_back() {
    let ev = ExecEvent {
        pid: 0x0102_0304,
        uid: 0xfffe_fdfc,
        comm: *b"0123456789abcdef",
        path: buffer("/tmp/x"),
        classification: 5,
        action: 2,
    };
    for (order, big) in [(ByteOrder::Little, false), (ByteOrder::Big, true)] {
        let mut item = image(&ev, big);
        item.extend(b"/tail");
        let (got, rest) = decode_event(&item, order).unwrap();
        assert_eq!((got.pid, got.uid), (ev.pid, ev.uid));
        assert_eq!(got.comm, ev.comm);
        assert_eq!(got.path, ev.path);
        assert_eq!((got.classification, got.action), (5, 2));
        assert_eq!(rest, b"/tail");
        assert!(decode_event(&item[..EVENT_LEN - 1], order).is_none());
        assert!(decode_event(&item[..EVENT_LEN], order).unwrap().1.is_empty());
    }
}
