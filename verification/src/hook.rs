//! The verdict on one exec, from what the kernel says about it.
use crate::event::{
    Action, Classification, ExecEvent, COMM_LEN, FLAG_TMPFS, FLAG_UNLINKED, PATH_LEN,
};
use crate::policy;
use crate::store::{self, StoreSet, STORE_PREFIX};
use vstd::prelude::*;
use vstd::string::*;
use vstd::utf8::*;

verus! {

/// "Operation not permitted"; its negation blocks an exec.
pub const EPERM: i32 = 1;

/// `/run/wrappers/`, which the path of every setuid wrapper starts with.
pub const WRAPPER_PREFIX: [u8; 14] = [
    0x2f,
    0x72,
    0x75,
    0x6e,
    0x2f,
    0x77,
    0x72,
    0x61,
    0x70,
    0x70,
    0x65,
    0x72,
    0x73,
    0x2f,
];

/// The superblock magic of tmpfs, from `include/uapi/linux/magic.h`.
pub const TMPFS_MAGIC: u64 = 0x0102_1994;

/// What the kernel says about an exec. A read of kernel memory can fail; then its error code
/// stands in the place of the value.
pub struct ExecContext {
    /// The process id in the upper half, the thread id in the lower one.
    pub pid_tgid: u64,
    /// The group id in the upper half, the user id in the lower one.
    pub uid_gid: u64,
    /// The name of the command, where it could be read.
    pub comm: Option<[u8; COMM_LEN]>,
    /// What resolving the path of the executable returned; negative when it failed.
    pub path_code: i32,
    /// The buffer that the path was resolved into.
    pub path: [u8; PATH_LEN],
    /// How many links the executable's inode has.
    pub nlink: Result<u32, i64>,
    /// The magic number of the executable's superblock.
    pub magic: Result<u64, i64>,
}

/// The verdict on an exec: what the hook returns, and what it reports.
pub struct Verdict {
    /// 0 permits the exec, a negative code blocks it.
    pub code: i32,
    /// What goes into the ring buffer. The verdict stands even if the buffer is full.
    pub report: Option<ExecEvent>,
}

/// The flags of an inode that could be read.
pub open spec fn flags_of(nlink: u32, magic: u64) -> u8 {
    if nlink == 0 && magic == TMPFS_MAGIC {
        3
    } else if magic == TMPFS_MAGIC {
        FLAG_TMPFS
    } else if nlink == 0 {
        FLAG_UNLINKED
    } else {
        0
    }
}

/// The flags of an inode, or the error of the first read that failed.
pub open spec fn read_flags(nlink: Result<u32, i64>, magic: Result<u64, i64>) -> Result<u8, i64> {
    match (nlink, magic) {
        (Err(e), _) => Err(e),
        (Ok(_), Err(e)) => Err(e),
        (Ok(n), Ok(m)) => Ok(flags_of(n, m)),
    }
}

pub fn inode_flags(nlink: Result<u32, i64>, magic: Result<u64, i64>) -> (r: Result<u8, i64>)
    ensures
        r == read_flags(nlink, magic),
{
    let nlink = match nlink {
        Ok(n) => n,
        Err(e) => return Err(e),
    };
    let magic = match magic {
        Ok(m) => m,
        Err(e) => return Err(e),
    };
    let mut flags: u8 = 0;
    assert(0u8 | 1u8 == 1u8 && 0u8 | 2u8 == 2u8 && 1u8 | 2u8 == 3u8) by (bit_vector);
    if nlink == 0 {
        flags = flags | FLAG_UNLINKED;
    }
    if magic == TMPFS_MAGIC {
        flags = flags | FLAG_TMPFS;
    }
    Ok(flags)
}

/// Where an executable comes from: its flags decide first, then its path.
pub open spec fn classified(path: Seq<u8>, flags: u8, allowed: Set<Seq<u8>>) -> Classification {
    if flags & FLAG_UNLINKED != 0 {
        if flags & FLAG_TMPFS != 0 {
            Classification::Memory
        } else {
            Classification::Deleted
        }
    } else if STORE_PREFIX@.is_prefix_of(path) {
        match store::hash_of(path) {
            Some(hash) if allowed.contains(hash) => Classification::Closure,
            _ => Classification::Store,
        }
    } else if WRAPPER_PREFIX@.is_prefix_of(path) {
        Classification::Wrapper
    } else {
        Classification::Outside
    }
}

/// Classifies an executable. `allowed` is what stands in the allowlist.
pub fn classify(path: &[u8; PATH_LEN], flags: u8, allowed: &StoreSet) -> (r: Classification)
    requires
        allowed.wf(),
    ensures
        r == classified(path@, flags, allowed@),
{
    if flags & FLAG_UNLINKED != 0 {
        return if flags & FLAG_TMPFS != 0 {
            Classification::Memory
        } else {
            Classification::Deleted
        };
    }
    if store::has_prefix(path.as_slice(), STORE_PREFIX.as_slice()) {
        let hash = store::hash_at(path.as_slice(), STORE_PREFIX.len());
        if allowed.contains(&hash) {
            return Classification::Closure;
        }
        return Classification::Store;
    }
    if store::has_prefix(path.as_slice(), WRAPPER_PREFIX.as_slice()) {
        return Classification::Wrapper;
    }
    Classification::Outside
}

/// The classification of an exec. Flags that cannot be read count as not set.
pub open spec fn class_of(ctx: ExecContext, allowed: Set<Seq<u8>>) -> Classification {
    let flags = match read_flags(ctx.nlink, ctx.magic) {
        Ok(flags) => flags,
        Err(_) => 0,
    };
    classified(ctx.path@, flags, allowed)
}

/// What is done about an exec: what the policy says about its classification. An exec that the
/// policy denies is only audited if its inode could not be read.
pub open spec fn action_for(ctx: ExecContext, allowed: Set<Seq<u8>>, codes: Seq<u8>) -> Action {
    let action = policy::action_in(codes, class_of(ctx, allowed));
    if action == Action::Deny && read_flags(ctx.nlink, ctx.magic) is Err {
        Action::Audit
    } else {
        action
    }
}

/// Whether `ev` is the record of an exec.
pub open spec fn records(
    ev: ExecEvent,
    ctx: ExecContext,
    class: Classification,
    action: Action,
) -> bool {
    &&& ev.pid == ctx.pid_tgid / 0x1_0000_0000
    &&& ev.uid == ctx.uid_gid % 0x1_0000_0000
    &&& match ctx.comm {
        Some(comm) => ev.comm == comm,
        None => ev.comm@ == Seq::new(COMM_LEN as nat, |i: int| 0u8),
    }
    &&& ev.path == ctx.path
    &&& ev.classification == class.code()
    &&& ev.action == action.code()
}

/// Whether `verdict` is the verdict on an exec whose path could be resolved: it is blocked if
/// and only if it is to be denied, and reported if and only if it is not to be allowed in silence.
pub open spec fn is_verdict(
    verdict: Verdict,
    ctx: ExecContext,
    allowed: Set<Seq<u8>>,
    codes: Seq<u8>,
) -> bool {
    let action = action_for(ctx, allowed, codes);
    &&& verdict.code == if action == Action::Deny {
        -EPERM
    } else {
        0
    }
    &&& match verdict.report {
        Some(ev) => action != Action::Allow && records(ev, ctx, class_of(ctx, allowed), action),
        None => action == Action::Allow,
    }
}

/// Judges an exec; fails with the code of the path that could not be resolved.
/// `allowed` is what stands in the allowlist, and `codes` what stands in the policy map.
pub fn try_bprm_check_security(ctx: &ExecContext, allowed: &StoreSet, codes: &[u8]) -> (r: Result<
    Verdict,
    i32,
>)
    requires
        allowed.wf(),
    ensures
        match r {
            Ok(verdict) => ctx.path_code >= 0 && is_verdict(verdict, *ctx, allowed@, codes@),
            Err(code) => ctx.path_code < 0 && code == ctx.path_code,
        },
{
    if ctx.path_code < 0 {
        return Err(ctx.path_code);
    }
    let (flags, readable) = match inode_flags(ctx.nlink, ctx.magic) {
        Ok(flags) => (flags, true),
        Err(_) => (0u8, false),
    };
    let classification = classify(&ctx.path, flags, allowed);
    let mut action = policy::policy_for(classification, codes);
    if action == Action::Deny && !readable {
        action = Action::Audit;
    }
    if action == Action::Allow {
        return Ok(Verdict { code: 0, report: None });
    }
    let comm = match ctx.comm {
        Some(comm) => comm,
        None => [0u8; COMM_LEN],
    };
    let pid_tgid = ctx.pid_tgid;
    let uid_gid = ctx.uid_gid;
    assert((pid_tgid >> 32u64) as u32 == pid_tgid / 0x1_0000_0000) by (bit_vector);
    assert(uid_gid as u32 == uid_gid % 0x1_0000_0000) by (bit_vector);
    let ev = ExecEvent {
        pid: (pid_tgid >> 32u64) as u32,
        uid: #[verifier::truncate] (uid_gid as u32),
        comm,
        path: ctx.path,
        classification: classification.to_u8(),
        action: action.to_u8(),
    };
    assert(ctx.comm is None ==> ev.comm@ =~= Seq::new(COMM_LEN as nat, |i: int| 0u8));
    let code: i32 = if action == Action::Deny {
        -EPERM
    } else {
        0
    };
    Ok(Verdict { code, report: Some(ev) })
}

/// Whether `verdict` is what the hook comes to, whether or not the path could be resolved.
pub open spec fn is_outcome(
    verdict: Verdict,
    ctx: ExecContext,
    allowed: Set<Seq<u8>>,
    codes: Seq<u8>,
) -> bool {
    if ctx.path_code < 0 {
        verdict.code == 0 && verdict.report is None
    } else {
        is_verdict(verdict, ctx, allowed, codes)
    }
}

/// Judges an exec. Anything that goes wrong before a verdict is reached permits the exec: a path
/// that cannot be resolved, and an inode that cannot be read. The verdict does not rest on the
/// name of the command.
pub fn bprm_check_security(ctx: &ExecContext, allowed: &StoreSet, codes: &[u8]) -> (verdict: Verdict)
    requires
        allowed.wf(),
    ensures
        is_outcome(verdict, *ctx, allowed@, codes@),
{
    match try_bprm_check_security(ctx, allowed, codes) {
        Ok(verdict) => verdict,
        Err(_) => Verdict { code: 0, report: None },
    }
}

proof fn lemma_flag_bits()
    ensures
        0u8 & FLAG_UNLINKED == 0,
        1u8 & FLAG_UNLINKED != 0,
        2u8 & FLAG_UNLINKED == 0,
        3u8 & FLAG_UNLINKED != 0,
        1u8 & FLAG_TMPFS == 0,
        3u8 & FLAG_TMPFS != 0,
{
    assert(0u8 & 1u8 == 0 && 1u8 & 1u8 != 0 && 2u8 & 1u8 == 0 && 3u8 & 1u8 != 0 && 1u8 & 2u8 == 0
        && 3u8 & 2u8 != 0) by (bit_vector);
}

/// An executable without links is never taken for one of the closure, whatever its path and the
/// allowlist say: it is `memory` on tmpfs and `deleted` elsewhere.
pub proof fn law_unlinked(path: Seq<u8>, nlink: u32, magic: u64, allowed: Set<Seq<u8>>)
    ensures
        nlink == 0 && magic == TMPFS_MAGIC <==> classified(path, flags_of(nlink, magic), allowed)
            == Classification::Memory,
        nlink == 0 && magic != TMPFS_MAGIC <==> classified(path, flags_of(nlink, magic), allowed)
            == Classification::Deleted,
{
    lemma_flag_bits();
}

/// The hook finds what the daemon allows: for a linked executable whose resolved path starts
/// with a store path, the classification is `closure` if the hash that the daemon reads off that
/// path is in the allowlist, and `store` if it is not.
pub proof fn law_same_hash(
    path: Seq<u8>,
    buffer: Seq<u8>,
    nlink: u32,
    magic: u64,
    allowed: Set<Seq<u8>>,
)
    requires
        nlink != 0,
        path.is_prefix_of(buffer),
        store::hash_of(path) is Some,
    ensures
        classified(buffer, flags_of(nlink, magic), allowed) == if allowed.contains(
            store::hash_of(path)->0,
        ) {
            Classification::Closure
        } else {
            Classification::Store
        },
{
    lemma_flag_bits();
    let n = STORE_PREFIX@.len() as int;
    assert(buffer.subrange(0, path.len() as int) == path);
    assert(STORE_PREFIX@ =~= buffer.subrange(0, n)) by {
        assert forall|i: int| 0 <= i < n implies STORE_PREFIX@[i] == buffer[i] by {
            assert(path.subrange(0, n)[i] == path[i]);
            assert(buffer.subrange(0, path.len() as int)[i] == buffer[i]);
        }
    }
    assert(store::hash_of(buffer)->0 =~= store::hash_of(path)->0) by {
        let len = crate::event::STORE_HASH_LEN as int;
        let found = buffer.subrange(n, n + len);
        let expected = path.subrange(n, n + len);
        assert forall|i: int| 0 <= i < len implies #[trigger] found[i] == expected[i] by {
            assert(buffer.subrange(0, path.len() as int)[n + i] == buffer[n + i]);
        }
    }
}

/// Anything that goes wrong before a verdict is reached permits the exec, whatever the policy
/// says: that the path cannot be resolved, or that the inode cannot be read.
pub proof fn law_failures_permit(
    verdict: Verdict,
    ctx: ExecContext,
    allowed: Set<Seq<u8>>,
    codes: Seq<u8>,
)
    requires
        is_outcome(verdict, ctx, allowed, codes),
        ctx.path_code < 0 || read_flags(ctx.nlink, ctx.magic) is Err,
    ensures
        verdict.code == 0,
{
}

/// What enforcement is for: under the policy that `--enforce` asks for, with no overrides, an
/// exec whose path can be resolved and whose inode can be read is blocked if and only if it is
/// neither of the allowed closure nor a wrapper.
pub proof fn law_enforced(
    verdict: Verdict,
    ctx: ExecContext,
    allowed: Set<Seq<u8>>,
    codes: Seq<u8>,
    table: policy::PolicyTable,
    all: bool,
)
    requires
        forall|c: Classification| #[trigger]
            policy::entry(table, c) == policy::chosen_action(all, true, Seq::empty(), c),
        codes.len() == crate::event::CLASSIFICATIONS,
        forall|c: Classification| #[trigger]
            codes[c.code() as int] == policy::entry(table, c).code(),
        is_verdict(verdict, ctx, allowed, codes),
        read_flags(ctx.nlink, ctx.magic) is Ok,
    ensures
        verdict.code != 0 <==> class_of(ctx, allowed) != Classification::Closure && class_of(
            ctx,
            allowed,
        ) != Classification::Wrapper,
{
    let class = class_of(ctx, allowed);
    policy::law_policy_map(table, codes, class);
    policy::law_enforcement(all, true, class);
    assert(policy::entry(table, class) == policy::chosen_action(all, true, Seq::empty(), class));
}

/// What auditing is for: under a policy with no overrides, an exec whose path can be resolved is
/// reported if and only if it falls outside the allowed closure, or every exec is to be reported.
pub proof fn law_reported(
    verdict: Verdict,
    ctx: ExecContext,
    allowed: Set<Seq<u8>>,
    codes: Seq<u8>,
    table: policy::PolicyTable,
    all: bool,
    enforce: bool,
)
    requires
        forall|c: Classification| #[trigger]
            policy::entry(table, c) == policy::chosen_action(all, enforce, Seq::empty(), c),
        codes.len() == crate::event::CLASSIFICATIONS,
        forall|c: Classification| #[trigger]
            codes[c.code() as int] == policy::entry(table, c).code(),
        is_verdict(verdict, ctx, allowed, codes),
    ensures
        verdict.report is Some <==> all || class_of(ctx, allowed) != Classification::Closure,
{
    let class = class_of(ctx, allowed);
    policy::law_policy_map(table, codes, class);
    policy::law_closure_is_silent(all, enforce, class);
    assert(policy::entry(table, class) == policy::chosen_action(all, enforce, Seq::empty(), class));
}

/// What the hook records is understood: its codes stand for the classification and the action, so
/// that no record of the hook is dropped as malformed.
pub proof fn law_records_are_understood(
    ev: ExecEvent,
    ctx: ExecContext,
    class: Classification,
    action: Action,
)
    requires
        records(ev, ctx, class, action),
    ensures
        Classification::coded(ev.classification) == Some(class),
        Action::coded(ev.action) == Some(action),
{
}

/// A denied exec is always reported as well.
pub proof fn law_denied_is_reported(
    verdict: Verdict,
    ctx: ExecContext,
    allowed: Set<Seq<u8>>,
    codes: Seq<u8>,
)
    requires
        is_verdict(verdict, ctx, allowed, codes),
    ensures
        verdict.code != 0 ==> verdict.report is Some && (verdict.report->0).action
            == Action::Deny.code(),
{
}

proof fn lemma_prefix_texts()
    ensures
        STORE_PREFIX@ == encode_utf8("/nix/store/"@),
        WRAPPER_PREFIX@ == encode_utf8("/run/wrappers/"@),
        STORE_PREFIX@.len() == 11,
        WRAPPER_PREFIX@.len() == 14,
{
    store::lemma_prefix_text();
    reveal_strlit("/run/wrappers/");
    let t = "/run/wrappers/"@;
    assert(is_ascii_chars(t));
    is_ascii_chars_encode_utf8(t);
    assert forall|i: int| 0 <= i < 14 implies WRAPPER_PREFIX@[i] == encode_utf8(t)[i] by {
        assert(encode_utf8(t)[i] == t[i] as u8);
    }
    assert(WRAPPER_PREFIX@ =~= encode_utf8(t));
}

proof fn lemma_prefixes_differ(path: Seq<u8>)
    ensures
        !(STORE_PREFIX@.is_prefix_of(path) && WRAPPER_PREFIX@.is_prefix_of(path)),
{
    if STORE_PREFIX@.is_prefix_of(path) && WRAPPER_PREFIX@.is_prefix_of(path) {
        assert(path.subrange(0, 11)[1] == path[1]);
        assert(path.subrange(0, 14)[1] == path[1]);
        assert(STORE_PREFIX@[1] == 0x6e && WRAPPER_PREFIX@[1] == 0x72);
    }
}

/// The two flags of an inode, as one number: 1 if it has no links, and 2 more if it is on tmpfs.
/// Where a read failed there are none, and the first failure is told.
pub proof fn law_flags(nlink: Result<u32, i64>, magic: Result<u64, i64>)
    ensures
        match (nlink, magic) {
            (Ok(n), Ok(m)) => read_flags(nlink, magic) matches Ok(flags) && flags == (if n == 0 {
                1int
            } else {
                0
            }) + (if m == 0x0102_1994 {
                2int
            } else {
                0
            }),
            (Ok(_), Err(e)) => read_flags(nlink, magic) == Err::<u8, i64>(e),
            (Err(e), _) => read_flags(nlink, magic) == Err::<u8, i64>(e),
        },
{
}

/// What an executable with given flags is taken for, by its path. Without links it is `memory` or
/// `deleted`, whatever its path. With links it is of the store if and only if its path starts
/// with `/nix/store/`, and then of the closure if and only if the 32 bytes that follow are
/// allowed; a wrapper if and only if its path starts with `/run/wrappers/`; and `outside`
/// otherwise.
pub proof fn law_classified(path: Seq<u8>, flags: u8, allowed: Set<Seq<u8>>)
    ensures
        ({
            let class = classified(path, flags, allowed);
            let unlinked = flags % 2 == 1;
            let tmpfs = flags / 2 % 2 == 1;
            let in_store = encode_utf8("/nix/store/"@).is_prefix_of(path);
            let is_allowed = path.len() >= 43 && allowed.contains(path.subrange(11, 43));
            let in_wrappers = encode_utf8("/run/wrappers/"@).is_prefix_of(path);
            &&& class == Classification::Memory <==> unlinked && tmpfs
            &&& class == Classification::Deleted <==> unlinked && !tmpfs
            &&& class == Classification::Closure <==> !unlinked && in_store && is_allowed
            &&& class == Classification::Store <==> !unlinked && in_store && !is_allowed
            &&& class == Classification::Wrapper <==> !unlinked && in_wrappers
            &&& class == Classification::Outside <==> !unlinked && !in_store && !in_wrappers
        }),
{
    lemma_prefix_texts();
    lemma_prefixes_differ(path);
    assert(flags & 1 == flags % 2) by (bit_vector);
    assert((flags & 2 != 0) == (flags / 2 % 2 == 1)) by (bit_vector);
}

/// What an exec is taken for. An executable is unlinked if both reads of its inode say so; one
/// whose inode cannot be read counts as linked. A linked one goes by its path alone.
pub proof fn law_class_of(ctx: ExecContext, allowed: Set<Seq<u8>>)
    ensures
        ({
            let class = class_of(ctx, allowed);
            let path = ctx.path@;
            let unlinked = ctx.nlink == Ok::<u32, i64>(0) && ctx.magic is Ok;
            let tmpfs = ctx.magic == Ok::<u64, i64>(0x0102_1994);
            let in_store = encode_utf8("/nix/store/"@).is_prefix_of(path);
            let is_allowed = allowed.contains(path.subrange(11, 43));
            let in_wrappers = encode_utf8("/run/wrappers/"@).is_prefix_of(path);
            &&& class == Classification::Memory <==> unlinked && tmpfs
            &&& class == Classification::Deleted <==> unlinked && !tmpfs
            &&& class == Classification::Closure <==> !unlinked && in_store && is_allowed
            &&& class == Classification::Store <==> !unlinked && in_store && !is_allowed
            &&& class == Classification::Wrapper <==> !unlinked && in_wrappers
            &&& class == Classification::Outside <==> !unlinked && !in_store && !in_wrappers
        }),
{
    law_flags(ctx.nlink, ctx.magic);
    let flags = match read_flags(ctx.nlink, ctx.magic) {
        Ok(flags) => flags,
        Err(_) => 0u8,
    };
    law_classified(ctx.path@, flags, allowed);
}

/// What the hook does about an exec, from the policy map. It blocks, with -1, if and only if path
/// and inode could be read and the entry for the classification is 2; otherwise it returns 0. It
/// reports if and only if the path could be resolved and the entry is not 0.
pub proof fn law_verdict(
    verdict: Verdict,
    ctx: ExecContext,
    allowed: Set<Seq<u8>>,
    codes: Seq<u8>,
)
    requires
        is_outcome(verdict, ctx, allowed, codes),
    ensures
        ({
            let i = class_of(ctx, allowed).code() as int;
            let said = if i < codes.len() {
                codes[i] as int
            } else {
                1
            };
            let readable = ctx.nlink is Ok && ctx.magic is Ok;
            let denied = ctx.path_code >= 0 && readable && said == 2;
            &&& verdict.code == if denied {
                -1int
            } else {
                0
            }
            &&& verdict.report is Some <==> ctx.path_code >= 0 && said != 0
            &&& verdict.report matches Some(ev) ==> ev.classification == i && ev.action == if denied {
                2int
            } else {
                1
            }
        }),
{
    policy::law_policy_numbers(codes, class_of(ctx, allowed));
}

/// What the hook reports of an exec: the process and the user by their halves of the kernel's
/// numbers, the command name or zeros, and the path as it was resolved.
pub proof fn law_report(
    verdict: Verdict,
    ctx: ExecContext,
    allowed: Set<Seq<u8>>,
    codes: Seq<u8>,
    ev: ExecEvent,
)
    requires
        is_outcome(verdict, ctx, allowed, codes),
        verdict.report == Some(ev),
    ensures
        0 <= ctx.pid_tgid - ev.pid * 0x1_0000_0000 < 0x1_0000_0000,
        0 <= ctx.uid_gid - ev.uid && (ctx.uid_gid - ev.uid) % 0x1_0000_0000 == 0,
        ctx.comm matches Some(comm) ==> ev.comm@ == comm@,
        ctx.comm is None ==> forall|i: int| 0 <= i < 16 ==> #[trigger] ev.comm@[i] == 0,
        ev.path@ == ctx.path@,
{
}

} // verus!
