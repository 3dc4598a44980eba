//! What is reported of an exec: how it was classified, and what was done about it.
use vstd::prelude::*;

verus! {

/// Number of classifications, and so of entries in a policy.
pub const CLASSIFICATIONS: usize = 6;

/// Number of actions a policy can name.
pub const ACTIONS: usize = 3;

/// Length of the base32 hash in `/nix/store/<hash>-<name>`.
pub const STORE_HASH_LEN: usize = 32;

/// Length of the command name that comes with an event.
pub const COMM_LEN: usize = 16;

/// Length of the buffer that the path of an executable is resolved into.
pub const PATH_LEN: usize = 256;

/// The executable's inode has no links (unlinked/anonymous): a memfd,
/// an `O_TMPFILE`, or a file deleted while held open.
pub const FLAG_UNLINKED: u8 = 1;

/// The executable is backed by tmpfs (superblock magic), i.e. RAM/swap
/// rather than a persistent filesystem.
pub const FLAG_TMPFS: u8 = 2;

/// Where an executable comes from.
#[derive(Clone, Copy, PartialEq, Eq, Debug, Structural)]
pub enum Classification {
    /// A store path in the allowed closure.
    Closure,
    /// A store path outside the allowed closure.
    Store,
    /// A setuid wrapper under `/run/wrappers`.
    Wrapper,
    /// An unlinked executable on tmpfs.
    Memory,
    /// An unlinked executable elsewhere.
    Deleted,
    /// Anything else.
    Outside,
}

impl Classification {
    /// Every classification, in the order of its code.
    pub const ALL: [Classification; CLASSIFICATIONS] = [
        Classification::Closure,
        Classification::Store,
        Classification::Wrapper,
        Classification::Memory,
        Classification::Deleted,
        Classification::Outside,
    ];

    /// The name by which policies and events speak of a classification.
    pub open spec fn name(self) -> Seq<char> {
        match self {
            Classification::Closure => "closure"@,
            Classification::Store => "store"@,
            Classification::Wrapper => "wrapper"@,
            Classification::Memory => "memory"@,
            Classification::Deleted => "deleted"@,
            Classification::Outside => "outside"@,
        }
    }

    /// The number that stands for a classification in an event and in the policy map.
    pub open spec fn code(self) -> u8 {
        match self {
            Classification::Closure => 0,
            Classification::Store => 1,
            Classification::Wrapper => 2,
            Classification::Memory => 3,
            Classification::Deleted => 4,
            Classification::Outside => 5,
        }
    }

    /// The classification that a number stands for.
    pub open spec fn coded(value: u8) -> Option<Classification> {
        match value {
            0 => Some(Classification::Closure),
            1 => Some(Classification::Store),
            2 => Some(Classification::Wrapper),
            3 => Some(Classification::Memory),
            4 => Some(Classification::Deleted),
            5 => Some(Classification::Outside),
            _ => None,
        }
    }

    pub fn as_str(self) -> (s: &'static str)
        ensures
            s@ == self.name(),
    {
        match self {
            Classification::Closure => "closure",
            Classification::Store => "store",
            Classification::Wrapper => "wrapper",
            Classification::Memory => "memory",
            Classification::Deleted => "deleted",
            Classification::Outside => "outside",
        }
    }

    pub fn from_u8(value: u8) -> (r: Option<Classification>)
        ensures
            r == Classification::coded(value),
    {
        match value {
            0 => Some(Classification::Closure),
            1 => Some(Classification::Store),
            2 => Some(Classification::Wrapper),
            3 => Some(Classification::Memory),
            4 => Some(Classification::Deleted),
            5 => Some(Classification::Outside),
            _ => None,
        }
    }

    pub fn to_u8(self) -> (code: u8)
        ensures
            code == self.code(),
            code < CLASSIFICATIONS,
    {
        match self {
            Classification::Closure => 0,
            Classification::Store => 1,
            Classification::Wrapper => 2,
            Classification::Memory => 3,
            Classification::Deleted => 4,
            Classification::Outside => 5,
        }
    }
}

/// What a policy does about an exec.
#[derive(Clone, Copy, PartialEq, Eq, Debug, Structural)]
pub enum Action {
    /// Let it run, and say nothing.
    Allow,
    /// Let it run, and report it.
    Audit,
    /// Stop it, and report it.
    Deny,
}

impl Action {
    /// Every action, in the order of its code.
    pub const ALL: [Action; ACTIONS] = [Action::Allow, Action::Audit, Action::Deny];

    /// The name by which policies and events speak of an action.
    pub open spec fn name(self) -> Seq<char> {
        match self {
            Action::Allow => "allow"@,
            Action::Audit => "audit"@,
            Action::Deny => "deny"@,
        }
    }

    /// The number that stands for an action in an event and in the policy map.
    pub open spec fn code(self) -> u8 {
        match self {
            Action::Allow => 0,
            Action::Audit => 1,
            Action::Deny => 2,
        }
    }

    /// The action that a number stands for.
    pub open spec fn coded(value: u8) -> Option<Action> {
        match value {
            0 => Some(Action::Allow),
            1 => Some(Action::Audit),
            2 => Some(Action::Deny),
            _ => None,
        }
    }

    pub fn as_str(self) -> (s: &'static str)
        ensures
            s@ == self.name(),
    {
        match self {
            Action::Allow => "allow",
            Action::Audit => "audit",
            Action::Deny => "deny",
        }
    }

    pub fn from_u8(value: u8) -> (r: Option<Action>)
        ensures
            r == Action::coded(value),
    {
        match value {
            0 => Some(Action::Allow),
            1 => Some(Action::Audit),
            2 => Some(Action::Deny),
            _ => None,
        }
    }

    pub fn to_u8(self) -> (code: u8)
        ensures
            code == self.code(),
            code < ACTIONS,
    {
        match self {
            Action::Allow => 0,
            Action::Audit => 1,
            Action::Deny => 2,
        }
    }
}

/// One exec, as the hook records it. `path` and `comm` end at their first zero byte.
#[derive(Clone, Copy)]
pub struct ExecEvent {
    pub pid: u32,
    pub uid: u32,
    pub comm: [u8; COMM_LEN],
    pub path: [u8; PATH_LEN],
    /// The code of a [`Classification`].
    pub classification: u8,
    /// The code of an [`Action`].
    pub action: u8,
}

/// The order in which the bytes of a number stand in memory.
#[derive(Clone, Copy, PartialEq, Eq, Debug, Structural)]
pub enum ByteOrder {
    Little,
    Big,
}

/// Size of an event in memory: the fields in their order, and two bytes that align the end.
pub const EVENT_LEN: usize = 284;

/// Where each field of an event starts.
pub const UID_AT: usize = 4;

pub const COMM_AT: usize = 8;

pub const PATH_AT: usize = 24;

pub const CLASSIFICATION_AT: usize = 280;

pub const ACTION_AT: usize = 281;

/// The number that four bytes stand for.
pub open spec fn word(order: ByteOrder, bytes: Seq<u8>) -> int {
    match order {
        ByteOrder::Little => bytes[0] + 0x100 * bytes[1] + 0x1_0000 * bytes[2] + 0x100_0000
            * bytes[3],
        ByteOrder::Big => bytes[3] + 0x100 * bytes[2] + 0x1_0000 * bytes[1] + 0x100_0000 * bytes[0],
    }
}

/// Whether `image` is how `ev` stands in memory.
pub open spec fn is_image(ev: ExecEvent, order: ByteOrder, image: Seq<u8>) -> bool {
    &&& image.len() == EVENT_LEN
    &&& ev.pid == word(order, image.take(UID_AT as int))
    &&& ev.uid == word(order, image.subrange(UID_AT as int, COMM_AT as int))
    &&& ev.comm@ == image.subrange(COMM_AT as int, PATH_AT as int)
    &&& ev.path@ == image.subrange(PATH_AT as int, CLASSIFICATION_AT as int)
    &&& ev.classification == image[CLASSIFICATION_AT as int]
    &&& ev.action == image[ACTION_AT as int]
}

fn read_word(order: ByteOrder, item: &[u8], at: usize) -> (n: u32)
    requires
        at + 4 <= item@.len(),
    ensures
        n == word(order, item@.subrange(at as int, at + 4)),
{
    let a = item[at] as u32;
    let b = item[at + 1] as u32;
    let c = item[at + 2] as u32;
    let d = item[at + 3] as u32;
    match order {
        ByteOrder::Little => a + 0x100 * b + 0x1_0000 * c + 0x100_0000 * d,
        ByteOrder::Big => d + 0x100 * c + 0x1_0000 * b + 0x100_0000 * a,
    }
}

/// Takes an item of the ring buffer apart: the event it starts with, and what follows it.
/// An item that is too short to hold an event is none.
pub fn decode_event(item: &[u8], order: ByteOrder) -> (r: Option<(ExecEvent, Vec<u8>)>)
    ensures
        match r {
            Some((ev, rest)) => {
                &&& item@.len() >= EVENT_LEN
                &&& is_image(ev, order, item@.take(EVENT_LEN as int))
                &&& rest@ == item@.skip(EVENT_LEN as int)
            },
            None => item@.len() < EVENT_LEN,
        },
{
    if item.len() < EVENT_LEN {
        return None;
    }
    let ghost image = item@.take(EVENT_LEN as int);
    let mut comm: [u8; COMM_LEN] = [0u8; COMM_LEN];
    let mut i: usize = 0;
    while i < COMM_LEN
        invariant
            i <= COMM_LEN,
            item@.len() >= EVENT_LEN,
            forall|j: int| 0 <= j < i ==> comm@[j] == item@[COMM_AT + j],
        decreases COMM_LEN - i,
    {
        comm[i] = item[COMM_AT + i];
        i = i + 1;
    }
    let mut path: [u8; PATH_LEN] = [0u8; PATH_LEN];
    let mut i: usize = 0;
    while i < PATH_LEN
        invariant
            i <= PATH_LEN,
            item@.len() >= EVENT_LEN,
            forall|j: int| 0 <= j < i ==> path@[j] == item@[PATH_AT + j],
        decreases PATH_LEN - i,
    {
        path[i] = item[PATH_AT + i];
        i = i + 1;
    }
    let ev = ExecEvent {
        pid: read_word(order, item, 0),
        uid: read_word(order, item, UID_AT),
        comm,
        path,
        classification: item[CLASSIFICATION_AT],
        action: item[ACTION_AT],
    };
    proof {
        assert(image.take(UID_AT as int) =~= item@.subrange(0, 4));
        assert(image.subrange(UID_AT as int, COMM_AT as int) =~= item@.subrange(4, 8));
        assert(ev.comm@ =~= image.subrange(COMM_AT as int, PATH_AT as int));
        assert(ev.path@ =~= image.subrange(PATH_AT as int, CLASSIFICATION_AT as int));
    }
    let rest = crate::path::copy_range(item, EVENT_LEN, item.len());
    assert(rest@ =~= item@.skip(EVENT_LEN as int));
    Some((ev, rest))
}

/// What the hook recorded is what is read: a stretch of memory is the image of one event only.
pub proof fn law_event_read_back(
    recorded: ExecEvent,
    read: ExecEvent,
    order: ByteOrder,
    image: Seq<u8>,
)
    requires
        is_image(recorded, order, image),
        is_image(read, order, image),
    ensures
        read == recorded,
{
    assert(read.comm =~= recorded.comm) by {
        assert(read.comm@ == recorded.comm@);
        assert forall|i: int| 0 <= i < COMM_LEN implies read.comm[i] == recorded.comm[i] by {
            assert(read.comm@[i] == recorded.comm@[i]);
        }
    }
    assert(read.path =~= recorded.path) by {
        assert(read.path@ == recorded.path@);
        assert forall|i: int| 0 <= i < PATH_LEN implies read.path[i] == recorded.path[i] by {
            assert(read.path@[i] == recorded.path@[i]);
        }
    }
}

/// The code of a classification stands for it and no other number does, its name is its own, and
/// the list of all classifications leaves none out.
pub proof fn law_classifications(c: Classification, d: Classification, value: u8)
    ensures
        Classification::coded(value) == Some(c) <==> value == c.code(),
        c.name() == d.name() <==> c == d,
        Classification::ALL@[c.code() as int] == c,
{
    reveal_strlit("closure");
    reveal_strlit("store");
    reveal_strlit("wrapper");
    reveal_strlit("memory");
    reveal_strlit("deleted");
    reveal_strlit("outside");
    assert("closure"@[0] == 'c' && "store"@[0] == 's' && "wrapper"@[0] == 'w' && "memory"@[0] == 'm'
        && "deleted"@[0] == 'd' && "outside"@[0] == 'o');
}

/// The code of an action stands for it and no other number does, its name is its own, and the
/// list of all actions leaves none out.
pub proof fn law_actions(a: Action, b: Action, value: u8)
    ensures
        Action::coded(value) == Some(a) <==> value == a.code(),
        a.name() == b.name() <==> a == b,
        Action::ALL@[a.code() as int] == a,
{
    reveal_strlit("allow");
    reveal_strlit("audit");
    reveal_strlit("deny");
    assert("allow"@[1] == 'l' && "audit"@[1] == 'u' && "deny"@[1] == 'e');
}

/// The numbers from 0 to 5 stand for the classifications, in the order of the list, and no other
/// number stands for any. Each classification goes by its own word.
pub proof fn law_classification_codes(c: Classification, value: u8)
    ensures
        c.code() as int == match c {
            Classification::Closure => 0int,
            Classification::Store => 1,
            Classification::Wrapper => 2,
            Classification::Memory => 3,
            Classification::Deleted => 4,
            Classification::Outside => 5,
        },
        Classification::coded(value) is Some <==> value <= 5,
        Classification::coded(value) matches Some(d) ==> d.code() == value,
        Classification::ALL@.len() == 6,
        c.name() == match c {
            Classification::Closure => "closure"@,
            Classification::Store => "store"@,
            Classification::Wrapper => "wrapper"@,
            Classification::Memory => "memory"@,
            Classification::Deleted => "deleted"@,
            Classification::Outside => "outside"@,
        },
{
}

/// The numbers from 0 to 2 stand for the actions, in the order of the list, and no other number
/// stands for any. Each action goes by its own word.
pub proof fn law_action_codes(a: Action, value: u8)
    ensures
        a.code() as int == match a {
            Action::Allow => 0int,
            Action::Audit => 1,
            Action::Deny => 2,
        },
        Action::coded(value) is Some <==> value <= 2,
        Action::coded(value) matches Some(b) ==> b.code() == value,
        Action::ALL@.len() == 3,
        a.name() == match a {
            Action::Allow => "allow"@,
            Action::Audit => "audit"@,
            Action::Deny => "deny"@,
        },
{
}

/// How an event stands in memory, byte by byte: the two numbers in the machine's order, then the
/// command name, the path and the two codes.
pub proof fn law_event_layout(ev: ExecEvent, order: ByteOrder, image: Seq<u8>)
    requires
        is_image(ev, order, image),
    ensures
        image.len() == 284,
        order == ByteOrder::Little ==> {
            &&& ev.pid == image[0] + 256 * image[1] + 65536 * image[2] + 16777216 * image[3]
            &&& ev.uid == image[4] + 256 * image[5] + 65536 * image[6] + 16777216 * image[7]
        },
        order == ByteOrder::Big ==> {
            &&& ev.pid == image[3] + 256 * image[2] + 65536 * image[1] + 16777216 * image[0]
            &&& ev.uid == image[7] + 256 * image[6] + 65536 * image[5] + 16777216 * image[4]
        },
        ev.comm@.len() == 16,
        forall|i: int| 0 <= i < 16 ==> #[trigger] ev.comm@[i] == image[8 + i],
        ev.path@.len() == 256,
        forall|i: int| 0 <= i < 256 ==> #[trigger] ev.path@[i] == image[24 + i],
        ev.classification == image[280],
        ev.action == image[281],
{
    assert forall|i: int| 0 <= i < 16 implies #[trigger] ev.comm@[i] == image[8 + i] by {
        assert(image.subrange(COMM_AT as int, PATH_AT as int)[i] == image[8 + i]);
    }
    assert forall|i: int| 0 <= i < 256 implies #[trigger] ev.path@[i] == image[24 + i] by {
        assert(image.subrange(PATH_AT as int, CLASSIFICATION_AT as int)[i] == image[24 + i]);
    }
}

} // verus!
