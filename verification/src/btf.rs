//! Kernel functions in BTF, the type information of an eBPF object.
//!
//! A kernel function that an object calls needs an extern entry in a `.ksyms` section of the
//! object's BTF. Where the compiler leaves it out, it is added here.
use crate::bytes::{self, push_bytes, push_u32, read_u16, read_u32};
use crate::elf;
use crate::text;
use vstd::prelude::*;
use vstd::string::*;
use vstd::utf8::*;

verus! {

pub const BTF_MAGIC: u16 = 0xeb9f;

/// Size of the part of the header that every BTF has.
pub const BTF_HEADER_LEN: usize = 24;

/// Size of the part of a type record that every kind has.
pub const BTF_RECORD_LEN: usize = 12;

pub const BTF_KIND_INT: u32 = 1;

pub const BTF_KIND_PTR: u32 = 2;

pub const BTF_KIND_STRUCT: u32 = 4;

pub const BTF_KIND_FUNC: u32 = 12;

pub const BTF_KIND_FUNC_PROTO: u32 = 13;

pub const BTF_KIND_DATASEC: u32 = 15;

pub const BTF_FUNC_EXTERN: u32 = 2;

/// An `int` of 32 signed bits: its encoding in the upper byte, its width in the lower one.
pub const SIGNED_32: u32 = 0x0100_0020;

/// A `char` of 8 signed bits.
pub const SIGNED_8: u32 = 0x0100_0008;

/// An `unsigned long` of 64 bits.
pub const UNSIGNED_64: u32 = 0x40;

/// The name of the section, with the zero byte that ends it.
pub const KSYMS: [u8; 7] = [0x2e, 0x6b, 0x73, 0x79, 0x6d, 0x73, 0];

/// What can be wrong with BTF.
#[derive(Clone, Copy, PartialEq, Eq, Debug, Structural)]
pub enum BtfError {
    TooShort,
    BadMagic,
    UnexpectedLayout,
    TruncatedRecord,
    UnknownKind(u32),
}

impl BtfError {
    /// What is said about it.
    pub open spec fn text(self) -> Seq<char> {
        match self {
            BtfError::TooShort => "BTF too short"@,
            BtfError::BadMagic => "bad BTF magic"@,
            BtfError::UnexpectedLayout => "unexpected BTF section layout"@,
            BtfError::TruncatedRecord => "truncated BTF type record"@,
            BtfError::UnknownKind(kind) => "unknown BTF kind "@ + text::decimal(kind as nat),
        }
    }

    pub fn message(self) -> (s: String)
        ensures
            s@ == self.text(),
    {
        match self {
            BtfError::TooShort => "BTF too short".to_owned(),
            BtfError::BadMagic => "bad BTF magic".to_owned(),
            BtfError::UnexpectedLayout => "unexpected BTF section layout".to_owned(),
            BtfError::TruncatedRecord => "truncated BTF type record".to_owned(),
            BtfError::UnknownKind(kind) => {
                let mut s = "unknown BTF kind ".to_owned();
                s.append(text::to_decimal(kind as u64).as_str());
                s
            },
        }
    }
}

/// What walking over type records comes to.
#[derive(Clone, Copy, PartialEq, Eq, Debug, Structural)]
pub enum Walk {
    /// The end, with the next free type id.
    End(u32),
    /// A `.ksyms` section.
    Injected,
    Truncated,
    Unknown(u32),
}

/// How many bytes follow the common part of a record, given its kind and its number of members.
pub open spec fn extra_len(kind: int, members: nat) -> Option<nat> {
    if kind == 2 || 7 <= kind <= 12 || kind == 16 || kind == 18 {
        // pointers, forward declarations, typedefs, qualifiers, functions, floats, type tags
        Some(0)
    } else if kind == 1 || kind == 14 || kind == 17 {
        // integers, variables, declaration tags
        Some(4)
    } else if kind == 3 {
        // arrays
        Some(12)
    } else if kind == 4 || kind == 5 || kind == 15 || kind == 19 {
        // structs, unions, sections, 64-bit enums
        Some(12 * members)
    } else if kind == 6 || kind == 13 {
        // enums, function prototypes
        Some(8 * members)
    } else {
        None
    }
}

/// The kind in the info word of a record.
pub open spec fn kind_of(info: int) -> int {
    info / 0x100_0000 % 0x20
}

/// The number of members in the info word of a record.
pub open spec fn members_of(info: int) -> nat {
    (info % 0x1_0000) as nat
}

/// Whether the string at `at` is the name of the section.
pub open spec fn is_ksyms(strings: Seq<u8>, at: int) -> bool {
    at + KSYMS@.len() <= strings.len() && strings.subrange(at, at + KSYMS@.len()) == KSYMS@
}

/// Walks over the records from `at` on, of which the first has the id `id`.
pub open spec fn walk(types: Seq<u8>, strings: Seq<u8>, at: int, id: u32) -> Walk
    decreases
            if at < types.len() {
                types.len() - at
            } else {
                0
            },
{
    let name = bytes::le32(types, at);
    let info = bytes::le32(types, at + 4);
    if at >= types.len() {
        Walk::End(id)
    } else if types.len() - at < BTF_RECORD_LEN {
        Walk::Truncated
    } else if kind_of(info) == BTF_KIND_DATASEC && is_ksyms(strings, name) {
        Walk::Injected
    } else {
        match extra_len(kind_of(info), members_of(info)) {
            Some(extra) => walk(types, strings, at + BTF_RECORD_LEN + extra, (id + 1) as u32),
            None => Walk::Unknown(kind_of(info) as u32),
        }
    }
}

fn record_extra(kind: u32, members: u32) -> (r: Option<usize>)
    requires
        members <= 0xffff,
    ensures
        match r {
            Some(n) => extra_len(kind as int, members as nat) == Some(n as nat) && n <= 12 * 0xffff,
            None => extra_len(kind as int, members as nat) is None,
        },
{
    if kind == 2 || (7 <= kind && kind <= 12) || kind == 16 || kind == 18 {
        Some(0)
    } else if kind == 1 || kind == 14 || kind == 17 {
        Some(4)
    } else if kind == 3 {
        Some(12)
    } else if kind == 4 || kind == 5 || kind == 15 || kind == 19 {
        Some(12 * members as usize)
    } else if kind == 6 || kind == 13 {
        Some(8 * members as usize)
    } else {
        None
    }
}

fn names_ksyms(strings: &[u8], at: u32) -> (r: bool)
    ensures
        r == is_ksyms(strings@, at as int),
{
    let at = at as usize;
    if at > strings.len() || strings.len() - at < KSYMS.len() {
        return false;
    }
    crate::path::bytes_equal(
        vstd::slice::slice_subrange(strings, at, at + KSYMS.len()),
        KSYMS.as_slice(),
    )
}

/// Walks over all type records.
fn walk_types(types: &[u8], strings: &[u8]) -> (r: Walk)
    requires
        types@.len() <= u32::MAX,
    ensures
        r == walk(types@, strings@, 0, 1),
        r matches Walk::End(id) ==> 1 <= id && 12 * (id - 1) <= types@.len() + 12 + 12 * 0xffff,
{
    let mut at: u64 = 0;
    let mut id: u32 = 1;
    let len: u64 = types.len() as u64;
    while at < len
        invariant
            len == types@.len(),
            len <= u32::MAX,
            len <= usize::MAX,
            at <= len + 12 + 12 * 0xffff,
            1 <= id,
            12 * (id - 1) <= at,
            at < len ==> id < u32::MAX,
            walk(types@, strings@, 0, 1) == walk(types@, strings@, at as int, id),
        decreases len + 12 + 12 * 0xffff - at,
    {
        if len - at < 12 {
            return Walk::Truncated;
        }
        let name = read_u32(types, at as usize);
        let info = read_u32(types, at as usize + 4);
        let kind = info / 0x100_0000 % 0x20;
        let members = info % 0x1_0000;
        if kind == BTF_KIND_DATASEC && names_ksyms(strings, name) {
            return Walk::Injected;
        }
        match record_extra(kind, members) {
            Some(extra) => {
                at = at + 12 + extra as u64;
                id = id + 1;
            },
            None => {
                return Walk::Unknown(kind);
            },
        }
    }
    Walk::End(id)
}

/// The length of the header, of the types and of the strings.
pub open spec fn header_len(btf: Seq<u8>) -> int {
    bytes::le32(btf, 4)
}

pub open spec fn types_len(btf: Seq<u8>) -> int {
    bytes::le32(btf, 12)
}

pub open spec fn strings_len(btf: Seq<u8>) -> int {
    bytes::le32(btf, 20)
}

/// The types of a BTF whose layout is as expected.
pub open spec fn types_of(btf: Seq<u8>) -> Seq<u8> {
    btf.subrange(header_len(btf), header_len(btf) + types_len(btf))
}

/// The strings of a BTF whose layout is as expected.
pub open spec fn strings_of(btf: Seq<u8>) -> Seq<u8> {
    let start = header_len(btf) + types_len(btf);
    btf.subrange(start, start + strings_len(btf))
}

/// What is wrong with a header.
pub open spec fn header_error(btf: Seq<u8>) -> Option<BtfError> {
    if btf.len() < BTF_HEADER_LEN {
        Some(BtfError::TooShort)
    } else if bytes::le16(btf, 0) != BTF_MAGIC {
        Some(BtfError::BadMagic)
    } else if bytes::le32(btf, 8) != 0 || bytes::le32(btf, 16) != types_len(btf) {
        Some(BtfError::UnexpectedLayout)
    } else {
        None
    }
}

/// Whether all that a header speaks of is there.
pub open spec fn is_complete(btf: Seq<u8>) -> bool {
    header_len(btf) + types_len(btf) + strings_len(btf) <= btf.len()
}

/// What a BTF needs: the next free type id, where entries are to be added, or nothing.
pub open spec fn judged(btf: Seq<u8>) -> Result<Option<u32>, BtfError> {
    match header_error(btf) {
        Some(e) => Err(e),
        None => match walk(types_of(btf), strings_of(btf), 0, 1) {
            Walk::End(id) => Ok(Some(id)),
            Walk::Injected => Ok(None),
            Walk::Truncated => Err(BtfError::TruncatedRecord),
            Walk::Unknown(kind) => Err(BtfError::UnknownKind(kind)),
        },
    }
}

/// Strings one after the other, each with a zero byte at its end.
pub open spec fn table(list: Seq<Seq<u8>>) -> Seq<u8>
    decreases list.len(),
{
    if list.len() == 0 {
        Seq::empty()
    } else {
        table(list.drop_last()) + list.last() + seq![0u8]
    }
}

/// The names of the types and parameters in the prototype of a kernel function.
pub open spec fn base_names() -> Seq<Seq<u8>> {
    seq![
        encode_utf8("int"@),
        encode_utf8("char"@),
        encode_utf8("unsigned long"@),
        encode_utf8("path"@),
        encode_utf8("path"@),
        encode_utf8("buf"@),
        encode_utf8("buf__sz"@),
    ]
}

/// All names that are added: those of the prototype, of the functions and of the section.
pub open spec fn added_names(kfuncs: Seq<Seq<u8>>) -> Seq<Seq<u8>> {
    base_names() + kfuncs + seq![encode_utf8(".ksyms"@)]
}

/// Where name `k` of a list starts that is added to a string table of length `old_len`.
pub open spec fn name_at(old_len: u32, list: Seq<Seq<u8>>, k: int) -> u32 {
    (old_len + table(list.take(k)).len()) as u32
}

/// The info word of a record.
pub open spec fn info_word(kind: u32, members: u32) -> u32 {
    (kind << 24u32) | members
}

/// A type record.
pub open spec fn record(name: u32, info: u32, size_or_type: u32, extra: Seq<u32>) -> Seq<u32> {
    seq![name, info, size_or_type] + extra
}

/// The types in the prototype: `int`, `char`, `unsigned long`, `struct path`, and pointers to
/// the last but one and to `char`. The first has the id `id`.
pub open spec fn base_records(id: u32, old_len: u32, names: Seq<Seq<u8>>) -> Seq<u32> {
    record(
        name_at(old_len, names, 0),
        info_word(BTF_KIND_INT, 0),
        4,
        seq![SIGNED_32],
    ) + record(
        name_at(old_len, names, 1),
        info_word(BTF_KIND_INT, 0),
        1,
        seq![SIGNED_8],
    ) + record(
        name_at(old_len, names, 2),
        info_word(BTF_KIND_INT, 0),
        8,
        seq![UNSIGNED_64],
    ) + record(name_at(old_len, names, 3), info_word(BTF_KIND_STRUCT, 0), 0, Seq::empty()) + record(
        0,
        info_word(BTF_KIND_PTR, 0),
        (id + 3) as u32,
        Seq::empty(),
    ) + record(0, info_word(BTF_KIND_PTR, 0), (id + 1) as u32, Seq::empty())
}

/// The prototype of kernel function `k` and the extern function itself:
/// `int f(struct path *path, char *buf, unsigned long buf__sz)`.
pub open spec fn kfunc_records(id: u32, old_len: u32, names: Seq<Seq<u8>>, k: int) -> Seq<u32> {
    record(
        0,
        info_word(BTF_KIND_FUNC_PROTO, 3),
        id,
        seq![
            name_at(old_len, names, 4),
            (id + 4) as u32,
            name_at(old_len, names, 5),
            (id + 5) as u32,
            name_at(old_len, names, 6),
            (id + 2) as u32,
        ],
    ) + record(
        name_at(old_len, names, 7 + k),
        info_word(BTF_KIND_FUNC, BTF_FUNC_EXTERN),
        (id + 6 + 2 * k) as u32,
        Seq::empty(),
    )
}

/// The records of the first `n` kernel functions.
pub open spec fn all_kfunc_records(id: u32, old_len: u32, names: Seq<Seq<u8>>, n: int) -> Seq<u32>
    decreases n,
{
    if n <= 0 {
        Seq::empty()
    } else {
        all_kfunc_records(id, old_len, names, n - 1) + kfunc_records(id, old_len, names, n - 1)
    }
}

/// The entries of the section for the first `n` kernel functions.
pub open spec fn section_entries(id: u32, n: int) -> Seq<u32>
    decreases n,
{
    if n <= 0 {
        Seq::empty()
    } else {
        section_entries(id, n - 1) + seq![(id + 7 + 2 * (n - 1)) as u32, 0u32, 0u32]
    }
}

/// All records that are added; the first has the id `id`.
pub open spec fn added_records(id: u32, old_len: u32, kfuncs: Seq<Seq<u8>>) -> Seq<u32> {
    let names = added_names(kfuncs);
    let n = kfuncs.len() as int;
    base_records(id, old_len, names) + all_kfunc_records(id, old_len, names, n) + record(
        name_at(old_len, names, 7 + n),
        info_word(BTF_KIND_DATASEC, n as u32),
        0,
        section_entries(id, n),
    )
}

/// How many bytes of records are added for `n` kernel functions.
pub open spec fn added_types_len(n: int) -> int {
    96 + 60 * n
}

/// A BTF with entries for kernel functions: the old types with the added ones behind them, and
/// the old strings with the added ones behind them.
pub open spec fn patched(btf: Seq<u8>, kfuncs: Seq<Seq<u8>>, id: u32) -> Seq<u8> {
    let records = bytes::words_bytes(added_records(id, strings_len(btf) as u32, kfuncs));
    let names = table(added_names(kfuncs));
    let new_types_len = (types_len(btf) + records.len()) as u32;
    let new_strings_len = (strings_len(btf) + names.len()) as u32;
    btf.take(12) + bytes::word_bytes(new_types_len) + bytes::word_bytes(new_types_len)
        + bytes::word_bytes(new_strings_len) + btf.subrange(24, header_len(btf)) + types_of(btf)
        + records + strings_of(btf) + names
}

/// The bytes of each name in a list.
pub open spec fn name_bytes(names: Seq<&str>) -> Seq<Seq<u8>> {
    names.map_values(|s: &str| encode_utf8(s@))
}

/// Whether the patched types and strings fit in `limit` bytes each.
pub open spec fn fits(btf: Seq<u8>, kfuncs: Seq<Seq<u8>>, limit: int) -> bool {
    &&& types_len(btf) + added_types_len(kfuncs.len() as int) <= limit
    &&& strings_len(btf) + table(added_names(kfuncs)).len() <= limit
}

/// The id of the section, the last type that is added.
pub open spec fn section_id(id: u32, kfuncs: int) -> int {
    id + 6 + 2 * kfuncs
}

/// Whether all that patching a BTF reads is there, and all that it makes can be counted.
pub open spec fn can_patch(btf: Seq<u8>, kfuncs: Seq<Seq<u8>>) -> bool {
    &&& header_error(btf) is None ==> is_complete(btf)
    &&& judged(btf) matches Ok(Some(id)) ==> header_len(btf) >= BTF_HEADER_LEN && fits(
        btf,
        kfuncs,
        usize::MAX as int,
    ) && section_id(id, kfuncs.len() as int) < u32::MAX
}

/// Types and strings while they are added.
struct Builder {
    types: Vec<u8>,
    strings: Vec<u8>,
    /// The length of the string table that is added to.
    old_len: u32,
    next_id: u32,
}

impl Builder {
    fn add_str(&mut self, s: &[u8], list: Ghost<Seq<Seq<u8>>>) -> (at: u32)
        requires
            old(self).strings@ == table(list@),
            old(self).old_len + table(list@.push(s@)).len() <= usize::MAX,
        ensures
            final(self).strings@ == table(list@.push(s@)),
            final(self).types == old(self).types,
            final(self).old_len == old(self).old_len,
            final(self).next_id == old(self).next_id,
            at == (old(self).old_len + table(list@).len()) as u32,
    {
        assert(list@.push(s@).drop_last() =~= list@);
        let at = (self.old_len as usize + self.strings.len()) as u32;
        push_bytes(&mut self.strings, s);
        self.strings.push(0);
        assert(self.strings@ =~= table(list@.push(s@)));
        at
    }

    fn add_type(
        &mut self,
        name: u32,
        info: u32,
        size_or_type: u32,
        extra: &[u32],
        words: Ghost<Seq<u32>>,
    ) -> (id: u32)
        requires
            old(self).types@ == bytes::words_bytes(words@),
            old(self).next_id < u32::MAX,
        ensures
            final(self).types@ == bytes::words_bytes(
                words@ + record(name, info, size_or_type, extra@),
            ),
            final(self).strings == old(self).strings,
            final(self).old_len == old(self).old_len,
            final(self).next_id == old(self).next_id + 1,
            id == old(self).next_id,
    {
        let ghost start = words@.push(name).push(info).push(size_or_type);
        push_u32(&mut self.types, name);
        assert(words@.push(name).drop_last() =~= words@);
        assert(self.types@ == bytes::words_bytes(words@.push(name)));
        push_u32(&mut self.types, info);
        assert(words@.push(name).push(info).drop_last() =~= words@.push(name));
        assert(self.types@ == bytes::words_bytes(words@.push(name).push(info)));
        push_u32(&mut self.types, size_or_type);
        assert(start.drop_last() =~= words@.push(name).push(info));
        assert(self.types@ == bytes::words_bytes(start));
        let mut i: usize = 0;
        assert(start + extra@.take(0) =~= start);
        while i < extra.len()
            invariant
                i <= extra@.len(),
                self.types@ == bytes::words_bytes(start + extra@.take(i as int)),
                self.strings == old(self).strings,
                self.old_len == old(self).old_len,
                self.next_id == old(self).next_id,
            decreases extra.len() - i,
        {
            push_u32(&mut self.types, extra[i]);
            proof {
                let next = start + extra@.take(i + 1);
                assert(next.drop_last() =~= start + extra@.take(i as int));
                assert(next.last() == extra@[i as int]);
            }
            i = i + 1;
        }
        assert(start + extra@.take(i as int) =~= words@ + record(name, info, size_or_type, extra@));
        let id = self.next_id;
        self.next_id = id + 1;
        id
    }
}

proof fn lemma_table_take(list: Seq<Seq<u8>>, k: int)
    requires
        0 <= k <= list.len(),
    ensures
        table(list.take(k)).len() <= table(list).len(),
    decreases list.len(),
{
    if k < list.len() {
        lemma_table_take(list.drop_last(), k);
        assert(list.drop_last().take(k) =~= list.take(k));
    } else {
        assert(list.take(k) =~= list);
    }
}

/// The next name fits, and goes where it belongs.
proof fn lemma_next_name(names: Seq<Seq<u8>>, k: int)
    requires
        0 <= k < names.len(),
    ensures
        names.take(k).push(names[k]) == names.take(k + 1),
        table(names.take(k + 1)).len() <= table(names).len(),
        table(names.take(k)).len() <= table(names).len(),
{
    assert(names.take(k).push(names[k]) =~= names.take(k + 1));
    lemma_table_take(names, k + 1);
    lemma_table_take(names, k);
}

proof fn lemma_added_len(id: u32, old_len: u32, kfuncs: Seq<Seq<u8>>)
    ensures
        bytes::words_bytes(added_records(id, old_len, kfuncs)).len() == added_types_len(
            kfuncs.len() as int,
        ),
        added_records(id, old_len, kfuncs).len() == 24 + 15 * kfuncs.len(),
{
    let names = added_names(kfuncs);
    let n = kfuncs.len() as int;
    lemma_kfunc_records_len(id, old_len, names, n);
    lemma_entries_len(id, n);
    bytes::lemma_words(added_records(id, old_len, kfuncs));
}

proof fn lemma_kfunc_records_len(id: u32, old_len: u32, names: Seq<Seq<u8>>, n: int)
    requires
        0 <= n,
    ensures
        all_kfunc_records(id, old_len, names, n).len() == 12 * n,
    decreases n,
{
    if n > 0 {
        lemma_kfunc_records_len(id, old_len, names, n - 1);
    }
}

proof fn lemma_entries_len(id: u32, n: int)
    requires
        0 <= n,
    ensures
        section_entries(id, n).len() == 3 * n,
    decreases n,
{
    if n > 0 {
        lemma_entries_len(id, n - 1);
    }
}

impl Builder {
    /// Adds the types in the prototype of a kernel function, and the names of its parameters.
    fn add_base(&mut self, names: Ghost<Seq<Seq<u8>>>) -> (at: [u32; 3])
        requires
            old(self).types@.len() == 0,
            old(self).strings@.len() == 0,
            base_names().is_prefix_of(names@),
            old(self).old_len + table(names@).len() <= usize::MAX,
            old(self).next_id + 6 <= u32::MAX,
        ensures
            final(self).types@ == bytes::words_bytes(
                base_records(old(self).next_id, old(self).old_len, names@),
            ),
            final(self).strings@ == table(names@.take(7)),
            final(self).old_len == old(self).old_len,
            final(self).next_id == old(self).next_id + 6,
            forall|i: int| 0 <= i < 3 ==> at@[i] == name_at(old(self).old_len, names@, 4 + i),
    {
        let ghost id = self.next_id;
        let ghost len = self.old_len;
        let ghost all = names@;
        proof {
            assert(base_names() == all.subrange(0, 7));
            assert forall|k: int| 0 <= k < 7 implies all[k] == #[trigger] base_names()[k] by {
                assert(all.subrange(0, 7)[k] == all[k]);
            }
            assert(base_names()[0] == encode_utf8("int"@));
            assert(base_names()[1] == encode_utf8("char"@));
            assert(base_names()[2] == encode_utf8("unsigned long"@));
            assert(base_names()[3] == encode_utf8("path"@));
            assert(base_names()[4] == encode_utf8("path"@));
            assert(base_names()[5] == encode_utf8("buf"@));
            assert(base_names()[6] == encode_utf8("buf__sz"@));
            lemma_next_name(all, 0);
            lemma_next_name(all, 1);
            lemma_next_name(all, 2);
            lemma_next_name(all, 3);
            lemma_next_name(all, 4);
            lemma_next_name(all, 5);
            lemma_next_name(all, 6);
            assert(all.take(0) =~= Seq::empty());
            assert(self.strings@ =~= table(all.take(0)));
            assert(self.types@ =~= bytes::words_bytes(Seq::empty()));
        }
        let ghost w0: Seq<u32> = Seq::empty();
        let name = self.add_str("int".as_bytes(), Ghost(all.take(0)));
        let int_info: u32 = (BTF_KIND_INT << 24u32) | 0;
        let extra: [u32; 1] = [SIGNED_32];
        let ghost w1 = w0 + record(name, int_info, 4, extra@);
        let _int_id = self.add_type(name, int_info, 4, extra.as_slice(), Ghost(w0));

        let name = self.add_str("char".as_bytes(), Ghost(all.take(1)));
        let extra: [u32; 1] = [SIGNED_8];
        let ghost w2 = w1 + record(name, int_info, 1, extra@);
        let char_id = self.add_type(name, int_info, 1, extra.as_slice(), Ghost(w1));

        let name = self.add_str("unsigned long".as_bytes(), Ghost(all.take(2)));
        let extra: [u32; 1] = [UNSIGNED_64];
        let ghost w3 = w2 + record(name, int_info, 8, extra@);
        let _ulong_id = self.add_type(name, int_info, 8, extra.as_slice(), Ghost(w2));

        let name = self.add_str("path".as_bytes(), Ghost(all.take(3)));
        let none: [u32; 0] = [];
        let struct_info: u32 = (BTF_KIND_STRUCT << 24u32) | 0;
        let ghost w4 = w3 + record(name, struct_info, 0, none@);
        let path_id = self.add_type(name, struct_info, 0, none.as_slice(), Ghost(w3));

        let ptr_info: u32 = (BTF_KIND_PTR << 24u32) | 0;
        let ghost w5 = w4 + record(0, ptr_info, path_id, none@);
        let _ptr_path = self.add_type(0, ptr_info, path_id, none.as_slice(), Ghost(w4));
        let ghost w6 = w5 + record(0, ptr_info, char_id, none@);
        let _ptr_char = self.add_type(0, ptr_info, char_id, none.as_slice(), Ghost(w5));

        let p_path = self.add_str("path".as_bytes(), Ghost(all.take(4)));
        let p_buf = self.add_str("buf".as_bytes(), Ghost(all.take(5)));
        let p_size = self.add_str("buf__sz".as_bytes(), Ghost(all.take(6)));
        proof {
            let base = base_records(id, len, all);
            assert(seq![SIGNED_32] =~= [SIGNED_32]@);
            assert(seq![SIGNED_8] =~= [SIGNED_8]@);
            assert(seq![UNSIGNED_64] =~= [UNSIGNED_64]@);
            assert(none@ =~= Seq::empty());
            assert(w1 =~= record(name_at(len, all, 0), info_word(BTF_KIND_INT, 0), 4, seq![SIGNED_32]));
            assert(w6 =~= base);
        }
        [p_path, p_buf, p_size]
    }

    /// Adds the prototype of a kernel function and the extern function itself.
    fn add_kfunc(
        &mut self,
        name: &str,
        base_id: u32,
        at: &[u32; 3],
        names: Ghost<Seq<Seq<u8>>>,
        k: Ghost<int>,
        words: Ghost<Seq<u32>>,
    ) -> (id: u32)
        requires
            old(self).types@ == bytes::words_bytes(words@),
            0 <= k@,
            7 + k@ < names@.len(),
            old(self).strings@ == table(names@.take(7 + k@)),
            names@[7 + k@] == encode_utf8(name@),
            old(self).old_len + table(names@).len() <= usize::MAX,
            old(self).next_id == base_id + 6 + 2 * k@,
            old(self).next_id + 2 <= u32::MAX,
            forall|i: int| 0 <= i < 3 ==> at@[i] == name_at(old(self).old_len, names@, 4 + i),
        ensures
            final(self).types@ == bytes::words_bytes(
                words@ + kfunc_records(base_id, old(self).old_len, names@, k@),
            ),
            final(self).strings@ == table(names@.take(8 + k@)),
            final(self).old_len == old(self).old_len,
            final(self).next_id == old(self).next_id + 2,
            id == base_id + 7 + 2 * k@,
    {
        proof {
            lemma_next_name(names@, 7 + k@);
        }
        let params: [u32; 6] = [at[0], base_id + 4, at[1], base_id + 5, at[2], base_id + 2];
        let proto_info: u32 = (BTF_KIND_FUNC_PROTO << 24u32) | 3;
        let ghost with_proto = words@ + record(0, proto_info, base_id, params@);
        let proto = self.add_type(0, proto_info, base_id, params.as_slice(), words);
        let func_name = self.add_str(name.as_bytes(), Ghost(names@.take(7 + k@)));
        let func_info: u32 = (BTF_KIND_FUNC << 24u32) | BTF_FUNC_EXTERN;
        let none: [u32; 0] = [];
        let id = self.add_type(func_name, func_info, proto, none.as_slice(), Ghost(with_proto));
        proof {
            let len = self.old_len;
            assert(at@[0] == name_at(len, names@, 4));
            assert(at@[1] == name_at(len, names@, 5));
            assert(at@[2] == name_at(len, names@, 6));
            assert(params@ =~= seq![
                name_at(len, names@, 4),
                (base_id + 4) as u32,
                name_at(len, names@, 5),
                (base_id + 5) as u32,
                name_at(len, names@, 6),
                (base_id + 2) as u32,
            ]);
            assert(none@ =~= Seq::empty());
            assert(with_proto + record(func_name, func_info, proto, none@) =~= words@
                + kfunc_records(base_id, len, names@, k@));
        }
        id
    }
}

/// Adds entries for kernel functions to a BTF: for each a prototype and an extern function, all
/// referred to from a new `.ksyms` section. Where there is such a section already there is nothing
/// to do. The check of signatures against the kernel's BTF is structural, so that minimal
/// parameter types suffice.
#[verifier::rlimit(30)]
pub fn patch_btf(btf: &[u8], kfuncs: &[&str]) -> (r: Result<Option<Vec<u8>>, BtfError>)
    requires
        can_patch(btf@, name_bytes(kfuncs@)),
    ensures
        match judged(btf@) {
            Ok(Some(id)) => r matches Ok(Some(out)) && out@ == patched(
                btf@,
                name_bytes(kfuncs@),
                id,
            ),
            Ok(None) => r == Ok::<Option<Vec<u8>>, BtfError>(None),
            Err(e) => r == Err::<Option<Vec<u8>>, BtfError>(e),
        },
{
    if btf.len() < BTF_HEADER_LEN {
        return Err(BtfError::TooShort);
    }
    if read_u16(btf, 0) != BTF_MAGIC {
        return Err(BtfError::BadMagic);
    }
    let hdr_len = read_u32(btf, 4) as usize;
    let type_off = read_u32(btf, 8);
    let type_len = read_u32(btf, 12);
    let str_off = read_u32(btf, 16);
    let str_len = read_u32(btf, 20);
    if type_off != 0 || str_off != type_len {
        return Err(BtfError::UnexpectedLayout);
    }
    let types_end = hdr_len + type_len as usize;
    let types = vstd::slice::slice_subrange(btf, hdr_len, types_end);
    let strings = vstd::slice::slice_subrange(btf, types_end, types_end + str_len as usize);
    let id = match walk_types(types, strings) {
        Walk::End(id) => id,
        Walk::Injected => return Ok(None),
        Walk::Truncated => return Err(BtfError::TruncatedRecord),
        Walk::Unknown(kind) => return Err(BtfError::UnknownKind(kind)),
    };
    let ghost funcs = name_bytes(kfuncs@);
    let ghost names = added_names(funcs);
    let ghost n = funcs.len() as int;
    let mut b = Builder { types: Vec::new(), strings: Vec::new(), old_len: str_len, next_id: id };
    proof {
        assert(base_names() =~= names.subrange(0, 7));
        assert(names.len() == 8 + n);
    }
    let at = b.add_base(Ghost(names));
    let mut entries: Vec<u32> = Vec::new();
    let ghost base = base_records(id, str_len, names);
    let mut k: usize = 0;
    proof {
        assert(base + all_kfunc_records(id, str_len, names, 0) =~= base);
        assert(entries@ =~= section_entries(id, 0));
    }
    while k < kfuncs.len()
        invariant
            k <= kfuncs@.len(),
            funcs == name_bytes(kfuncs@),
            n == kfuncs@.len(),
            names == added_names(funcs),
            names.len() == 8 + n,
            base == base_records(id, str_len, names),
            b.old_len == str_len,
            b.next_id == id + 6 + 2 * k,
            section_id(id, n) < u32::MAX,
            str_len + table(names).len() <= usize::MAX,
            b.types@ == bytes::words_bytes(base + all_kfunc_records(id, str_len, names, k as int)),
            b.strings@ == table(names.take(7 + k as int)),
            entries@ == section_entries(id, k as int),
            forall|i: int| 0 <= i < 3 ==> at@[i] == name_at(str_len, names, 4 + i),
        decreases kfuncs.len() - k,
    {
        let ghost words = base + all_kfunc_records(id, str_len, names, k as int);
        assert(names[7 + k as int] == funcs[k as int]);
        let func_id = b.add_kfunc(kfuncs[k], id, &at, Ghost(names), Ghost(k as int), Ghost(words));
        entries.push(func_id);
        entries.push(0);
        entries.push(0);
        proof {
            assert(entries@ =~= section_entries(id, k + 1));
            assert(words + kfunc_records(id, str_len, names, k as int) =~= base + all_kfunc_records(
                id,
                str_len,
                names,
                k + 1,
            ));
        }
        k = k + 1;
    }
    proof {
        lemma_next_name(names, 7 + n);
        assert(names[7 + n] == encode_utf8(".ksyms"@));
        assert(names.take(8 + n) =~= names);
    }
    let ghost words = base + all_kfunc_records(id, str_len, names, n);
    let section_name = b.add_str(".ksyms".as_bytes(), Ghost(names.take(7 + n)));
    let section_info: u32 = (BTF_KIND_DATASEC << 24u32) | (kfuncs.len() as u32);
    let _section = b.add_type(section_name, section_info, 0, entries.as_slice(), Ghost(words));
    proof {
        lemma_added_len(id, str_len, funcs);
        assert(words + record(section_name, section_info, 0, entries@) =~= added_records(
            id,
            str_len,
            funcs,
        ));
    }
    let new_type_len = (type_len as usize + b.types.len()) as u32;
    let new_str_len = (str_len as usize + b.strings.len()) as u32;
    let mut out: Vec<u8> = Vec::new();
    push_bytes(&mut out, vstd::slice::slice_subrange(btf, 0, 12));
    push_u32(&mut out, new_type_len);
    push_u32(&mut out, new_type_len);
    push_u32(&mut out, new_str_len);
    push_bytes(&mut out, vstd::slice::slice_subrange(btf, 24, hdr_len));
    push_bytes(&mut out, types);
    push_bytes(&mut out, b.types.as_slice());
    push_bytes(&mut out, strings);
    push_bytes(&mut out, b.strings.as_slice());
    assert(out@ =~= patched(btf@, funcs, id));
    Ok(Some(out))
}

/// One more name makes a table longer by the name and a zero byte.
proof fn lemma_table_next(names: Seq<Seq<u8>>, k: int)
    requires
        0 <= k < names.len(),
    ensures
        table(names.take(k + 1)).len() == table(names.take(k)).len() + names[k].len() + 1,
        table(names.take(k + 1)).len() <= table(names).len(),
{
    lemma_table_take(names, k + 1);
    assert(names.take(k + 1).drop_last() =~= names.take(k));
}

/// Whether a string table has room for the names that are added.
fn strings_fit(old_len: u32, kfuncs: &[&str]) -> (r: bool)
    ensures
        r == (old_len + table(added_names(name_bytes(kfuncs@))).len() <= usize::MAX),
{
    let ghost names = added_names(name_bytes(kfuncs@));
    let base: [&str; 7] = ["int", "char", "unsigned long", "path", "path", "buf", "buf__sz"];
    let max = usize::MAX as u128;
    let mut total = old_len as u128;
    let mut k: usize = 0;
    proof {
        assert(names.take(0) =~= Seq::empty());
        assert forall|i: int| 0 <= i < 7 implies names[i] == encode_utf8(#[trigger] base@[i]@) by {
            assert(names[i] == base_names()[i]);
        }
    }
    while k < 7
        invariant
            k <= 7,
            max == usize::MAX,
            names == added_names(name_bytes(kfuncs@)),
            base@.len() == 7,
            forall|i: int| 0 <= i < 7 ==> names[i] == encode_utf8(#[trigger] base@[i]@),
            total == old_len + table(names.take(k as int)).len(),
            total <= max,
        decreases 7 - k,
    {
        proof {
            lemma_table_next(names, k as int);
        }
        let name = base[k];
        total = total + name.as_bytes().len() as u128 + 1;
        if total > max {
            return false;
        }
        k = k + 1;
    }
    let mut k: usize = 0;
    while k < kfuncs.len()
        invariant
            k <= kfuncs@.len(),
            max == usize::MAX,
            names == added_names(name_bytes(kfuncs@)),
            total == old_len + table(names.take(7 + k as int)).len(),
            total <= max,
        decreases kfuncs.len() - k,
    {
        proof {
            lemma_table_next(names, 7 + k as int);
            assert(names[7 + k as int] == encode_utf8(kfuncs@[k as int]@));
        }
        let name = kfuncs[k];
        total = total + name.as_bytes().len() as u128 + 1;
        if total > max {
            return false;
        }
        k = k + 1;
    }
    proof {
        let n = kfuncs@.len() as int;
        lemma_table_next(names, 7 + n);
        assert(names[7 + n] == encode_utf8(".ksyms"@));
        assert(names.take(8 + n) =~= names);
    }
    total + ".ksyms".as_bytes().len() as u128 + 1 <= max
}

/// Whether a BTF can be patched.
pub fn can_patch_btf(btf: &[u8], kfuncs: &[&str]) -> (r: bool)
    ensures
        r == can_patch(btf@, name_bytes(kfuncs@)),
{
    if btf.len() < BTF_HEADER_LEN || read_u16(btf, 0) != BTF_MAGIC || read_u32(btf, 8) != 0
        || read_u32(btf, 16) != read_u32(btf, 12) {
        return true;
    }
    let hdr_len = read_u32(btf, 4);
    let type_len = read_u32(btf, 12);
    let str_len = read_u32(btf, 20);
    if hdr_len as u64 + type_len as u64 + str_len as u64 > btf.len() as u64 {
        return false;
    }
    let types_end = hdr_len as usize + type_len as usize;
    let types = vstd::slice::slice_subrange(btf, hdr_len as usize, types_end);
    let strings = vstd::slice::slice_subrange(btf, types_end, types_end + str_len as usize);
    match walk_types(types, strings) {
        Walk::End(id) => {
            let n = kfuncs.len() as u128;
            hdr_len >= 24 && type_len as u128 + 96 + 60 * n <= usize::MAX as u128 && strings_fit(
                str_len,
                kfuncs,
            ) && id as u128 + 6 + 2 * n < u32::MAX as u128
        },
        _ => true,
    }
}

/// What adding entries to an object comes to.
pub enum Injection {
    /// The BTF that is to take the place of the one in the object.
    Patched(Vec<u8>),
    /// The object has the entries already.
    Present,
    /// The object is not as it should be, with what is wrong.
    Refused(String),
    /// What has to be read is not in the object, or what is made cannot be counted.
    OutOfBounds,
}

/// Whether the BTF of an object can be found and patched, or is refused.
pub open spec fn can_inject(object: Seq<u8>, kfuncs: Seq<Seq<u8>>) -> bool {
    elf::is_elf64(object) ==> {
        &&& elf::section(object, encode_utf8(".BTF"@)) != elf::Section::OutOfBounds
        &&& elf::extracted(object, ".BTF"@) matches Ok(btf) ==> can_patch(btf, kfuncs)
    }
}

/// Adds entries for kernel functions to the BTF of an object.
pub fn inject_kfunc_externs(object: &[u8], kfuncs: &[&str]) -> (r: Injection)
    ensures
        !can_inject(object@, name_bytes(kfuncs@)) ==> r == Injection::OutOfBounds,
        can_inject(object@, name_bytes(kfuncs@)) ==> match elf::extracted(object@, ".BTF"@) {
            Err(e) => r matches Injection::Refused(m) && m@ == e,
            Ok(btf) => match judged(btf) {
                Err(e) => r matches Injection::Refused(m) && m@ == e.text(),
                Ok(None) => r == Injection::Present,
                Ok(Some(id)) => r matches Injection::Patched(out) && out@ == patched(
                    btf,
                    name_bytes(kfuncs@),
                    id,
                ),
            },
        },
{
    if elf::is_elf(object) && elf::find_section(object, ".BTF").is_out_of_bounds() {
        return Injection::OutOfBounds;
    }
    let btf = match elf::extract_section(object, ".BTF") {
        Ok(btf) => btf,
        Err(e) => return Injection::Refused(e),
    };
    if !can_patch_btf(btf.as_slice(), kfuncs) {
        return Injection::OutOfBounds;
    }
    match patch_btf(btf.as_slice(), kfuncs) {
        Ok(Some(out)) => Injection::Patched(out),
        Ok(None) => Injection::Present,
        Err(e) => Injection::Refused(e.message()),
    }
}

/// Whether the records from `at` on end where the types end.
pub open spec fn ends_exactly(types: Seq<u8>, at: int) -> bool
    decreases
            if at < types.len() {
                types.len() - at
            } else {
                0
            },
{
    let info = bytes::le32(types, at + 4);
    if at >= types.len() {
        at == types.len()
    } else {
        match extra_len(kind_of(info), members_of(info)) {
            Some(extra) => ends_exactly(types, at + BTF_RECORD_LEN + extra),
            None => false,
        }
    }
}

/// Records and strings that are added behind do not disturb the walk over what is before them,
/// but for a section name that they complete.
proof fn lemma_walk_on(
    types: Seq<u8>,
    strings: Seq<u8>,
    more_types: Seq<u8>,
    more_strings: Seq<u8>,
    at: int,
    from: u32,
    to: u32,
)
    requires
        0 <= at,
        walk(types, strings, at, from) == Walk::End(to),
        ends_exactly(types, at),
    ensures
        walk(types + more_types, strings + more_strings, at, from) == Walk::Injected || walk(
            types + more_types,
            strings + more_strings,
            at,
            from,
        ) == walk(types + more_types, strings + more_strings, types.len() as int, to),
    decreases
            if at < types.len() {
                types.len() - at
            } else {
                0
            },
{
    if at < types.len() {
        let all = types + more_types;
        assert(bytes::le32(all, at) == bytes::le32(types, at));
        assert(bytes::le32(all, at + 4) == bytes::le32(types, at + 4));
        let info = bytes::le32(types, at + 4);
        let extra = extra_len(kind_of(info), members_of(info))->0;
        lemma_walk_on(
            types,
            strings,
            more_types,
            more_strings,
            at + BTF_RECORD_LEN + extra,
            (from + 1) as u32,
            to,
        );
    }
}

/// One step of a walk over records that are given as words.
proof fn lemma_walk_word(
    types: Seq<u8>,
    words: Seq<u32>,
    strings: Seq<u8>,
    j: int,
    from: u32,
    extra: int,
)
    requires
        0 <= j,
        0 <= extra,
        j + 3 + extra <= words.len(),
        extra_len(kind_of(words[j + 1] as int), members_of(words[j + 1] as int)) == Some(
            (4 * extra) as nat,
        ),
    ensures
        ({
            let all = types + bytes::words_bytes(words);
            ||| walk(all, strings, types.len() + 4 * j, from) == Walk::Injected
            ||| walk(all, strings, types.len() + 4 * j, from) == walk(
                all,
                strings,
                types.len() + 4 * (j + 3 + extra),
                (from + 1) as u32,
            )
        }),
{
    lemma_word_at(types, words, j + 1);
    bytes::lemma_words(words);
}

proof fn lemma_word_at(types: Seq<u8>, words: Seq<u32>, j: int)
    requires
        0 <= j < words.len(),
    ensures
        bytes::le32(types + bytes::words_bytes(words), types.len() + 4 * j) == words[j],
{
    bytes::lemma_words(words);
    let more = bytes::words_bytes(words);
    let all = types + more;
    let at = types.len() + 4 * j;
    assert(bytes::le32(more, 4 * j) == words[j]);
    assert(all[at] == more[4 * j]);
    assert(all[at + 1] == more[4 * j + 1]);
    assert(all[at + 2] == more[4 * j + 2]);
    assert(all[at + 3] == more[4 * j + 3]);
}

proof fn lemma_info_words()
    ensures
        kind_of(info_word(BTF_KIND_INT, 0) as int) == 1,
        kind_of(info_word(BTF_KIND_STRUCT, 0) as int) == 4,
        members_of(info_word(BTF_KIND_STRUCT, 0) as int) == 0,
        kind_of(info_word(BTF_KIND_PTR, 0) as int) == 2,
        kind_of(info_word(BTF_KIND_FUNC_PROTO, 3) as int) == 13,
        members_of(info_word(BTF_KIND_FUNC_PROTO, 3) as int) == 3,
        kind_of(info_word(BTF_KIND_FUNC, BTF_FUNC_EXTERN) as int) == 12,
{
    assert((1u32 << 24u32) | 0 == 0x0100_0000u32) by (bit_vector);
    assert((4u32 << 24u32) | 0 == 0x0400_0000u32) by (bit_vector);
    assert((2u32 << 24u32) | 0 == 0x0200_0000u32) by (bit_vector);
    assert((13u32 << 24u32) | 3 == 0x0d00_0003u32) by (bit_vector);
    assert((12u32 << 24u32) | 2 == 0x0c00_0002u32) by (bit_vector);
}

proof fn lemma_section_info(n: u32)
    requires
        n <= 0xffff,
    ensures
        kind_of(info_word(BTF_KIND_DATASEC, n) as int) == BTF_KIND_DATASEC,
{
    assert(((15u32 << 24u32) | n) / 0x100_0000 % 0x20 == 15) by (bit_vector)
        requires
            n <= 0xffff,
    ;
}

/// The words of the records of kernel function `k`.
proof fn lemma_kfunc_words(id: u32, old_len: u32, names: Seq<Seq<u8>>, n: int, k: int)
    requires
        0 <= k < n,
    ensures
        all_kfunc_records(id, old_len, names, n).len() == 12 * n,
        all_kfunc_records(id, old_len, names, n)[12 * k + 1] == info_word(BTF_KIND_FUNC_PROTO, 3),
        all_kfunc_records(id, old_len, names, n)[12 * k + 10] == info_word(
            BTF_KIND_FUNC,
            BTF_FUNC_EXTERN,
        ),
    decreases n,
{
    lemma_kfunc_records_len(id, old_len, names, n);
    lemma_kfunc_records_len(id, old_len, names, n - 1);
    if k < n - 1 {
        lemma_kfunc_words(id, old_len, names, n - 1, k);
    }
}

/// The walk over the records of the kernel functions, from function `k` on.
proof fn lemma_walk_kfuncs(
    types: Seq<u8>,
    strings: Seq<u8>,
    id: u32,
    old_len: u32,
    kfuncs: Seq<Seq<u8>>,
    k: int,
    from: u32,
)
    requires
        0 <= k <= kfuncs.len(),
        kfuncs.len() <= 0xffff,
        is_ksyms(strings, name_at(old_len, added_names(kfuncs), 7 + kfuncs.len() as int) as int),
    ensures
        walk(
            types + bytes::words_bytes(added_records(id, old_len, kfuncs)),
            strings,
            types.len() + 4 * (21 + 12 * k),
            from,
        ) == Walk::Injected,
    decreases kfuncs.len() - k,
{
    let words = added_records(id, old_len, kfuncs);
    let names = added_names(kfuncs);
    let n = kfuncs.len() as int;
    let base = base_records(id, old_len, names);
    let funcs = all_kfunc_records(id, old_len, names, n);
    lemma_added_len(id, old_len, kfuncs);
    lemma_kfunc_records_len(id, old_len, names, n);
    assert(base.len() == 21);
    if k < n {
        lemma_info_words();
        lemma_kfunc_words(id, old_len, names, n, k);
        let j = 21 + 12 * k;
        assert(words[j + 1] == funcs[12 * k + 1]);
        assert(words[j + 10] == funcs[12 * k + 10]);
        lemma_walk_word(types, words, strings, j, from, 6);
        lemma_walk_word(types, words, strings, j + 9, (from + 1) as u32, 0);
        lemma_walk_kfuncs(
            types,
            strings,
            id,
            old_len,
            kfuncs,
            k + 1,
            ((from + 1) as u32 + 1) as u32,
        );
    } else {
        let j = 21 + 12 * n;
        lemma_section_info(n as u32);
        lemma_word_at(types, words, j);
        lemma_word_at(types, words, j + 1);
        assert(words[j] == name_at(old_len, names, 7 + n));
        assert(words[j + 1] == info_word(BTF_KIND_DATASEC, n as u32));
        bytes::lemma_words(words);
    }
}

/// The walk over all added records ends at the section.
proof fn lemma_walk_added(
    types: Seq<u8>,
    strings: Seq<u8>,
    id: u32,
    old_len: u32,
    kfuncs: Seq<Seq<u8>>,
    from: u32,
)
    requires
        kfuncs.len() <= 0xffff,
        is_ksyms(strings, name_at(old_len, added_names(kfuncs), 7 + kfuncs.len() as int) as int),
    ensures
        walk(
            types + bytes::words_bytes(added_records(id, old_len, kfuncs)),
            strings,
            types.len() as int,
            from,
        ) == Walk::Injected,
{
    let words = added_records(id, old_len, kfuncs);
    let names = added_names(kfuncs);
    let base = base_records(id, old_len, names);
    lemma_added_len(id, old_len, kfuncs);
    lemma_info_words();
    assert(base.len() == 21);
    assert(words[1] == base[1] && words[5] == base[5] && words[9] == base[9] && words[13] == base[13]
        && words[16] == base[16] && words[19] == base[19]);
    let i1 = (from + 1) as u32;
    let i2 = (i1 + 1) as u32;
    let i3 = (i2 + 1) as u32;
    let i4 = (i3 + 1) as u32;
    let i5 = (i4 + 1) as u32;
    let i6 = (i5 + 1) as u32;
    lemma_walk_word(types, words, strings, 0, from, 1);
    lemma_walk_word(types, words, strings, 4, i1, 1);
    lemma_walk_word(types, words, strings, 8, i2, 1);
    lemma_walk_word(types, words, strings, 12, i3, 0);
    lemma_walk_word(types, words, strings, 15, i4, 0);
    lemma_walk_word(types, words, strings, 18, i5, 0);
    lemma_walk_kfuncs(types, strings, id, old_len, kfuncs, 0, i6);
}

proof fn lemma_ksyms_name(strings: Seq<u8>, kfuncs: Seq<Seq<u8>>, old_len: u32)
    requires
        strings.len() == old_len,
        old_len + table(added_names(kfuncs)).len() <= u32::MAX,
    ensures
        is_ksyms(
            strings + table(added_names(kfuncs)),
            name_at(old_len, added_names(kfuncs), 7 + kfuncs.len() as int) as int,
        ),
{
    let names = added_names(kfuncs);
    let n = kfuncs.len() as int;
    let front = names.take(7 + n);
    let word = encode_utf8(".ksyms"@);
    reveal_strlit(".ksyms");
    assert(is_ascii_chars(".ksyms"@));
    is_ascii_chars_encode_utf8(".ksyms"@);
    assert(names.drop_last() =~= front);
    assert(names.last() == word);
    assert(table(names) == table(front) + word + seq![0u8]);
    let all = strings + table(names);
    let at = old_len + table(front).len();
    assert(word.len() == 6);
    assert(word[0] == 0x2e && word[1] == 0x6b && word[2] == 0x73 && word[3] == 0x79 && word[4] == 0x6d
        && word[5] == 0x73) by {
        let c = ".ksyms"@;
        assert(c[0] as u8 == word[0] && c[1] as u8 == word[1] && c[2] as u8 == word[2] && c[3] as u8
            == word[3] && c[4] as u8 == word[4] && c[5] as u8 == word[5]);
    }
    assert(all.subrange(at, at + 7) =~= KSYMS@);
}

/// The header of a patched BTF.
proof fn lemma_patched_header(btf: Seq<u8>, types_len: u32, strings_len: u32, rest: Seq<u8>)
    requires
        btf.len() >= 24,
    ensures
        ({
            let head = btf.take(12) + bytes::word_bytes(types_len) + bytes::word_bytes(types_len)
                + bytes::word_bytes(strings_len);
            let out = head + rest;
            &&& head.len() == 24
            &&& bytes::le16(out, 0) == bytes::le16(btf, 0)
            &&& bytes::le32(out, 4) == bytes::le32(btf, 4)
            &&& bytes::le32(out, 8) == bytes::le32(btf, 8)
            &&& bytes::le32(out, 12) == types_len
            &&& bytes::le32(out, 16) == types_len
            &&& bytes::le32(out, 20) == strings_len
        }),
{
    let t = bytes::word_bytes(types_len);
    let s = bytes::word_bytes(strings_len);
    let head = btf.take(12) + t + t + s;
    let out = head + rest;
    bytes::lemma_word_read_back(types_len);
    bytes::lemma_word_read_back(strings_len);
    assert forall|i: int| 0 <= i < 12 implies out[i] == btf[i] by {
        assert(head[i] == btf[i]);
    }
    assert forall|i: int| 0 <= i < 4 implies out[12 + i] == t[i] && out[16 + i] == t[i] && out[20
        + i] == #[trigger] s[i] by {
        assert(head[12 + i] == t[i] && head[16 + i] == t[i] && head[20 + i] == s[i]);
    }
    assert(s[0] == out[20] && s[1] == out[21] && s[2] == out[22] && s[3] == out[23]);
}

/// Adding entries keeps what was there: the old types and strings stand where they stood, with
/// the same ids and offsets, and the added ones follow them.
pub proof fn law_patched_keeps(btf: Seq<u8>, kfuncs: Seq<Seq<u8>>, id: u32)
    requires
        judged(btf) == Ok::<Option<u32>, BtfError>(Some(id)),
        is_complete(btf),
        header_len(btf) >= BTF_HEADER_LEN,
        fits(btf, kfuncs, u32::MAX as int),
    ensures
        header_error(patched(btf, kfuncs, id)) is None,
        is_complete(patched(btf, kfuncs, id)),
        header_len(patched(btf, kfuncs, id)) == header_len(btf),
        types_of(patched(btf, kfuncs, id)) == types_of(btf) + bytes::words_bytes(
            added_records(id, strings_len(btf) as u32, kfuncs),
        ),
        strings_of(patched(btf, kfuncs, id)) == strings_of(btf) + table(added_names(kfuncs)),
{
    let out = patched(btf, kfuncs, id);
    let old_len = strings_len(btf) as u32;
    let records = bytes::words_bytes(added_records(id, old_len, kfuncs));
    let names = table(added_names(kfuncs));
    lemma_added_len(id, old_len, kfuncs);
    let new_types_len = (types_len(btf) + records.len()) as u32;
    let new_strings_len = (strings_len(btf) + names.len()) as u32;
    let t = bytes::word_bytes(new_types_len);
    let s = bytes::word_bytes(new_strings_len);
    let head = btf.take(12) + t + t + s;
    let more = btf.subrange(24, header_len(btf));
    let rest = more + types_of(btf) + records + strings_of(btf) + names;
    lemma_patched_header(btf, new_types_len, new_strings_len, rest);
    assert(out =~= head + rest);
    assert(types_of(out) =~= types_of(btf) + records);
    assert(strings_of(out) =~= strings_of(btf) + names);
}

/// Adding entries once is enough: a patched BTF has the section, so that patching it again does
/// nothing. The records of the BTF must end where its types end, and a section has room for as
/// many functions as its record can count.
pub proof fn law_patched_once(btf: Seq<u8>, kfuncs: Seq<Seq<u8>>, id: u32)
    requires
        judged(btf) == Ok::<Option<u32>, BtfError>(Some(id)),
        is_complete(btf),
        header_len(btf) >= BTF_HEADER_LEN,
        fits(btf, kfuncs, u32::MAX as int),
        ends_exactly(types_of(btf), 0),
        kfuncs.len() <= 0xffff,
    ensures
        is_complete(patched(btf, kfuncs, id)),
        judged(patched(btf, kfuncs, id)) == Ok::<Option<u32>, BtfError>(None),
{
    let old_len = strings_len(btf) as u32;
    let records = bytes::words_bytes(added_records(id, old_len, kfuncs));
    let names = table(added_names(kfuncs));
    law_patched_keeps(btf, kfuncs, id);
    lemma_walk_on(types_of(btf), strings_of(btf), records, names, 0, 1, id);
    lemma_ksyms_name(strings_of(btf), kfuncs, old_len);
    lemma_walk_added(types_of(btf), strings_of(btf) + names, id, old_len, kfuncs, id);
}

/// What is wrong with a header, by its bytes, and what is looked at first. What is said about
/// each fault.
pub proof fn law_header(btf: Seq<u8>, kind: u32)
    ensures
        header_error(btf) == Some(BtfError::TooShort) <==> btf.len() < 24,
        btf.len() >= 24 ==> {
            let magic = btf[0] == 0x9f && btf[1] == 0xeb;
            let types = bytes::le32(btf, 12);
            let layout = bytes::le32(btf, 8) == 0 && bytes::le32(btf, 16) == types;
            &&& header_error(btf) == Some(BtfError::BadMagic) <==> !magic
            &&& header_error(btf) == Some(BtfError::UnexpectedLayout) <==> magic && !layout
            &&& header_error(btf) is None <==> magic && layout
            &&& is_complete(btf) <==> bytes::le32(btf, 4) + types + bytes::le32(btf, 20)
                <= btf.len()
        },
        BtfError::TooShort.text() == "BTF too short"@,
        BtfError::BadMagic.text() == "bad BTF magic"@,
        BtfError::UnexpectedLayout.text() == "unexpected BTF section layout"@,
        BtfError::TruncatedRecord.text() == "truncated BTF type record"@,
        BtfError::UnknownKind(kind).text() == "unknown BTF kind "@ + text::decimal(kind as nat),
{
}

/// The parts of a complete BTF: the header, the types right behind it, and the strings right
/// behind those, each as long as the header says.
pub proof fn law_parts(header: Seq<u8>, types: Seq<u8>, strings: Seq<u8>, rest: Seq<u8>)
    requires
        header.len() >= 24,
        bytes::le32(header, 4) == header.len(),
        bytes::le32(header, 12) == types.len(),
        bytes::le32(header, 20) == strings.len(),
    ensures
        types_of(header + types + strings + rest) == types,
        strings_of(header + types + strings + rest) == strings,
        is_complete(header + types + strings + rest),
{
    let btf = header + types + strings + rest;
    assert(header_len(btf) == header.len());
    assert(types_len(btf) == types.len());
    assert(strings_len(btf) == strings.len());
    assert(types_of(btf) =~= types);
    assert(strings_of(btf) =~= strings);
}

/// How many bytes follow the twelve that every record has, for each kind.
pub proof fn law_record_len(kind: int, members: nat)
    ensures
        extra_len(kind, members) is Some <==> 1 <= kind <= 19,
        kind == 1 || kind == 14 || kind == 17 ==> extra_len(kind, members) == Some(4nat),
        kind == 3 ==> extra_len(kind, members) == Some(12nat),
        kind == 4 || kind == 5 || kind == 15 || kind == 19 ==> extra_len(kind, members) == Some(
            12 * members,
        ),
        kind == 6 || kind == 13 ==> extra_len(kind, members) == Some(8 * members),
        kind == 2 || 7 <= kind <= 12 || kind == 16 || kind == 18 ==> extra_len(kind, members)
            == Some(0nat),
{
}

/// The walk over records, from the first of them on. Nothing left: the next id is free. Less than
/// twelve bytes: the record is cut short. A section that goes by `.ksyms`: there is nothing to
/// do. A kind beyond the last: it is not known. Otherwise the walk goes on behind the record, and
/// the next id is one more.
pub proof fn law_walk(record: Seq<u8>, rest: Seq<u8>, strings: Seq<u8>, at: int, id: u32)
    requires
        0 <= at <= record.len(),
    ensures
        ({
            let types = record + rest;
            let left = types.len() - at;
            let name = bytes::le32(types, at);
            let info = bytes::le32(types, at + 4);
            let kind = info / 16777216 % 32;
            let found = kind == 15 && name + 7 <= strings.len() && strings.subrange(name, name + 7)
                == encode_utf8(".ksyms"@).push(0);
            let r = walk(types, strings, at, id);
            &&& left == 0 ==> r == Walk::End(id)
            &&& 0 < left < 12 ==> r == Walk::Truncated
            &&& left >= 12 && found ==> r == Walk::Injected
            &&& left >= 12 && !(1 <= kind <= 19) ==> r == Walk::Unknown(kind as u32)
            &&& left >= 12 && 1 <= kind <= 19 && !found ==> r == walk(
                types,
                strings,
                at + 12 + extra_len(kind, (info % 65536) as nat)->0,
                (id + 1) as u32,
            )
            &&& forall|beyond: int|
                beyond > types.len() ==> #[trigger] walk(types, strings, beyond, id) == Walk::End(
                    id,
                )
        }),
{
    lemma_ksyms_bytes();
}

proof fn lemma_ksyms_bytes()
    ensures
        KSYMS@ == encode_utf8(".ksyms"@).push(0),
{
    let word = encode_utf8(".ksyms"@);
    reveal_strlit(".ksyms");
    assert(is_ascii_chars(".ksyms"@));
    is_ascii_chars_encode_utf8(".ksyms"@);
    let c = ".ksyms"@;
    assert(c[0] as u8 == word[0] && c[1] as u8 == word[1] && c[2] as u8 == word[2] && c[3] as u8
        == word[3] && c[4] as u8 == word[4] && c[5] as u8 == word[5]);
    assert(KSYMS@ =~= word.push(0));
}

/// What a BTF needs is what the walk over its types comes to, if its header is right.
pub proof fn law_judged(btf: Seq<u8>)
    ensures
        header_error(btf) matches Some(e) ==> judged(btf) == Err::<Option<u32>, BtfError>(e),
        header_error(btf) is None ==> match walk(types_of(btf), strings_of(btf), 0, 1) {
            Walk::End(id) => judged(btf) == Ok::<Option<u32>, BtfError>(Some(id)),
            Walk::Injected => judged(btf) == Ok::<Option<u32>, BtfError>(None),
            Walk::Truncated => judged(btf) == Err::<Option<u32>, BtfError>(
                BtfError::TruncatedRecord,
            ),
            Walk::Unknown(kind) => judged(btf) == Err::<Option<u32>, BtfError>(
                BtfError::UnknownKind(kind),
            ),
        },
{
}

/// The names that are added: seven for the prototype, one for each function, and the section's.
pub proof fn law_added_names(kfuncs: Seq<Seq<u8>>, k: int)
    ensures
        added_names(kfuncs).len() == 8 + kfuncs.len(),
        added_names(kfuncs).take(7) == seq![
            encode_utf8("int"@),
            encode_utf8("char"@),
            encode_utf8("unsigned long"@),
            encode_utf8("path"@),
            encode_utf8("path"@),
            encode_utf8("buf"@),
            encode_utf8("buf__sz"@),
        ],
        0 <= k < kfuncs.len() ==> added_names(kfuncs)[7 + k] == kfuncs[k],
        added_names(kfuncs)[7 + kfuncs.len() as int] == encode_utf8(".ksyms"@),
{
    assert(added_names(kfuncs).take(7) =~= base_names());
}

proof fn lemma_table_holds(list: Seq<Seq<u8>>, k: int)
    requires
        0 <= k < list.len(),
    ensures
        ({
            let at = table(list.take(k)).len() as int;
            let end = at + list[k].len();
            &&& end < table(list).len()
            &&& table(list).subrange(at, end) == list[k]
            &&& table(list)[end] == 0
        }),
    decreases list.len(),
{
    let front = list.drop_last();
    let at = table(list.take(k)).len() as int;
    let end = at + list[k].len();
    if k < front.len() {
        lemma_table_holds(front, k);
        assert(front.take(k) =~= list.take(k));
        assert(front[k] == list[k]);
        assert(table(list).subrange(at, end) =~= table(front).subrange(at, end));
    } else {
        assert(list.take(k) =~= front);
        assert(table(list).subrange(at, end) =~= list[k]);
    }
}

/// A name is found where records say that it is: at its offset in the strings, old and new, and a
/// zero byte ends it.
pub proof fn law_names_are_found(strings: Seq<u8>, list: Seq<Seq<u8>>, k: int)
    requires
        0 <= k < list.len(),
        strings.len() + table(list).len() <= u32::MAX,
    ensures
        ({
            let all = strings + table(list);
            let at = name_at(strings.len() as u32, list, k) as int;
            let end = at + list[k].len();
            &&& strings.len() <= at
            &&& end < all.len()
            &&& all.subrange(at, end) == list[k]
            &&& all[end] == 0
        }),
{
    lemma_table_take(list, k);
    lemma_table_holds(list, k);
    let all = strings + table(list);
    let at = name_at(strings.len() as u32, list, k) as int;
    let inner = table(list.take(k)).len() as int;
    assert(at == strings.len() + inner);
    let len = list[k].len() as int;
    assert(all.subrange(at, at + len) =~= table(list).subrange(inner, inner + len));
}

/// The records of the prototype's types, word by word: `int`, `char` and `unsigned long` with
/// their sizes and encodings, `struct path`, and pointers to that and to `char`.
pub proof fn law_base_words(id: u32, old_len: u32, kfuncs: Seq<Seq<u8>>)
    requires
        section_id(id, kfuncs.len() as int) < u32::MAX,
    ensures
        ({
            let names = added_names(kfuncs);
            let words = added_records(id, old_len, kfuncs);
            &&& words.len() == 24 + 15 * kfuncs.len()
            &&& words.take(4) == seq![name_at(old_len, names, 0), 0x0100_0000u32, 4, 0x0100_0020]
            &&& words.subrange(4, 8) == seq![
                name_at(old_len, names, 1),
                0x0100_0000u32,
                1,
                0x0100_0008,
            ]
            &&& words.subrange(8, 12) == seq![name_at(old_len, names, 2), 0x0100_0000u32, 8, 64]
            &&& words.subrange(12, 15) == seq![name_at(old_len, names, 3), 0x0400_0000u32, 0]
            &&& words.subrange(15, 18) == seq![0u32, 0x0200_0000, (id + 3) as u32]
            &&& words.subrange(18, 21) == seq![0u32, 0x0200_0000, (id + 1) as u32]
        }),
{
    let names = added_names(kfuncs);
    let words = added_records(id, old_len, kfuncs);
    let base = base_records(id, old_len, names);
    lemma_added_len(id, old_len, kfuncs);
    lemma_info_values();
    assert(base.len() == 21);
    assert forall|j: int| 0 <= j < 21 implies words[j] == base[j] by {}
    assert(base.take(4) =~= seq![name_at(old_len, names, 0), 0x0100_0000u32, 4, 0x0100_0020]);
    assert(words.take(4) =~= base.take(4));
    assert(words.subrange(4, 8) =~= seq![
        name_at(old_len, names, 1),
        0x0100_0000u32,
        1,
        0x0100_0008,
    ]);
    assert(words.subrange(8, 12) =~= seq![name_at(old_len, names, 2), 0x0100_0000u32, 8, 64]);
    assert(words.subrange(12, 15) =~= seq![name_at(old_len, names, 3), 0x0400_0000u32, 0]);
    assert(words.subrange(15, 18) =~= seq![0u32, 0x0200_0000, (id + 3) as u32]);
    assert(words.subrange(18, 21) =~= seq![0u32, 0x0200_0000, (id + 1) as u32]);
}

proof fn lemma_info_values()
    ensures
        info_word(BTF_KIND_INT, 0) == 0x0100_0000,
        info_word(BTF_KIND_STRUCT, 0) == 0x0400_0000,
        info_word(BTF_KIND_PTR, 0) == 0x0200_0000,
        info_word(BTF_KIND_FUNC_PROTO, 3) == 0x0d00_0003,
        info_word(BTF_KIND_FUNC, BTF_FUNC_EXTERN) == 0x0c00_0002,
{
    assert((1u32 << 24u32) | 0 == 0x0100_0000u32) by (bit_vector);
    assert((4u32 << 24u32) | 0 == 0x0400_0000u32) by (bit_vector);
    assert((2u32 << 24u32) | 0 == 0x0200_0000u32) by (bit_vector);
    assert((13u32 << 24u32) | 3 == 0x0d00_0003u32) by (bit_vector);
    assert((12u32 << 24u32) | 2 == 0x0c00_0002u32) by (bit_vector);
}

proof fn lemma_kfunc_part(id: u32, old_len: u32, names: Seq<Seq<u8>>, n: int, k: int)
    requires
        0 <= k < n,
    ensures
        all_kfunc_records(id, old_len, names, n).len() == 12 * n,
        all_kfunc_records(id, old_len, names, n).subrange(12 * k, 12 * k + 12) == kfunc_records(
            id,
            old_len,
            names,
            k,
        ),
    decreases n,
{
    lemma_kfunc_records_len(id, old_len, names, n);
    lemma_kfunc_records_len(id, old_len, names, n - 1);
    let all = all_kfunc_records(id, old_len, names, n);
    let front = all_kfunc_records(id, old_len, names, n - 1);
    if k < n - 1 {
        lemma_kfunc_part(id, old_len, names, n - 1, k);
        assert(all.subrange(12 * k, 12 * k + 12) =~= front.subrange(12 * k, 12 * k + 12));
    } else {
        assert(all.subrange(12 * k, 12 * k + 12) =~= kfunc_records(id, old_len, names, k));
    }
}

/// The records of each function, word by word: a prototype with three parameters that returns
/// `int`, and an extern function that has it.
pub proof fn law_kfunc_words(id: u32, old_len: u32, kfuncs: Seq<Seq<u8>>, k: int)
    requires
        0 <= k < kfuncs.len(),
        section_id(id, kfuncs.len() as int) < u32::MAX,
    ensures
        ({
            let names = added_names(kfuncs);
            added_records(id, old_len, kfuncs).subrange(21 + 12 * k, 33 + 12 * k) == seq![
                0u32,
                0x0d00_0003,
                id,
                name_at(old_len, names, 4),
                (id + 4) as u32,
                name_at(old_len, names, 5),
                (id + 5) as u32,
                name_at(old_len, names, 6),
                (id + 2) as u32,
                name_at(old_len, names, 7 + k),
                0x0c00_0002,
                (id + 6 + 2 * k) as u32,
            ]
        }),
{
    let names = added_names(kfuncs);
    let n = kfuncs.len() as int;
    let words = added_records(id, old_len, kfuncs);
    let funcs = all_kfunc_records(id, old_len, names, n);
    lemma_added_len(id, old_len, kfuncs);
    lemma_kfunc_part(id, old_len, names, n, k);
    lemma_info_values();
    assert(base_records(id, old_len, names).len() == 21);
    assert(words.subrange(21 + 12 * k, 33 + 12 * k) =~= funcs.subrange(12 * k, 12 * k + 12));
    assert(kfunc_records(id, old_len, names, k) =~= seq![
        0u32,
        0x0d00_0003,
        id,
        name_at(old_len, names, 4),
        (id + 4) as u32,
        name_at(old_len, names, 5),
        (id + 5) as u32,
        name_at(old_len, names, 6),
        (id + 2) as u32,
        name_at(old_len, names, 7 + k),
        0x0c00_0002,
        (id + 6 + 2 * k) as u32,
    ]);
}

proof fn lemma_entry(id: u32, n: int, k: int)
    requires
        0 <= k < n,
    ensures
        section_entries(id, n).len() == 3 * n,
        section_entries(id, n)[3 * k] == (id + 7 + 2 * k) as u32,
        section_entries(id, n)[3 * k + 1] == 0,
        section_entries(id, n)[3 * k + 2] == 0,
    decreases n,
{
    lemma_entries_len(id, n);
    lemma_entries_len(id, n - 1);
    if k < n - 1 {
        lemma_entry(id, n - 1, k);
    }
}

/// The record of the section, word by word: it counts the functions, and has an entry for each
/// that refers to the function's own record.
pub proof fn law_section_words(id: u32, old_len: u32, kfuncs: Seq<Seq<u8>>, k: int)
    requires
        section_id(id, kfuncs.len() as int) < u32::MAX,
        kfuncs.len() <= 0xffff,
    ensures
        ({
            let names = added_names(kfuncs);
            let words = added_records(id, old_len, kfuncs);
            let n = kfuncs.len() as int;
            let at = 21 + 12 * n;
            &&& words[at] == name_at(old_len, names, 7 + n)
            &&& words[at + 1] == 0x0f00_0000 + n
            &&& words[at + 2] == 0
            &&& 0 <= k < n ==> words.subrange(at + 3 + 3 * k, at + 6 + 3 * k) == seq![
                (id + 7 + 2 * k) as u32,
                0u32,
                0u32,
            ]
        }),
{
    let names = added_names(kfuncs);
    let words = added_records(id, old_len, kfuncs);
    let n = kfuncs.len() as int;
    let at = 21 + 12 * n;
    lemma_added_len(id, old_len, kfuncs);
    lemma_kfunc_records_len(id, old_len, names, n);
    lemma_entries_len(id, n);
    assert(base_records(id, old_len, names).len() == 21);
    let m = n as u32;
    assert((15u32 << 24u32) | m == 0x0f00_0000 + m) by (bit_vector)
        requires
            m <= 0xffff,
    ;
    if 0 <= k < n {
        lemma_entry(id, n, k);
        let entries = section_entries(id, n);
        assert(words[at + 3 + 3 * k] == entries[3 * k]);
        assert(words[at + 3 + 3 * k + 1] == entries[3 * k + 1]);
        assert(words[at + 3 + 3 * k + 2] == entries[3 * k + 2]);
        assert(words.subrange(at + 3 + 3 * k, at + 6 + 3 * k) =~= seq![
            (id + 7 + 2 * k) as u32,
            0u32,
            0u32,
        ]);
    }
}

/// Patching leaves the header alone but for the three lengths in it, and adds nothing but types
/// and strings.
pub proof fn law_patched_header(btf: Seq<u8>, kfuncs: Seq<Seq<u8>>, id: u32)
    requires
        judged(btf) == Ok::<Option<u32>, BtfError>(Some(id)),
        is_complete(btf),
        header_len(btf) >= 24,
        fits(btf, kfuncs, u32::MAX as int),
    ensures
        ({
            let out = patched(btf, kfuncs, id);
            let hdr = bytes::le32(btf, 4);
            let types = bytes::le32(btf, 12) + 96 + 60 * kfuncs.len();
            let strings = bytes::le32(btf, 20) + table(added_names(kfuncs)).len();
            &&& out.take(12) == btf.take(12)
            &&& bytes::le32(out, 12) == types
            &&& bytes::le32(out, 16) == types
            &&& bytes::le32(out, 20) == strings
            &&& out.subrange(24, hdr) == btf.subrange(24, hdr)
            &&& out.len() == hdr + types + strings
        }),
{
    let out = patched(btf, kfuncs, id);
    let old_len = strings_len(btf) as u32;
    let records = bytes::words_bytes(added_records(id, old_len, kfuncs));
    let names = table(added_names(kfuncs));
    lemma_added_len(id, old_len, kfuncs);
    let new_types_len = (types_len(btf) + records.len()) as u32;
    let new_strings_len = (strings_len(btf) + names.len()) as u32;
    let t = bytes::word_bytes(new_types_len);
    let s = bytes::word_bytes(new_strings_len);
    let head = btf.take(12) + t + t + s;
    let more = btf.subrange(24, header_len(btf));
    let rest = more + types_of(btf) + records + strings_of(btf) + names;
    lemma_patched_header(btf, new_types_len, new_strings_len, rest);
    assert(out =~= head + rest);
    assert(out.take(12) =~= btf.take(12));
    assert(out.subrange(24, header_len(btf)) =~= more);
}

/// Names stand in the string table one after the other, each with a zero byte at its end.
pub proof fn law_table(list: Seq<Seq<u8>>, name: Seq<u8>)
    ensures
        table(Seq::<Seq<u8>>::empty()) == Seq::<u8>::empty(),
        table(list.push(name)) == table(list) + name.push(0),
{
    assert(list.push(name).drop_last() =~= list);
    assert(table(list.push(name)) =~= table(list) + name.push(0));
}

/// The bytes of names are those of each name, in order.
pub proof fn law_name_bytes(names: Seq<&str>)
    ensures
        name_bytes(names).len() == names.len(),
        forall|i: int| 0 <= i < names.len() ==> #[trigger] name_bytes(names)[i] == encode_utf8(
            names[i]@,
        ),
{
}

/// What can be patched: whatever has a fault in its header or its types, or the section already,
/// needs no more than that what the header speaks of is there. What is to get entries also needs
/// a header of at least 24 bytes, and types, strings and ids that can be counted.
pub proof fn law_can_patch(btf: Seq<u8>, kfuncs: Seq<Seq<u8>>)
    ensures
        header_error(btf) is Some ==> can_patch(btf, kfuncs),
        header_error(btf) is None && !(judged(btf) matches Ok(Some(_))) ==> (can_patch(btf, kfuncs)
            <==> bytes::le32(btf, 4) + bytes::le32(btf, 12) + bytes::le32(btf, 20) <= btf.len()),
        judged(btf) matches Ok(Some(id)) ==> (can_patch(btf, kfuncs) <==> {
            &&& bytes::le32(btf, 4) + bytes::le32(btf, 12) + bytes::le32(btf, 20) <= btf.len()
            &&& bytes::le32(btf, 4) >= 24
            &&& bytes::le32(btf, 12) + 96 + 60 * kfuncs.len() <= usize::MAX
            &&& bytes::le32(btf, 20) + table(added_names(kfuncs)).len() <= usize::MAX
            &&& id + 6 + 2 * kfuncs.len() < u32::MAX
        }),
{
}

/// Which objects are dealt with: all but those whose `.BTF` section cannot be read or patched.
pub proof fn law_can_inject(object: Seq<u8>, kfuncs: Seq<Seq<u8>>)
    ensures
        !elf::is_elf64(object) ==> can_inject(object, kfuncs),
        elf::is_elf64(object) ==> match elf::section(object, encode_utf8(".BTF"@)) {
            elf::Section::OutOfBounds => !can_inject(object, kfuncs),
            elf::Section::At(_, _) => can_inject(object, kfuncs) <==> can_patch(
                elf::extracted(object, ".BTF"@)->Ok_0,
                kfuncs,
            ),
            _ => can_inject(object, kfuncs),
        },
{
}

} // verus!
