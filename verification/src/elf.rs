//! Sections of an ELF object.
use crate::bytes::{self, read_u16, read_u32, read_u64};
use crate::path;
use crate::text;
use vstd::prelude::*;
use vstd::string::*;
use vstd::utf8::*;

verus! {

/// What looking for a section comes to.
pub enum Section {
    /// The section starts at an offset and has a size; all of it is in the object.
    At(usize, usize),
    /// No section has the name.
    Missing,
    /// The name of a section does not end.
    Unterminated,
    /// What has to be read is not in the object.
    OutOfBounds,
}

impl Section {
    pub fn is_out_of_bounds(&self) -> (r: bool)
        ensures
            r == (*self == Section::OutOfBounds),
    {
        match self {
            Section::OutOfBounds => true,
            _ => false,
        }
    }
}

/// Whether a byte string starts as a 64-bit little-endian ELF object does.
pub open spec fn is_elf64(elf: Seq<u8>) -> bool {
    elf.len() > 0x40 && elf[0] == 0x7f && elf[1] == 0x45 && elf[2] == 0x4c && elf[3] == 0x46
        && elf[4] == 2 && elf[5] == 1
}

/// Whether a byte string is a 64-bit little-endian ELF object, by its first bytes.
pub fn is_elf(elf: &[u8]) -> (r: bool)
    ensures
        r == is_elf64(elf@),
{
    elf.len() > 0x40 && elf[0] == 0x7f && elf[1] == 0x45 && elf[2] == 0x4c && elf[3] == 0x46
        && elf[4] == 2 && elf[5] == 1
}

/// Where the header of section `i` starts.
pub open spec fn header_at(elf: Seq<u8>, i: int) -> int {
    bytes::le64(elf, 0x28) + i * bytes::le16(elf, 0x3a)
}

/// How many sections there are.
pub open spec fn section_count(elf: Seq<u8>) -> int {
    bytes::le16(elf, 0x3c)
}

/// The section that holds the names of sections.
pub open spec fn names_section(elf: Seq<u8>) -> int {
    bytes::le16(elf, 0x3e)
}

/// Where the names of sections start.
pub open spec fn names_at(elf: Seq<u8>) -> int {
    bytes::le64(elf, header_at(elf, names_section(elf)) + 0x18)
}

/// Where the name of section `i` starts.
pub open spec fn name_at(elf: Seq<u8>, i: int) -> int {
    names_at(elf) + bytes::le32(elf, header_at(elf, i))
}

/// Looks for a section among those from `i` on.
pub open spec fn scan(elf: Seq<u8>, want: Seq<u8>, i: int) -> Section
    decreases section_count(elf) - i,
{
    let header = header_at(elf, i);
    let start = name_at(elf, i);
    let rest = elf.skip(start);
    let end = text::find(rest, 0u8);
    if i >= section_count(elf) {
        Section::Missing
    } else if header + 4 > elf.len() || start > elf.len() {
        Section::OutOfBounds
    } else if end == rest.len() {
        Section::Unterminated
    } else if rest.take(end) != want {
        scan(elf, want, i + 1)
    } else if header + 0x28 > elf.len() || bytes::le64(elf, header + 0x18) + bytes::le64(
        elf,
        header + 0x20,
    ) > elf.len() {
        Section::OutOfBounds
    } else {
        Section::At(
            bytes::le64(elf, header + 0x18) as usize,
            bytes::le64(elf, header + 0x20) as usize,
        )
    }
}

/// Looks for the first section with a given name.
pub open spec fn section(elf: Seq<u8>, want: Seq<u8>) -> Section {
    if header_at(elf, names_section(elf)) + 0x20 > elf.len() {
        Section::OutOfBounds
    } else {
        scan(elf, want, 0)
    }
}

/// Looks for the first section with a given name in an ELF object.
pub fn find_section(elf: &[u8], want: &str) -> (r: Section)
    requires
        is_elf64(elf@),
    ensures
        r == section(elf@, encode_utf8(want@)),
{
    let len: u64 = elf.len() as u64;
    let wanted = want.as_bytes();
    let shoff = read_u64(elf, 0x28);
    let shentsize = read_u16(elf, 0x3a) as u64;
    let shnum = read_u16(elf, 0x3c) as u64;
    let shstrndx = read_u16(elf, 0x3e) as u64;
    assert(shstrndx * shentsize <= 0xffff * 0xffff) by (nonlinear_arith)
        requires
            shstrndx <= 0xffff,
            shentsize <= 0xffff,
    ;
    assert(0 <= shstrndx * shentsize) by (nonlinear_arith);
    if len < 0x20 || shoff > len - 0x20 || shstrndx * shentsize > len - 0x20 - shoff {
        return Section::OutOfBounds;
    }
    let names = read_u64(elf, (shoff + shstrndx * shentsize + 0x18) as usize);
    let mut i: u64 = 0;
    while i < shnum
        invariant
            i <= shnum <= 0xffff,
            shentsize <= 0xffff,
            len == elf@.len(),
            elf@.len() <= usize::MAX,
            len > 0x40,
            shoff == bytes::le64(elf@, 0x28),
            shentsize == bytes::le16(elf@, 0x3a),
            shnum == section_count(elf@),
            names == names_at(elf@),
            header_at(elf@, names_section(elf@)) + 0x20 <= elf@.len(),
            wanted@ == encode_utf8(want@),
            section(elf@, wanted@) == scan(elf@, wanted@, i as int),
        decreases shnum - i,
    {
        assert(0 <= i * shentsize <= 0xffff * 0xffff) by (nonlinear_arith)
            requires
                i <= 0xffff,
                shentsize <= 0xffff,
        ;
        if shoff > len - 4 || i * shentsize > len - 4 - shoff {
            return Section::OutOfBounds;
        }
        let header = (shoff + i * shentsize) as usize;
        let name = read_u32(elf, header) as u64;
        if names > len || name > len - names {
            return Section::OutOfBounds;
        }
        let start = (names + name) as usize;
        let ghost rest = elf@.skip(start as int);
        let mut end: usize = start;
        while end < elf.len() && elf[end] != 0
            invariant
                start <= end <= elf@.len(),
                forall|j: int| start <= j < end ==> elf@[j] != 0,
            decreases elf.len() - end,
        {
            end = end + 1;
        }
        proof {
            assert forall|j: int| 0 <= j < end - start implies rest[j] != 0u8 by {
                assert(rest[j] == elf@[start + j]);
            }
            text::lemma_find_is(rest, 0u8, end - start);
            assert(rest.take(end - start) =~= elf@.subrange(start as int, end as int));
        }
        if end == elf.len() {
            return Section::Unterminated;
        }
        if path::bytes_equal(vstd::slice::slice_subrange(elf, start, end), wanted) {
            if elf.len() - header < 0x28 {
                return Section::OutOfBounds;
            }
            let off = read_u64(elf, header + 0x18);
            let size = read_u64(elf, header + 0x20);
            if off > len || size > len - off {
                return Section::OutOfBounds;
            }
            return Section::At(off as usize, size as usize);
        }
        i = i + 1;
    }
    Section::Missing
}

/// What extracting a section gives: its contents, or what is wrong.
pub open spec fn extracted(elf: Seq<u8>, want: Seq<char>) -> Result<Seq<u8>, Seq<char>> {
    if !is_elf64(elf) {
        Err("not a 64-bit little-endian ELF"@)
    } else {
        match section(elf, encode_utf8(want)) {
            Section::At(start, size) => Ok(elf.subrange(start as int, start + size)),
            Section::Unterminated => Err("unterminated section name"@),
            _ => Err("section "@ + want + " not found"@),
        }
    }
}

/// Returns the contents of the named section of a 64-bit little-endian ELF object.
pub fn extract_section(elf: &[u8], want: &str) -> (r: Result<Vec<u8>, String>)
    requires
        is_elf64(elf@) ==> section(elf@, encode_utf8(want@)) != Section::OutOfBounds,
    ensures
        match r {
            Ok(contents) => extracted(elf@, want@) == Ok::<Seq<u8>, Seq<char>>(contents@),
            Err(e) => extracted(elf@, want@) == Err::<Seq<u8>, Seq<char>>(e@),
        },
{
    if !is_elf(elf) {
        return Err("not a 64-bit little-endian ELF".to_owned());
    }
    match find_section(elf, want) {
        Section::At(start, size) => {
            proof {
                assert(elf.len() <= usize::MAX);
                lemma_at_in_bounds(elf@, encode_utf8(want@), 0);
            }
            Ok(path::copy_range(elf, start, start + size))
        },
        Section::Unterminated => Err("unterminated section name".to_owned()),
        _ => {
            let mut e = "section ".to_owned();
            e.append(want);
            e.append(" not found");
            Err(e)
        },
    }
}

/// A section that is found is all in the object.
pub proof fn lemma_at_in_bounds(elf: Seq<u8>, want: Seq<u8>, i: int)
    requires
        elf.len() <= usize::MAX,
    ensures
        scan(elf, want, i) matches Section::At(start, size) ==> start + size <= elf.len(),
    decreases section_count(elf) - i,
{
    if i < section_count(elf) {
        lemma_at_in_bounds(elf, want, i + 1);
    }
}

/// Where the name of section `i` stands, by the numbers at fixed places in the object: the
/// headers start where the eight bytes at 0x28 say, each as long as the two at 0x3a say, and the
/// section of names is the one that the two bytes at 0x3e say.
pub open spec fn name_start(elf: Seq<u8>, i: int) -> int {
    let headers = bytes::le64(elf, 0x28);
    let size = bytes::le16(elf, 0x3a);
    let names = bytes::le64(elf, headers + bytes::le16(elf, 0x3e) * size + 0x18);
    names + bytes::le32(elf, headers + i * size)
}

/// Whether section `i` has the name `want`, which a zero byte ends.
pub open spec fn goes_by(elf: Seq<u8>, want: Seq<u8>, i: int) -> bool {
    let n = name_start(elf, i);
    &&& n + want.len() < elf.len()
    &&& elf.subrange(n, n + want.len()) == want
    &&& elf[n + want.len()] == 0
}

proof fn lemma_goes_by(elf: Seq<u8>, want: Seq<u8>, i: int)
    requires
        !want.contains(0),
        0 <= name_at(elf, i) <= elf.len(),
    ensures
        ({
            let rest = elf.skip(name_at(elf, i));
            let end = text::find(rest, 0u8);
            goes_by(elf, want, i) <==> end < rest.len() && rest.take(end) == want
        }),
{
    let n = name_at(elf, i);
    let rest = elf.skip(n);
    let end = text::find(rest, 0u8);
    let len = want.len() as int;
    text::lemma_find_bounds(rest, 0u8);
    if goes_by(elf, want, i) {
        assert forall|j: int| 0 <= j < len implies rest[j] != 0u8 by {
            assert(elf.subrange(n, n + len)[j] == rest[j]);
            assert(want.contains(want[j]));
        }
        assert(rest[len] == 0u8);
        text::lemma_find_is(rest, 0u8, len);
        assert(rest.take(end) =~= want) by {
            assert(rest.take(len) =~= elf.subrange(n, n + len));
        }
    }
    if end < rest.len() && rest.take(end) == want {
        assert(elf.subrange(n, n + len) =~= rest.take(end));
    }
}

proof fn lemma_scan(elf: Seq<u8>, want: Seq<u8>, from: int) -> (i: int)
    requires
        0 <= from,
        !want.contains(0),
        elf.len() <= usize::MAX,
        is_elf64(elf),
    ensures
        from <= i,
        forall|j: int| from <= j < i ==> !#[trigger] goes_by(elf, want, j),
        ({
            let headers = bytes::le64(elf, 0x28);
            let header = headers + i * bytes::le16(elf, 0x3a);
            match scan(elf, want, from) {
                Section::Missing => i >= bytes::le16(elf, 0x3c),
                Section::At(start, size) => {
                    &&& i < bytes::le16(elf, 0x3c)
                    &&& goes_by(elf, want, i)
                    &&& start == bytes::le64(elf, header + 0x18)
                    &&& size == bytes::le64(elf, header + 0x20)
                    &&& start + size <= elf.len()
                },
                Section::Unterminated => {
                    &&& i < bytes::le16(elf, 0x3c)
                    &&& name_start(elf, i) <= elf.len()
                    &&& forall|j: int| name_start(elf, i) <= j < elf.len() ==> elf[j] != 0
                },
                Section::OutOfBounds => {
                    &&& i < bytes::le16(elf, 0x3c)
                    &&& header + 4 > elf.len() || name_start(elf, i) > elf.len() || (goes_by(
                        elf,
                        want,
                        i,
                    ) && (header + 0x28 > elf.len() || bytes::le64(elf, header + 0x18)
                        + bytes::le64(elf, header + 0x20) > elf.len()))
                },
            }
        }),
    decreases section_count(elf) - from,
{
    let header = header_at(elf, from);
    let start = name_at(elf, from);
    let rest = elf.skip(start);
    let end = text::find(rest, 0u8);
    if from >= section_count(elf) {
        from
    } else if header + 4 > elf.len() || start > elf.len() {
        from
    } else {
        text::lemma_find_bounds(rest, 0u8);
        lemma_goes_by(elf, want, from);
        if end == rest.len() {
            assert forall|j: int| start <= j < elf.len() implies elf[j] != 0 by {
                assert(rest[j - start] == elf[j]);
            }
            from
        } else if rest.take(end) != want {
            lemma_scan(elf, want, from + 1)
        } else {
            from
        }
    }
}

/// The section that is found is the first that goes by the name, and it is where its header says,
/// all of it in the object. Where none is found, none goes by the name. A name that does not end
/// is told only where there is one, and so is what lies outside of the object.
pub proof fn law_section(elf: Seq<u8>, want: Seq<u8>) -> (i: int)
    requires
        !want.contains(0),
        elf.len() <= usize::MAX,
        is_elf64(elf),
    ensures
        0 <= i,
        section(elf, want) != Section::OutOfBounds ==> forall|j: int|
            0 <= j < i ==> !#[trigger] goes_by(elf, want, j),
        ({
            let headers = bytes::le64(elf, 0x28);
            let size = bytes::le16(elf, 0x3a);
            let header = headers + i * size;
            match section(elf, want) {
                Section::Missing => i >= bytes::le16(elf, 0x3c),
                Section::At(start, len) => {
                    &&& i < bytes::le16(elf, 0x3c)
                    &&& goes_by(elf, want, i)
                    &&& start == bytes::le64(elf, header + 0x18)
                    &&& len == bytes::le64(elf, header + 0x20)
                    &&& start + len <= elf.len()
                },
                Section::Unterminated => {
                    &&& i < bytes::le16(elf, 0x3c)
                    &&& name_start(elf, i) <= elf.len()
                    &&& forall|j: int| name_start(elf, i) <= j < elf.len() ==> elf[j] != 0
                },
                Section::OutOfBounds => {
                    ||| headers + bytes::le16(elf, 0x3e) * size + 0x20 > elf.len()
                    ||| i < bytes::le16(elf, 0x3c) && (header + 4 > elf.len() || name_start(elf, i)
                        > elf.len() || header + 0x28 > elf.len() || bytes::le64(
                        elf,
                        header + 0x18,
                    ) + bytes::le64(elf, header + 0x20) > elf.len())
                },
            }
        }),
{
    if header_at(elf, names_section(elf)) + 0x20 > elf.len() {
        0
    } else {
        lemma_scan(elf, want, 0)
    }
}

/// What extracting a section gives: the bytes that are found, and otherwise which of three things
/// is wrong. An object is known by its first bytes: the word `ELF` behind 0x7f, and then 2 for 64
/// bits and 1 for little-endian.
pub proof fn law_extracted(elf: Seq<u8>, want: Seq<char>)
    requires
        elf.len() <= usize::MAX,
    ensures
        is_elf64(elf) <==> elf.len() > 64 && elf.take(6) == seq![
            0x7fu8,
            0x45u8,
            0x4cu8,
            0x46u8,
            2u8,
            1u8,
        ],
        !is_elf64(elf) ==> extracted(elf, want) == Err::<Seq<u8>, Seq<char>>(
            "not a 64-bit little-endian ELF"@,
        ),
        is_elf64(elf) ==> match section(elf, encode_utf8(want)) {
            Section::At(start, size) => extracted(elf, want) == Ok::<Seq<u8>, Seq<char>>(
                elf.skip(start as int).take(size as int),
            ),
            Section::Missing => extracted(elf, want) == Err::<Seq<u8>, Seq<char>>(
                "section "@ + want + " not found"@,
            ),
            Section::Unterminated => extracted(elf, want) == Err::<Seq<u8>, Seq<char>>(
                "unterminated section name"@,
            ),
            Section::OutOfBounds => true,
        },
{
    if elf.len() > 64 {
        let head = seq![0x7fu8, 0x45u8, 0x4cu8, 0x46u8, 2u8, 1u8];
        if is_elf64(elf) {
            assert(elf.take(6) =~= head);
        }
        if elf.take(6) == head {
            assert(elf.take(6)[0] == elf[0] && elf.take(6)[1] == elf[1] && elf.take(6)[2] == elf[2]
                && elf.take(6)[3] == elf[3] && elf.take(6)[4] == elf[4] && elf.take(6)[5] == elf[5]);
        }
    }
    if is_elf64(elf) {
        lemma_at_in_bounds(elf, encode_utf8(want), 0);
        if let Section::At(start, size) = section(elf, encode_utf8(want)) {
            assert(elf.skip(start as int).take(size as int) =~= elf.subrange(
                start as int,
                start + size,
            ));
        }
    }
}

/// No section goes by a name with a zero byte in it.
pub proof fn law_no_zero_in_names(elf: Seq<u8>, want: Seq<u8>)
    requires
        want.contains(0),
    ensures
        !(section(elf, want) is At),
{
    lemma_no_zero_in_names(elf, want, 0);
}

proof fn lemma_no_zero_in_names(elf: Seq<u8>, want: Seq<u8>, from: int)
    requires
        want.contains(0),
    ensures
        !(scan(elf, want, from) is At),
    decreases section_count(elf) - from,
{
    let rest = elf.skip(name_at(elf, from));
    let end = text::find(rest, 0u8);
    text::lemma_find_bounds(rest, 0u8);
    if from < section_count(elf) {
        lemma_no_zero_in_names(elf, want, from + 1);
        if rest.take(end) == want {
            let j = choose|j: int| 0 <= j < want.len() && want[j] == 0u8;
            assert(rest.take(end)[j] == rest[j]);
        }
    }
}

} // verus!
